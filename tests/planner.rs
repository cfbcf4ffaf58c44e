use planet_wars::graphs::try_oo;
use planet_wars::operation::{OptionalOperation, UsablePlanet};
use planet_wars::planet::{Expedition, Planet, ME, NEUTRAL};
use planet_wars::search::Search;
use planet_wars::world::{find_optional_operations, simple_turn, PlanetMap, State, TurnError};

fn planet(ships: i64, owner: usize) -> Planet {
    Planet { id: 0, ships, owner }
}

fn op(target: usize, required_ships: i64, source: usize, ships: i64) -> OptionalOperation {
    OptionalOperation {
        weight: 1,
        duration: 1,
        required_ships,
        usable_planets: vec![UsablePlanet { id: source, dist: 1, usable_ships: ships }],
        target,
    }
}

#[test]
fn operations_sharing_a_source_are_not_both_accepted() {
    let state = State::new(vec![planet(10, ME), planet(0, NEUTRAL), planet(0, NEUTRAL)], 3);
    let ops = vec![op(1, 7, 0, 10), op(2, 6, 0, 10)];
    let bundle = try_oo(&ops, state.planets());
    assert_eq!(bundle.len(), 1);
    let chosen = &ops[bundle[0].original];
    assert_eq!(bundle[0].solution.len(), 1);
    assert_eq!(bundle[0].solution[0].source, 0);
    assert_eq!(bundle[0].solution[0].target, chosen.target);
    assert_eq!(bundle[0].solution[0].ships, chosen.required_ships);
}

#[test]
fn accepted_transfers_sum_to_requirement() {
    let state = State::new(vec![planet(4, ME), planet(5, ME), planet(0, NEUTRAL)], 3);
    let o = OptionalOperation {
        weight: 1,
        duration: 1,
        required_ships: 8,
        usable_planets: vec![
            UsablePlanet { id: 0, dist: 1, usable_ships: 4 },
            UsablePlanet { id: 1, dist: 1, usable_ships: 5 },
        ],
        target: 2,
    };
    let bundle = try_oo(&vec![o], state.planets());
    assert_eq!(bundle.len(), 1);
    let total: i64 = bundle[0].solution.iter().map(|s| s.ships).sum();
    assert_eq!(total, 8);
}

#[test]
fn infeasible_operation_is_dropped() {
    let state = State::new(vec![planet(3, ME), planet(0, NEUTRAL)], 2);
    let bundle = try_oo(&vec![op(1, 9, 0, 3)], state.planets());
    assert!(bundle.is_empty());
}

#[test]
fn empty_trial_gives_empty_bundle() {
    let state = State::new(vec![planet(3, ME), planet(0, NEUTRAL)], 2);
    let bundle = try_oo(&Vec::new(), state.planets());
    assert!(bundle.is_empty());
}

#[test]
fn score_is_weight_over_squared_cost() {
    let o = OptionalOperation { weight: 1, duration: 4, required_ships: 3, usable_planets: vec![], target: 0 };
    assert_eq!(o.score(), 171_798_691);
    let o = OptionalOperation { weight: 2, duration: 0, required_ships: 0, usable_planets: vec![], target: 0 };
    assert_eq!(o.score(), 2 * 4_294_967_296);
}

#[test]
fn generator_picks_first_turn_with_enough_ships() {
    let state = State::new(vec![planet(10, ME), planet(3, NEUTRAL)], 4);
    // Planet 0 is two turns from the target.
    let op = find_optional_operations(1, &state, &vec![2, 0]).unwrap();
    assert_eq!(op.duration, 2);
    assert_eq!(op.required_ships, 4);
    assert_eq!(op.target, 1);
    assert_eq!(op.weight, 1);
    assert_eq!(op.usable_planets.len(), 1);
    assert_eq!(op.usable_planets[0].id, 0);
    assert_eq!(op.usable_planets[0].usable_ships, 10);
}

#[test]
fn generator_finds_nothing_without_strength() {
    let state = State::new(vec![planet(1, ME), planet(30, NEUTRAL)], 4);
    assert!(find_optional_operations(1, &state, &vec![2, 0]).is_none());
}

#[test]
fn search_commits_best_bundle() {
    let mut state = State::new(vec![planet(10, ME), planet(3, NEUTRAL)], 4);
    let distances = vec![vec![0, 2], vec![2, 0]];
    let mut search = Search::new(&state, &distances);
    assert_eq!(search.queue.len(), 1);
    while search.step(&state) {}
    assert!(search.queue.is_empty());
    assert_eq!(search.tried.len(), 1);
    search.commit(&mut state);
    let moves = state.flush();
    assert_eq!(moves.len(), 1);
    assert_eq!(moves[0].source, 0);
    assert_eq!(moves[0].target, 1);
    assert_eq!(moves[0].ships, 4);
    assert!(state.flush().is_empty());
}

#[test]
fn search_step_on_empty_queue_does_nothing() {
    let state = State::new(vec![planet(1, ME)], 1);
    let mut search = Search::new(&state, &vec![vec![0]]);
    assert!(!search.step(&state));
    assert!(search.best.is_empty());
    assert!(search.best_score.is_none());
}

fn exp(id: u64, ships: i64, origin: usize, destination: usize, owner: usize, remaining: usize) -> Expedition {
    Expedition { id, ships, remaining, owner, origin, destination }
}

#[test]
fn turn_applies_expeditions_and_confirms() {
    let mut state = State::new(vec![planet(10, ME), planet(2, NEUTRAL)], 4);
    let r = state.turn(&vec![exp(0, 6, 0, 1, ME, 1)], &vec![planet(5, ME), planet(2, NEUTRAL)]);
    assert_eq!(r, Ok(()));
    let f = state.planets()[1].futures().to_vec();
    assert_eq!(f[0].ships, 2);
    assert_eq!(f[1].owner, ME);
    assert_eq!(f[1].ships, 4);
    assert_eq!(f[2].owner, ME);
    assert_eq!(f[2].ships, 5);
    assert_eq!(state.planets()[0].planet().ships, 5);
}

#[test]
fn stale_expedition_is_skipped() {
    let mut state = State::new(vec![planet(10, ME), planet(2, NEUTRAL)], 4);
    assert_eq!(state.incoming(&exp(0, 3, 0, 1, ME, 1)), Ok(true));
    assert_eq!(state.incoming(&exp(0, 3, 0, 1, ME, 1)), Ok(false));
    assert_eq!(state.planets()[0].planet().ships, 7);
}

#[test]
fn turn_errors() {
    let mut state = State::new(vec![planet(10, ME), planet(2, NEUTRAL)], 4);
    assert_eq!(state.incoming(&exp(0, 3, 0, 5, ME, 1)), Err(TurnError::UnknownPlanet));
    assert_eq!(state.incoming(&exp(0, 3, 0, 1, ME, 4)), Err(TurnError::BeyondHorizon));
    assert_eq!(state.incoming(&exp(0, 3, 0, 1, 3, 1)), Err(TurnError::UnknownOwner));
    assert_eq!(state.incoming(&exp(0, -3, 0, 1, ME, 1)), Err(TurnError::ShipsOutOfRange));
    assert_eq!(state.turn(&vec![], &vec![planet(1, ME)]), Err(TurnError::MissingPlanet));
}

#[test]
fn search_prefers_higher_scored_operation() {
    // Both targets need ships from planet 0, which cannot serve both.
    let state = State::new(vec![planet(10, ME), planet(2, NEUTRAL), planet(8, NEUTRAL)], 4);
    let distances = vec![vec![0, 1, 1], vec![1, 0, 1], vec![1, 1, 0]];
    let mut search = Search::new(&state, &distances);
    assert_eq!(search.queue.len(), 2);
    assert!(search.step(&state));
    assert_eq!(search.tried[0].target, 1);
    let first = search.best_score.unwrap();
    while search.step(&state) {}
    assert_eq!(search.tried.len(), 2);
    assert_eq!(search.best.len(), 1);
    assert!(search.best_score.unwrap() >= first);
}

#[test]
fn simple_turn_sends_strongest_to_weakest() {
    let mut state = State::new(
        vec![planet(7, ME), planet(9, ME), planet(9, ME), planet(4, NEUTRAL), planet(2, 2), planet(2, 3)],
        4,
    );
    assert_eq!(simple_turn(&mut state), Some(()));
    let moves = state.flush();
    assert_eq!(moves.len(), 1);
    assert_eq!(moves[0].source, 2);
    assert_eq!(moves[0].target, 4);
    assert_eq!(moves[0].ships, 8);
}

#[test]
fn simple_turn_needs_both_sides() {
    let mut state = State::new(vec![planet(7, ME), planet(9, ME)], 4);
    assert_eq!(simple_turn(&mut state), None);
    assert!(state.flush().is_empty());
}

#[test]
fn negative_stock_offers_nothing() {
    // Stock -3 now and 0 one turn later: nothing can be sent at that turn.
    let state = State::new(vec![planet(-3, ME), planet(0, NEUTRAL)], 2);
    assert_eq!(state.planets()[0].futures()[1].ships, 0);
    let o = OptionalOperation {
        weight: 1,
        duration: 2,
        required_ships: 2,
        usable_planets: vec![UsablePlanet { id: 0, dist: 1, usable_ships: 0 }],
        target: 1,
    };
    assert!(try_oo(&vec![o], state.planets()).is_empty());
}

#[test]
fn turn_records_mismatches_and_watermark() {
    let mut state = State::new(vec![planet(10, ME), planet(2, NEUTRAL)], 4);
    let r = state.turn(
        &vec![exp(0, 6, 0, 1, ME, 1), exp(1, 1, 0, 1, ME, 2)],
        &vec![planet(4, ME), planet(2, NEUTRAL)],
    );
    assert_eq!(r, Ok(()));
    // Planet 0 was predicted at 10 - 7 + 1 = 4 ships; planet 1 at 2.
    assert_eq!(state.mismatches(), &[false, false]);
    assert_eq!(state.incoming(&exp(1, 1, 0, 1, ME, 1)), Ok(false));
    assert_eq!(state.incoming(&exp(2, 1, 0, 1, ME, 1)), Ok(true));
    let r = state.turn(&vec![], &vec![planet(9, ME), planet(2, NEUTRAL)]);
    assert_eq!(r, Ok(()));
    assert_eq!(state.mismatches(), &[true, true]);
}

#[test]
fn refused_expedition_keeps_earlier_ones() {
    let mut state = State::new(vec![planet(10, ME), planet(2, NEUTRAL)], 4);
    let r = state.turn(
        &vec![exp(0, 6, 0, 1, ME, 1), exp(1, 1, 0, 7, ME, 2)],
        &vec![planet(4, ME), planet(2, NEUTRAL)],
    );
    assert_eq!(r, Err(TurnError::UnknownPlanet));
    // The first expedition was applied, and no planet was aged.
    assert_eq!(state.planets()[0].planet().ships, 4);
    assert_eq!(state.incoming(&exp(0, 6, 0, 1, ME, 1)), Ok(false));
}

#[test]
fn planet_map_resolves_names_both_ways() {
    let m = PlanetMap::new(vec!["a".to_string(), "b".to_string(), "c".to_string()]).unwrap();
    assert_eq!(m.len(), 3);
    assert_eq!(m.index(&"b".to_string()), Some(1));
    assert_eq!(m.index(&"z".to_string()), None);
    assert_eq!(m.name(2), "c");
    assert!(PlanetMap::new(vec!["a".to_string(), "a".to_string()]).is_none());
}
