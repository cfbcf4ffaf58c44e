use planet_wars::planet::{Expedition, Planet, ME, NEUTRAL};
use planet_wars::timeline::{execute_combat, new_state, ExpEvent, PlanetState, PlanetStates};

fn p(ships: i64, owner: usize) -> Planet {
    Planet { id: 0, ships, owner }
}

fn e(ships: i64, remaining: usize, owner: usize) -> Expedition {
    Expedition { id: 0, origin: 0, destination: 0, ships, remaining, owner }
}

fn future(ps: &PlanetStates) -> Vec<Planet> {
    ps.futures().to_vec()
}

#[test]
fn simple_test() {
    let free = |i| p(i, 0);
    let own = |i| p(i, 1);

    let mut player = PlanetStates::new(own(0), 2, 5);
    player.flush(own(0));
    assert_eq!(future(&player), vec![own(0), own(1), own(2), own(3), own(4), own(5)]);

    player.turn();
    player.flush(own(1));
    assert_eq!(future(&player), vec![own(1), own(2), own(3), own(4), own(5), own(6)]);

    let mut neutral = PlanetStates::new(free(0), 2, 5);
    neutral.flush(free(0));
    assert_eq!(future(&neutral), vec![free(0), free(0), free(0), free(0), free(0), free(0)]);
}

#[test]
fn test_with_ships_one() {
    let own = |i| p(i, 1);

    let mut ps = PlanetStates::new(own(0), 2, 5);
    let exp = e(2, 2, 2);

    ps.incoming_exp(&exp);
    ps.flush(own(0));

    assert_eq!(future(&ps), vec![own(0), own(1), own(2), own(1), own(2), own(3)]);

    ps.turn();
    ps.flush(own(1));
    assert_eq!(future(&ps), vec![own(1), own(2), own(1), own(2), own(3), own(4)]);
}

#[test]
fn test_with_ships_with_conquering() {
    let own = |i| p(i, 1);
    let enemy = |i| p(i, 2);

    let mut ps = PlanetStates::new(own(0), 2, 5);
    let exp = e(5, 2, 2);

    ps.incoming_exp(&exp);
    ps.flush(own(0));

    assert_eq!(future(&ps), vec![own(0), own(1), own(2), enemy(2), enemy(3), enemy(4)]);
}

#[test]
fn test_with_dispatch() {
    let own = |i| p(i, 1);

    let mut ps = PlanetStates::new(own(2), 2, 5);
    ps.dispatch(2);
    ps.flush(own(0));

    assert_eq!(future(&ps), vec![own(0), own(1), own(2), own(3), own(4), own(5)]);

    ps.turn();
    ps.flush(own(1));
    assert_eq!(future(&ps), vec![own(1), own(2), own(3), own(4), own(5), own(6)]);
}

#[test]
fn owned_planet_grows_one_ship_per_turn() {
    let ps = PlanetStates::new(p(5, ME), 2, 3);
    let f = future(&ps);
    assert_eq!(f[0], p(5, ME));
    assert_eq!(f[1], p(6, ME));
    assert_eq!(f[2], p(7, ME));
    assert_eq!(f[3], p(8, ME));
}

#[test]
fn turn_produces_on_owned_and_not_on_neutral() {
    let mut owned = PlanetStates::new(p(5, ME), 2, 3);
    owned.turn();
    assert_eq!(owned.planet().ships, 6);
    assert_eq!(owned.planet().owner, ME);

    let mut neutral = PlanetStates::new(p(4, NEUTRAL), 2, 3);
    neutral.turn();
    assert_eq!(neutral.planet().ships, 4);
    assert_eq!(neutral.planet().owner, NEUTRAL);
}

#[test]
fn enemy_capture_keeps_producing() {
    // Garrison 0 of the agent, 5 enemy ships landing with the second combat.
    let mut ps = PlanetStates::new(p(0, ME), 2, 5);
    ps.incoming_exp(&e(5, 1, 2));
    ps.refresh();
    let f = future(&ps);
    assert_eq!(f[1], p(1, ME));
    assert_eq!(f[2], p(3, 2));
    assert_eq!(f[3], p(4, 2));
}

#[test]
fn equal_arrivals_leave_planet_neutral() {
    let mut ps = PlanetStates::new(p(0, NEUTRAL), 3, 4);
    ps.incoming_exp(&e(4, 0, 2));
    ps.incoming_exp(&e(4, 0, 3));
    ps.refresh();
    assert_eq!(future(&ps)[1], p(0, NEUTRAL));
}

#[test]
fn flush_twice_gives_same_future() {
    let mut ps = PlanetStates::new(p(3, ME), 2, 5);
    ps.incoming_exp(&e(6, 3, 2));
    ps.flush(p(3, ME));
    let first = future(&ps);
    ps.refresh();
    let second = future(&ps);
    ps.flush(p(3, ME));
    assert_eq!(first, second);
    assert_eq!(first, future(&ps));
}

#[test]
fn combat_strongest_keeps_difference() {
    let events = vec![ExpEvent { ships: 0 }, ExpEvent { ships: 0 }, ExpEvent { ships: 7 }];
    let r = execute_combat(PlanetState { owner: 1, ships: 5 }, &events);
    assert_eq!(r, PlanetState { owner: 2, ships: 2 });
}

#[test]
fn combat_garrison_joins_own_arrivals() {
    let events = vec![ExpEvent { ships: 0 }, ExpEvent { ships: 3 }, ExpEvent { ships: 7 }];
    let r = execute_combat(PlanetState { owner: 1, ships: 5 }, &events);
    assert_eq!(r, PlanetState { owner: 1, ships: 1 });
}

#[test]
fn combat_tie_is_neutral() {
    let events = vec![ExpEvent { ships: 0 }, ExpEvent { ships: 5 }, ExpEvent { ships: 5 }];
    let r = execute_combat(PlanetState { owner: 0, ships: 0 }, &events);
    assert_eq!(r, PlanetState { owner: NEUTRAL, ships: 0 });
    let none = new_state(3);
    let r = execute_combat(PlanetState { owner: 0, ships: 0 }, &none);
    assert_eq!(r, PlanetState { owner: NEUTRAL, ships: 0 });
}

#[test]
fn next_adds_one_ship_unless_neutral() {
    assert_eq!(PlanetState { owner: 2, ships: 4 }.next(), PlanetState { owner: 2, ships: 5 });
    assert_eq!(PlanetState { owner: 0, ships: 4 }.next(), PlanetState { owner: 0, ships: 4 });
}

#[test]
fn reset_and_new_state_are_empty() {
    let mut ev = ExpEvent { ships: 9 };
    ev.reset();
    assert_eq!(ev.ships, 0);
    let s = new_state(4);
    assert_eq!(s.len(), 4);
    assert!(s.iter().all(|x| x.ships == 0));
}

#[test]
fn reconcile_reports_mismatch() {
    let mut ps = PlanetStates::new(p(3, ME), 2, 2);
    assert!(!ps.reconcile(p(3, ME)));
    assert!(ps.reconcile(p(4, 2)));
    ps.refresh();
    assert_eq!(ps.index(0), p(4, 2));
    assert_eq!(ps.index(1), p(5, 2));
}
