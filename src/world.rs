use vstd::prelude::*;

use crate::graphs::{operation_ok, timelines_ok, SolutionPart};
use crate::operation::{OptionalOperation, UsablePlanet};
use crate::planet::{Expedition, Planet, ME, MAX_FLEET, MAX_HORIZON, MAX_SHIPS};
use crate::timeline::{combat, empty_schedule, produce, PlanetStates};
use crate::planet::Owner;

verus! {

/// Why a turn update was refused.
#[derive(Clone, Copy, Debug, PartialEq, Eq, Structural)]
pub enum TurnError {
    /// An expedition names a planet that does not exist.
    UnknownPlanet,
    /// An expedition arrives later than the prediction window.
    BeyondHorizon,
    /// An expedition belongs to an owner outside the known players.
    UnknownOwner,
    /// A ship count, or the number of handled expeditions, leaves the range
    /// that the simulator supports.
    ShipsOutOfRange,
    /// The confirmed snapshot does not list every planet once, in order.
    MissingPlanet,
}

/// Planet `p` as predicted `i` turns ahead.
pub open spec fn seen(tl: Seq<PlanetStates>, p: int, i: int) -> Planet {
    tl[p].future_seq()[i]
}

/// The planets among the first `n` that can reach the target by turn `d`
/// and are held by the agent when they must depart, with the ships they
/// have then.
pub open spec fn usable_prefix(tl: Seq<PlanetStates>, dist: Seq<usize>, d: int, n: nat) -> Seq<UsablePlanet>
    decreases n,
{
    if n == 0 {
        seq![]
    } else {
        let prev = usable_prefix(tl, dist, d, (n - 1) as nat);
        let p = n - 1;
        if dist[p] <= d && seen(tl, p, d - dist[p]).owner == ME {
            prev.push(UsablePlanet { id: p as usize, dist: dist[p], usable_ships: seen(tl, p, d - dist[p]).ships })
        } else {
            prev
        }
    }
}

proof fn lemma_usable_prefix(tl: Seq<PlanetStates>, dist: Seq<usize>, d: int, n: nat)
    requires
        n <= dist.len(),
        dist.len() <= usize::MAX,
    ensures
        forall|j: int| 0 <= j < usable_prefix(tl, dist, d, n).len() ==> {
            let ub = #[trigger] usable_prefix(tl, dist, d, n)[j];
            &&& ub.id < n
            &&& ub.dist == dist[ub.id as int]
            &&& ub.dist <= d
        },
    decreases n,
{
    if n > 0 {
        lemma_usable_prefix(tl, dist, d, (n - 1) as nat);
        let prev = usable_prefix(tl, dist, d, (n - 1) as nat);
        let cur = usable_prefix(tl, dist, d, n);
        assert(((n - 1) as usize) as int == n - 1);
        assert forall|j: int| 0 <= j < cur.len() implies {
            let ub = #[trigger] cur[j];
            &&& ub.id < n
            &&& ub.dist == dist[ub.id as int]
            &&& ub.dist <= d
        } by {
            if j < prev.len() {
                assert(cur[j] == prev[j]);
            }
        }
    }
}

/// Ships of all the usable planets, summed.
pub open spec fn usable_total(s: Seq<UsablePlanet>) -> int
    decreases s.len(),
{
    if s.len() == 0 {
        0
    } else {
        usable_total(s.drop_last()) + s.last().usable_ships
    }
}

/// Turn `d` is worth an operation on `target`: some planet lies exactly `d`
/// turns away, the target is not the agent's then, and the usable planets
/// hold more than the ships needed to take it.
pub open spec fn qualifies(tl: Seq<PlanetStates>, dist: Seq<usize>, target: int, d: int) -> bool {
    &&& dist.contains(d as usize)
    &&& 0 <= d
    &&& seen(tl, target, d).owner != ME
    &&& usable_total(usable_prefix(tl, dist, d, dist.len())) > seen(tl, target, d).ships + 1
}

/// `op` is the operation on `target`: at the first turn `d` (within the
/// window) that qualifies, one ship more than the target holds then, from
/// the usable planets; weight 2 when the agent holds the target now, else 1.
pub open spec fn is_candidate(tl: Seq<PlanetStates>, window: nat, dist: Seq<usize>, target: int, op: OptionalOperation) -> bool {
    let d = op.duration as int;
    &&& d <= window
    &&& qualifies(tl, dist, target, d)
    &&& forall|e: int| 0 <= e < d ==> !qualifies(tl, dist, target, e)
    &&& op.target == target
    &&& op.required_ships == seen(tl, target, d).ships + 1
    &&& op.usable_planets@ == usable_prefix(tl, dist, d, dist.len())
    &&& op.weight == if tl[target].holding().0 == ME { 2u64 } else { 1u64 }
    &&& operation_ok(tl, op)
}

/// The candidate operation on `target`: at the first turn that qualifies,
/// take the target with one ship more than it is predicted to hold, from
/// every usable planet. Targets held by the agent now weigh double.
pub fn find_optional_operations(target: usize, state: &State, distances: &Vec<usize>) -> (r: Option<OptionalOperation>)
    requires
        state.wf(),
        state.settled(),
        target < state.timelines().len(),
        distances@.len() == state.timelines().len(),
        forall|p: int| 0 <= p < distances@.len() ==> #[trigger] distances@[p] <= state.window(),
    ensures
        r matches Some(op) ==> is_candidate(state.timelines(), state.window(), distances@, target as int, op),
        r is None ==> forall|e: int| 0 <= e <= state.window() ==> !qualifies(state.timelines(), distances@, target as int, e),
{
    let ghost tl = state.timelines();
    let n = state.planets.len();
    let h = state.horizon;
    proof {
        state.lemma_timelines_ok();
    }
    let tgt = &state.planets[target];
    assert(tgt.wf());
    let weight: u64 = if tgt.planet().owner == ME { 2 } else { 1 };
    let mut d: usize = 0;
    while d <= h
        invariant
            state.wf(),
            state.settled(),
            tl == state.timelines(),
            timelines_ok(tl),
            n == tl.len(),
            h == state.window(),
            h <= MAX_HORIZON,
            target < n,
            *tgt == tl[target as int],
            weight == if tl[target as int].holding().0 == ME { 2u64 } else { 1u64 },
            distances@.len() == n,
            forall|p: int| 0 <= p < distances@.len() ==> #[trigger] distances@[p] <= h,
            forall|e: int| 0 <= e < d ==> !qualifies(tl, distances@, target as int, e),
        decreases h + 1 - d,
    {
        proof {
            assert(tl[target as int].wf());
            assert(tl[target as int].predicted());
        }
        let mut bucket = false;
        let mut p: usize = 0;
        while p < n
            invariant
                n == distances@.len(),
                p <= n,
                bucket == exists|q: int| 0 <= q < p && distances@[q] == d,
            decreases n - p,
        {
            if distances[p] == d {
                bucket = true;
            }
            p = p + 1;
        }
        proof {
            if bucket {
                let q = choose|q: int| 0 <= q < n && distances@[q] == d;
                assert(distances@[q] == d);
            } else {
                assert(!distances@.contains(d));
            }
        }
        let here = tgt.index(d);
        if bucket && here.owner != ME {
            let required_ships = here.ships + 1;
            let mut usable: Vec<UsablePlanet> = Vec::new();
            let mut total: i128 = 0;
            let mut p: usize = 0;
            while p < n
                invariant
                    state.wf(),
                    tl == state.timelines(),
                    timelines_ok(tl),
                    n == tl.len(),
                    n == distances@.len(),
                    h == state.window(),
                    d <= h,
                    forall|q: int| 0 <= q < distances@.len() ==> #[trigger] distances@[q] <= h,
                    p <= n,
                    usable@ == usable_prefix(tl, distances@, d as int, p as nat),
                    total == usable_total(usable@),
                    -(p as int) * 0x1000_0000_0000_0000 <= total <= (p as int) * 0x1000_0000_0000_0000,
                decreases n - p,
            {
                let dp = distances[p];
                if dp <= d {
                    assert(tl[p as int].wf());
                    assert(tl[p as int].predicted());
                    let there = state.planets[p].index(d - dp);
                    if there.owner == ME {
                        let ghost prev = usable@;
                        usable.push(UsablePlanet { id: p, dist: dp, usable_ships: there.ships });
                        assert(usable@.drop_last() == prev);
                        assert(-0x1000_0000_0000_0000 <= there.ships <= 0x1000_0000_0000_0000);
                        total = total + there.ships as i128;
                    }
                }
                p = p + 1;
            }
            if total > required_ships as i128 {
                proof {
                    lemma_usable_prefix(tl, distances@, d as int, n as nat);
                    assert forall|j: int| 0 <= j < usable@.len() implies {
                        let ub = #[trigger] usable@[j];
                        &&& ub.id < tl.len()
                        &&& ub.dist <= d
                        &&& d - ub.dist < tl[ub.id as int].future_seq().len()
                    } by {
                        let ub = usable@[j];
                        assert(tl[ub.id as int].wf());
                        assert(tl[ub.id as int].predicted());
                    }
                }
                let op = OptionalOperation { weight, duration: d, required_ships, usable_planets: usable, target };
                return Some(op);
            }
        }
        d = d + 1;
    }
    None
}

/// Planet `s` is the last of the agent's planets with the most ships now.
pub open spec fn strongest_own(tl: Seq<PlanetStates>, s: int) -> bool {
    &&& 0 <= s < tl.len()
    &&& tl[s].holding().0 == ME
    &&& forall|q: int| 0 <= q < tl.len() && (#[trigger] tl[q]).holding().0 == ME ==> tl[q].holding().1 <= tl[s].holding().1
    &&& forall|q: int| s < q < tl.len() && (#[trigger] tl[q]).holding().0 == ME ==> tl[q].holding().1 < tl[s].holding().1
}

/// Planet `t` is the first of the other planets with the fewest ships now.
pub open spec fn weakest_other(tl: Seq<PlanetStates>, t: int) -> bool {
    &&& 0 <= t < tl.len()
    &&& tl[t].holding().0 != ME
    &&& forall|q: int| 0 <= q < tl.len() && (#[trigger] tl[q]).holding().0 != ME ==> tl[t].holding().1 <= tl[q].holding().1
    &&& forall|q: int| 0 <= q < t && (#[trigger] tl[q]).holding().0 != ME ==> tl[t].holding().1 < tl[q].holding().1
}

/// The one-shot greedy strategy: send all but one ship of the agent's
/// strongest planet to the weakest planet it does not hold. Gives `None`,
/// queuing nothing, when the agent holds no planet or holds them all.
pub fn simple_turn(state: &mut State) -> (r: Option<()>)
    requires
        old(state).wf(),
    ensures
        final(state).wf(),
        final(state).timelines() == old(state).timelines(),
        final(state).window() == old(state).window(),
        final(state).watermark() == old(state).watermark(),
        r is Some <==> (exists|s: int| 0 <= s < old(state).timelines().len() && #[trigger] old(state).timelines()[s].holding().0 == ME)
            && (exists|t: int| 0 <= t < old(state).timelines().len() && #[trigger] old(state).timelines()[t].holding().0 != ME),
        r is None ==> final(state).moves() == old(state).moves(),
        r is Some ==> exists|s: int, t: int|
            #![trigger strongest_own(old(state).timelines(), s), weakest_other(old(state).timelines(), t)]
            {
                &&& strongest_own(old(state).timelines(), s)
                &&& weakest_other(old(state).timelines(), t)
                &&& final(state).moves() == old(state).moves().push(
                    SolutionPart {
                        source: s as usize,
                        target: t as usize,
                        ships: (old(state).timelines()[s].holding().1 - 1) as i64,
                    },
                )
            },
{
    let ghost tl = state.timelines();
    let n = state.planets.len();
    let mut source: Option<usize> = None;
    let mut target: Option<usize> = None;
    let mut i: usize = 0;
    while i < n
        invariant
            state.wf(),
            tl == state.timelines(),
            n == tl.len(),
            i <= n,
            source is None <==> forall|q: int| 0 <= q < i ==> (#[trigger] tl[q]).holding().0 != ME,
            source matches Some(s) ==> s < i && strongest_own(tl.subrange(0, i as int), s as int),
            target is None <==> forall|q: int| 0 <= q < i ==> (#[trigger] tl[q]).holding().0 == ME,
            target matches Some(t) ==> t < i && weakest_other(tl.subrange(0, i as int), t as int),
        decreases n - i,
    {
        let here = state.planets[i].planet();
        let ghost sub = tl.subrange(0, i + 1);
        assert(sub[i as int] == tl[i as int]);
        assert forall|q: int| 0 <= q < i implies #[trigger] sub[q] == tl.subrange(0, i as int)[q] by {}
        if here.owner == ME {
            let better = match source {
                None => true,
                Some(s) => here.ships >= state.planets[s].planet().ships,
            };
            if better {
                source = Some(i);
            }
        } else {
            let better = match target {
                None => true,
                Some(t) => here.ships < state.planets[t].planet().ships,
            };
            if better {
                target = Some(i);
            }
        }
        i = i + 1;
    }
    assert(tl.subrange(0, n as int) =~= tl);
    match (source, target) {
        (Some(s), Some(t)) => {
            assert(state.planets@[s as int].wf());
            let ships = state.planets[s].planet().ships;
            state.add_turn(s, t, ships - 1);
            Some(())
        },
        _ => None,
    }
}

/// What a turn update works on: each planet's arrival schedule, each
/// planet's holding, and the expedition watermark.
pub type Ledger = (Seq<Seq<Seq<int>>>, Seq<(Owner, int)>, int);

/// The ledger after one reported expedition, or why it is refused: a stale
/// one changes nothing; a new one adds its ships to its destination's slot,
/// takes them from its origin and moves the watermark up by one.
pub open spec fn accept_expedition(m: Ledger, n: nat, window: nat, e: Expedition) -> Result<Ledger, TurnError> {
    if e.id < m.2 {
        Ok(m)
    } else if e.destination >= n || e.origin >= n {
        Err(TurnError::UnknownPlanet)
    } else if e.remaining >= window {
        Err(TurnError::BeyondHorizon)
    } else if e.owner > n {
        Err(TurnError::UnknownOwner)
    } else {
        let s = m.0[e.destination as int];
        let cell = s[e.remaining as int][e.owner as int];
        let left = m.1[e.origin as int].1 - e.ships;
        if m.2 == u64::MAX || e.ships < 0 || cell + e.ships > MAX_FLEET || left < -MAX_SHIPS {
            Err(TurnError::ShipsOutOfRange)
        } else {
            Ok((
                m.0.update(
                    e.destination as int,
                    s.update(e.remaining as int, s[e.remaining as int].update(e.owner as int, cell + e.ships)),
                ),
                m.1.update(e.origin as int, (m.1[e.origin as int].0, left)),
                m.2 + 1,
            ))
        }
    }
}

/// The first `k` expeditions admitted in order; on the first refusal the
/// ledger stays as it was before that expedition, with the reason.
pub open spec fn replay(m: Ledger, n: nat, window: nat, es: Seq<Expedition>, k: nat) -> (Ledger, Option<TurnError>)
    decreases k,
{
    if k == 0 {
        (m, None)
    } else {
        let prev = replay(m, n, window, es, (k - 1) as nat);
        if prev.1 is Some {
            prev
        } else {
            match accept_expedition(prev.0, n, window, es[k - 1]) {
                Ok(m2) => (m2, None),
                Err(x) => (prev.0, Some(x)),
            }
        }
    }
}

proof fn lemma_replay_stops(m: Ledger, n: nat, window: nat, es: Seq<Expedition>, k: nat, j: nat)
    requires
        k <= j,
        replay(m, n, window, es, k).1 is Some,
    ensures
        replay(m, n, window, es, j) == replay(m, n, window, es, k),
    decreases j,
{
    if j > k {
        lemma_replay_stops(m, n, window, es, k, (j - 1) as nat);
    }
}

/// A schedule one turn later: the slot that arrived is gone and an empty
/// slot of `owners` buckets joins at the far end.
pub open spec fn aged(s: Seq<Seq<int>>, owners: nat) -> Seq<Seq<int>> {
    if s.len() == 0 {
        s
    } else {
        s.skip(1).push(Seq::new(owners, |o: int| 0int))
    }
}

/// The holding one turn later, as predicted from the schedule.
pub open spec fn advanced(h: (Owner, int), s: Seq<Seq<int>>) -> (Owner, int) {
    if s.len() == 0 {
        produce(h)
    } else {
        combat(produce(h), s[0])
    }
}

/// Every holding leaves room for one more turn of production and arrivals.
pub open spec fn can_age(m: Ledger) -> bool {
    forall|p: int| 0 <= p < m.1.len() ==> #[trigger] m.1[p].1 <= MAX_SHIPS - MAX_FLEET - 1
}

/// Every confirmed ship count lies within `-MAX_SHIPS..=MAX_SHIPS`.
pub open spec fn confirmed_in_range(confirmed: Seq<Planet>) -> bool {
    forall|q: int| 0 <= q < confirmed.len() ==> -MAX_SHIPS <= #[trigger] confirmed[q].ships <= MAX_SHIPS
}

/// Every confirmed ship count lies within `-MAX_SHIPS..=MAX_SHIPS`.
pub fn ships_in_range(confirmed: &Vec<Planet>) -> (r: bool)
    ensures
        r == confirmed_in_range(confirmed@),
{
    let mut i: usize = 0;
    while i < confirmed.len()
        invariant
            i <= confirmed@.len(),
            forall|q: int| 0 <= q < i ==> -MAX_SHIPS <= #[trigger] confirmed@[q].ships <= MAX_SHIPS,
        decreases confirmed@.len() - i,
    {
        if confirmed[i].ships < -MAX_SHIPS || confirmed[i].ships > MAX_SHIPS {
            return false;
        }
        i = i + 1;
    }
    true
}

/// The planet name of each index, and the index of each name.
pub struct PlanetMap {
    names: Vec<String>,
}

impl PlanetMap {
    pub closed spec fn names(&self) -> Seq<Seq<char>> {
        self.names@.map_values(|n: String| n@)
    }

    /// The map of the given names, index `i` for `names[i]`; `None` when a
    /// name occurs twice.
    pub fn new(names: Vec<String>) -> (r: Option<Self>)
        ensures
            r matches Some(m) ==> m.names() == names@.map_values(|n: String| n@),
            r is Some <==> forall|i: int, j: int|
                0 <= i < j < names@.len() ==> #[trigger] names@[i]@ != #[trigger] names@[j]@,
    {
        let mut i: usize = 0;
        while i < names.len()
            invariant
                i <= names@.len(),
                forall|a: int, b: int| 0 <= a < b < names@.len() && a < i ==> #[trigger] names@[a]@ != #[trigger] names@[b]@,
            decreases names@.len() - i,
        {
            let mut j: usize = i + 1;
            while j < names.len()
                invariant
                    i < names@.len(),
                    i + 1 <= j <= names@.len(),
                    forall|a: int, b: int| 0 <= a < b < names@.len() && a < i ==> #[trigger] names@[a]@ != #[trigger] names@[b]@,
                    forall|b: int| i < b < j ==> names@[i as int]@ != #[trigger] names@[b]@,
                decreases names@.len() - j,
            {
                if names[i] == names[j] {
                    return None;
                }
                j = j + 1;
            }
            i = i + 1;
        }
        let m = PlanetMap { names };
        assert(m.names() =~= m.names@.map_values(|n: String| n@));
        Some(m)
    }

    /// Number of planets.
    pub fn len(&self) -> (r: usize)
        ensures
            r == self.names().len(),
    {
        self.names.len()
    }

    /// The name of planet `i`.
    pub fn name(&self, i: usize) -> (r: &String)
        requires
            i < self.names().len(),
        ensures
            r@ == self.names()[i as int],
    {
        &self.names[i]
    }

    /// The index of the planet called `name`, if there is one.
    pub fn index(&self, name: &String) -> (r: Option<usize>)
        ensures
            r matches Some(i) ==> i < self.names().len() && self.names()[i as int] == name@,
            r is None ==> forall|i: int| 0 <= i < self.names().len() ==> #[trigger] self.names()[i] != name@,
    {
        let mut i: usize = 0;
        while i < self.names.len()
            invariant
                i <= self.names@.len(),
                forall|j: int| 0 <= j < i ==> #[trigger] self.names()[j] != name@,
            decreases self.names@.len() - i,
        {
            if self.names[i] == *name {
                return Some(i);
            }
            i = i + 1;
        }
        None
    }
}

/// The world model: one timeline per planet (indexed by planet id), the
/// expedition watermark and the moves queued for this turn.
pub struct State {
    planets: Vec<PlanetStates>,
    horizon: usize,
    handled_exps: u64,
    turns: Vec<SolutionPart>,
    turn: usize,
    mismatches: Vec<bool>,
}

impl State {
    pub closed spec fn timelines(&self) -> Seq<PlanetStates> {
        self.planets@
    }

    pub closed spec fn window(&self) -> nat {
        self.horizon as nat
    }

    pub closed spec fn watermark(&self) -> u64 {
        self.handled_exps
    }

    pub closed spec fn moves(&self) -> Seq<SolutionPart> {
        self.turns@
    }

    /// Number of turn updates taken (saturating).
    pub closed spec fn turn_count(&self) -> usize {
        self.turn
    }

    /// Per planet, whether the last turn's confirmed state differed from the
    /// predicted one.
    pub closed spec fn mismatched(&self) -> Seq<bool> {
        self.mismatches@
    }

    /// The schedules, holdings and watermark.
    pub open spec fn ledger(&self) -> Ledger {
        (
            self.timelines().map_values(|t: PlanetStates| t.schedule()),
            self.timelines().map_values(|t: PlanetStates| t.holding()),
            self.watermark() as int,
        )
    }

    pub closed spec fn wf(&self) -> bool {
        &&& self.horizon <= MAX_HORIZON
        &&& self.planets@.len() < usize::MAX
        &&& forall|p: int|
            0 <= p < self.planets@.len() ==> {
                &&& (#[trigger] self.planets@[p]).wf()
                &&& self.planets@[p].ident() == p
                &&& self.planets@[p].owner_count() == self.planets@.len() + 1
                &&& self.planets@[p].horizon() == self.horizon
            }
    }

    /// Every timeline is materialised.
    pub open spec fn settled(&self) -> bool {
        forall|p: int| 0 <= p < self.timelines().len() ==> (#[trigger] self.timelines()[p]).predicted()
    }

    /// The world at game start: planet `i` of `planets` gets id `i`, every
    /// planet counts as a possible owner, and nothing is in flight.
    pub fn new(planets: Vec<Planet>, horizon: usize) -> (r: Self)
        requires
            planets@.len() < usize::MAX - 1,
            horizon <= MAX_HORIZON,
            forall|i: int| 0 <= i < planets@.len() ==> -MAX_SHIPS <= #[trigger] planets@[i].ships <= MAX_SHIPS,
        ensures
            r.wf(),
            r.settled(),
            r.timelines().len() == planets@.len(),
            r.window() == horizon,
            r.watermark() == 0,
            r.moves().len() == 0,
            r.turn_count() == 0,
            forall|i: int|
                0 <= i < planets@.len() ==> {
                    &&& (#[trigger] r.timelines()[i]).holding() == (planets@[i].owner, planets@[i].ships as int)
                    &&& r.timelines()[i].ident() == i
                    &&& r.timelines()[i].horizon() == horizon
                    &&& r.timelines()[i].owner_count() == planets@.len() + 1
                    &&& r.timelines()[i].schedule() == empty_schedule(horizon as nat, (planets@.len() + 1) as nat)
                },
    {
        let n = planets.len();
        let mut states: Vec<PlanetStates> = Vec::new();
        let mut i: usize = 0;
        while i < n
            invariant
                n == planets@.len(),
                n < usize::MAX - 1,
                horizon <= MAX_HORIZON,
                forall|i: int| 0 <= i < planets@.len() ==> -MAX_SHIPS <= #[trigger] planets@[i].ships <= MAX_SHIPS,
                i <= n,
                states@.len() == i,
                forall|p: int|
                    0 <= p < i ==> {
                        &&& (#[trigger] states@[p]).wf()
                        &&& states@[p].predicted()
                        &&& states@[p].ident() == p
                        &&& states@[p].owner_count() == n + 1
                        &&& states@[p].horizon() == horizon
                        &&& states@[p].holding() == (planets@[p].owner, planets@[p].ships as int)
                        &&& states@[p].schedule() == empty_schedule(horizon as nat, (n + 1) as nat)
                    },
            decreases n - i,
        {
            let p = planets[i];
            let planet = Planet { id: i, ships: p.ships, owner: p.owner };
            states.push(PlanetStates::new(planet, n, horizon));
            i = i + 1;
        }
        Self { planets: states, horizon, handled_exps: 0, turns: Vec::new(), turn: 0, mismatches: Vec::new() }
    }

    pub fn planets(&self) -> (r: &[PlanetStates])
        ensures
            r@ == self.timelines(),
    {
        self.planets.as_slice()
    }

    pub fn horizon(&self) -> (r: usize)
        ensures
            r == self.window(),
    {
        self.horizon
    }

    /// Queues a move of `ships` ships from `source` to `target`.
    pub fn add_turn(&mut self, source: usize, target: usize, ships: i64)
        ensures
            final(self).moves() == old(self).moves().push(SolutionPart { source, target, ships }),
            final(self).timelines() == old(self).timelines(),
            final(self).window() == old(self).window(),
            final(self).watermark() == old(self).watermark(),
            old(self).wf() ==> final(self).wf(),
    {
        self.turns.push(SolutionPart { source, target, ships });
    }

    /// Hands out the moves queued this turn and empties the queue.
    pub fn flush(&mut self) -> (r: Vec<SolutionPart>)
        ensures
            r@ == old(self).moves(),
            final(self).moves().len() == 0,
            final(self).timelines() == old(self).timelines(),
            final(self).window() == old(self).window(),
            final(self).watermark() == old(self).watermark(),
            old(self).wf() ==> final(self).wf(),
    {
        let mut out: Vec<SolutionPart> = Vec::new();
        std::mem::swap(&mut out, &mut self.turns);
        out
    }

    /// Applies one reported expedition: one with an id below the watermark
    /// was handled before and is skipped (`Ok(false)`); otherwise it is
    /// scheduled at its destination, its ships leave its origin and the
    /// watermark moves up (`Ok(true)`). A refused expedition changes nothing.
    pub fn incoming(&mut self, e: &Expedition) -> (r: Result<bool, TurnError>)
        requires
            old(self).wf(),
        ensures
            final(self).wf(),
            final(self).window() == old(self).window(),
            final(self).moves() == old(self).moves(),
            final(self).timelines().len() == old(self).timelines().len(),
            final(self).turn_count() == old(self).turn_count(),
            final(self).mismatched() == old(self).mismatched(),
            e.id < old(self).watermark() ==> final(self).timelines() == old(self).timelines(),
            match accept_expedition(old(self).ledger(), old(self).timelines().len(), old(self).window(), *e) {
                Ok(m) => final(self).ledger() == m && r == Ok::<bool, TurnError>(e.id >= old(self).watermark()),
                Err(x) => r == Err::<bool, TurnError>(x) && final(self).timelines() == old(self).timelines()
                    && final(self).watermark() == old(self).watermark(),
            },
    {
        if e.id < self.handled_exps {
            return Ok(false);
        }
        let n = self.planets.len();
        if e.destination >= n || e.origin >= n {
            return Err(TurnError::UnknownPlanet);
        }
        if e.remaining >= self.horizon {
            return Err(TurnError::BeyondHorizon);
        }
        if e.owner > n {
            return Err(TurnError::UnknownOwner);
        }
        if self.handled_exps == u64::MAX {
            return Err(TurnError::ShipsOutOfRange);
        }
        proof {
            assert(self.planets@[e.destination as int].wf());
            assert(self.planets@[e.origin as int].wf());
        }
        let cell = self.planets[e.destination].arrival(e.remaining, e.owner);
        if e.ships < 0 || e.ships > MAX_FLEET - cell {
            return Err(TurnError::ShipsOutOfRange);
        }
        let origin_ships = self.planets[e.origin].planet().ships;
        if origin_ships - e.ships < -MAX_SHIPS {
            return Err(TurnError::ShipsOutOfRange);
        }
        let ghost tl = self.planets@;
        let mut dst = self.take(e.destination);
        dst.incoming_exp(e);
        self.put(e.destination, dst);
        let mut org = self.take(e.origin);
        proof {
            assert(org.wf());
        }
        org.dispatch(e.ships);
        self.put(e.origin, org);
        self.handled_exps = self.handled_exps + 1;
        proof {
            assert forall|p: int| 0 <= p < self.planets@.len() implies {
                &&& (#[trigger] self.planets@[p]).wf()
                &&& self.planets@[p].ident() == p
                &&& self.planets@[p].owner_count() == self.planets@.len() + 1
                &&& self.planets@[p].horizon() == self.horizon
            } by {
                assert(tl[p].wf());
            }
            let m = old(self).ledger();
            let d = e.destination as int;
            let o = e.origin as int;
            assert(m.0[d] == tl[d].schedule());
            assert(m.1[o] == tl[o].holding());
            let m2 = accept_expedition(m, tl.len(), self.horizon as nat, *e)->Ok_0;
            assert(self.ledger().0 =~= m2.0) by {
                assert forall|q: int| 0 <= q < tl.len() implies #[trigger] self.ledger().0[q] == m2.0[q] by {
                    assert(m.0[q] == tl[q].schedule());
                }
            }
            assert(self.ledger().1 =~= m2.1) by {
                assert forall|q: int| 0 <= q < tl.len() implies #[trigger] self.ledger().1[q] == m2.1[q] by {
                    assert(m.1[q] == tl[q].holding());
                }
            }
        }
        Ok(true)
    }

    /// Applies a turn update: the new expeditions in order, then one turn of
    /// aging for every planet, whose confirmed state then replaces the
    /// predicted one (recording whether they differed) before its future is
    /// materialised again. Succeeds exactly when the confirmed list covers
    /// every planet with ship counts in range, every expedition is accepted in
    /// turn, and every planet has room for one more turn. A refused confirmed
    /// list changes nothing; a refused expedition leaves the earlier ones
    /// applied; a planet without room leaves all expeditions applied and no
    /// planet aged.
    pub fn turn(&mut self, expeditions: &Vec<Expedition>, confirmed: &Vec<Planet>) -> (r: Result<(), TurnError>)
        requires
            old(self).wf(),
        ensures
            final(self).wf(),
            final(self).window() == old(self).window(),
            final(self).moves() == old(self).moves(),
            final(self).timelines().len() == old(self).timelines().len(),
            ({
                let n = old(self).timelines().len();
                let rp = replay(old(self).ledger(), n, old(self).window(), expeditions@, expeditions@.len());
                &&& confirmed@.len() != n ==> r == Err::<(), TurnError>(TurnError::MissingPlanet)
                    && final(self).ledger() == old(self).ledger()
                &&& confirmed@.len() == n && !confirmed_in_range(confirmed@) ==> r == Err::<(), TurnError>(
                    TurnError::ShipsOutOfRange,
                ) && final(self).ledger() == old(self).ledger()
                &&& confirmed@.len() == n && confirmed_in_range(confirmed@) ==> {
                    &&& final(self).turn_count() == if old(self).turn_count() < usize::MAX {
                        (old(self).turn_count() + 1) as usize
                    } else {
                        old(self).turn_count()
                    }
                    &&& rp.1 matches Some(x) ==> r == Err::<(), TurnError>(x) && final(self).ledger() == rp.0
                    &&& rp.1 is None && !can_age(rp.0) ==> r == Err::<(), TurnError>(TurnError::ShipsOutOfRange)
                        && final(self).ledger() == rp.0
                    &&& rp.1 is None && can_age(rp.0) ==> {
                        &&& r is Ok
                        &&& final(self).settled()
                        &&& final(self).watermark() == rp.0.2
                        &&& final(self).mismatched().len() == n
                        &&& forall|p: int|
                            0 <= p < n ==> {
                                &&& (#[trigger] final(self).timelines()[p]).schedule() == aged(rp.0.0[p], (n + 1) as nat)
                                &&& final(self).timelines()[p].holding() == (confirmed@[p].owner, confirmed@[p].ships as int)
                                &&& final(self).mismatched()[p] == (advanced(rp.0.1[p], rp.0.0[p]) != (
                                    confirmed@[p].owner,
                                    confirmed@[p].ships as int,
                                ))
                            }
                    }
                }
            }),
    {
        let n = self.planets.len();
        if confirmed.len() != n {
            return Err(TurnError::MissingPlanet);
        }
        if !ships_in_range(confirmed) {
            return Err(TurnError::ShipsOutOfRange);
        }
        if self.turn < usize::MAX {
            self.turn = self.turn + 1;
        }
        let ghost m0 = old(self).ledger();
        let ghost w = self.horizon as nat;
        let mut k: usize = 0;
        while k < expeditions.len()
            invariant
                self.wf(),
                self.planets@.len() == n,
                n == old(self).planets@.len(),
                n == confirmed@.len(),
                self.horizon == old(self).horizon,
                w == old(self).window(),
                m0 == old(self).ledger(),
                self.moves() == old(self).moves(),
                self.turn == (if old(self).turn < usize::MAX { (old(self).turn + 1) as usize } else { old(self).turn }),
                k <= expeditions@.len(),
                confirmed_in_range(confirmed@),
                replay(m0, n as nat, w, expeditions@, k as nat).1 is None,
                self.ledger() == replay(m0, n as nat, w, expeditions@, k as nat).0,
            decreases expeditions@.len() - k,
        {
            let res = self.incoming(&expeditions[k]);
            match res {
                Err(err) => {
                    proof {
                        let prev = replay(m0, n as nat, w, expeditions@, k as nat);
                        assert(expeditions@[k as int] == expeditions[k as int]);
                        assert(replay(m0, n as nat, w, expeditions@, (k + 1) as nat) == (prev.0, Some(err)));
                        lemma_replay_stops(m0, n as nat, w, expeditions@, (k + 1) as nat, expeditions@.len());
                    }
                    return Err(err);
                },
                Ok(_) => {},
            }
            k = k + 1;
        }
        let ghost mid = self.planets@;
        let ghost rp = replay(m0, n as nat, w, expeditions@, expeditions@.len());
        if !self.has_room() {
            return Err(TurnError::ShipsOutOfRange);
        }
        let mut mismatches: Vec<bool> = Vec::new();
        let mut p: usize = 0;
        while p < n
            invariant
                self.wf(),
                self.planets@.len() == n,
                n == confirmed@.len(),
                n == old(self).planets@.len(),
                self.horizon == old(self).horizon,
                self.watermark() == rp.0.2,
                self.moves() == old(self).moves(),
                self.turn == (if old(self).turn < usize::MAX { (old(self).turn + 1) as usize } else { old(self).turn }),
                p <= n,
                mismatches@.len() == p,
                mid.len() == n,
                rp.0.0 == mid.map_values(|t: PlanetStates| t.schedule()),
                rp.0.1 == mid.map_values(|t: PlanetStates| t.holding()),
                can_age(rp.0),
                confirmed_in_range(confirmed@),
                forall|j: int| p <= j < n ==> #[trigger] self.planets@[j] == mid[j],
                forall|j: int|
                    0 <= j < p ==> {
                        &&& (#[trigger] self.planets@[j]).predicted()
                        &&& self.planets@[j].schedule() == aged(rp.0.0[j], (n + 1) as nat)
                        &&& self.planets@[j].holding() == (confirmed@[j].owner, confirmed@[j].ships as int)
                        &&& mismatches@[j] == (advanced(rp.0.1[j], rp.0.0[j]) != (confirmed@[j].owner, confirmed@[j].ships as int))
                    },
            decreases n - p,
        {
            let ghost before = self.planets@;
            assert(self.planets@[p as int].wf());
            assert(rp.0.1[p as int] == mid[p as int].holding());
            assert(rp.0.0[p as int] == mid[p as int].schedule());
            let mut t = self.take(p);
            t.turn();
            let differs = t.reconcile(confirmed[p]);
            let ghost old_mismatches = mismatches@;
            t.refresh();
            self.put(p, t);
            mismatches.push(differs);
            proof {
                assert forall|j: int| 0 <= j < p implies #[trigger] self.planets@[j] == before[j] && mismatches@[j]
                    == old_mismatches[j] by {}
                assert forall|j: int| p < j < n implies #[trigger] self.planets@[j] == before[j] by {}
                let h = rp.0.1[p as int];
                let sc = rp.0.0[p as int];
                assert(self.planets@[p as int].schedule() == aged(sc, (n + 1) as nat));
                assert(self.planets@[p as int].holding() == (confirmed@[p as int].owner, confirmed@[p as int].ships as int));
                assert(mismatches@[p as int] == (advanced(h, sc) != (confirmed@[p as int].owner, confirmed@[p as int].ships as int)));
                assert(self.planets@[p as int].predicted());
                assert forall|j: int| 0 <= j < p + 1 implies {
                    &&& (#[trigger] self.planets@[j]).predicted()
                    &&& self.planets@[j].schedule() == aged(rp.0.0[j], (n + 1) as nat)
                    &&& self.planets@[j].holding() == (confirmed@[j].owner, confirmed@[j].ships as int)
                    &&& mismatches@[j] == (advanced(rp.0.1[j], rp.0.0[j]) != (confirmed@[j].owner, confirmed@[j].ships as int))
                } by {
                    if j < p {
                        assert(self.planets@[j] == before[j]);
                    }
                }
                assert forall|j: int| 0 <= j < n implies {
                    &&& (#[trigger] self.planets@[j]).wf()
                    &&& self.planets@[j].ident() == j
                    &&& self.planets@[j].owner_count() == self.planets@.len() + 1
                    &&& self.planets@[j].horizon() == self.horizon
                } by {
                    assert(before[j].wf());
                }
            }
            p = p + 1;
        }
        self.mismatches = mismatches;
        Ok(())
    }

    /// Whether every planet has room for one more turn.
    fn has_room(&self) -> (r: bool)
        requires
            self.wf(),
        ensures
            r == can_age(self.ledger()),
    {
        let n = self.planets.len();
        let mut q: usize = 0;
        while q < n
            invariant
                self.wf(),
                n == self.planets@.len(),
                q <= n,
                forall|j: int| 0 <= j < q ==> #[trigger] self.ledger().1[j].1 <= MAX_SHIPS - MAX_FLEET - 1,
            decreases n - q,
        {
            assert(self.planets@[q as int].wf());
            assert(self.ledger().1[q as int] == self.planets@[q as int].holding());
            if self.planets[q].planet().ships > MAX_SHIPS - MAX_FLEET - 1 {
                assert(self.ledger().1[q as int].1 > MAX_SHIPS - MAX_FLEET - 1);
                assert(!can_age(self.ledger()));
                return false;
            }
            q = q + 1;
        }
        true
    }

    /// Per planet, whether the last turn's confirmed state differed from the
    /// predicted one.
    pub fn mismatches(&self) -> (r: &[bool])
        ensures
            r@ == self.mismatched(),
    {
        self.mismatches.as_slice()
    }

    /// The timelines are all materialised within the bounds the flow
    /// network works with.
    pub proof fn lemma_timelines_ok(&self)
        requires
            self.wf(),
            self.settled(),
        ensures
            timelines_ok(self.timelines()),
    {
        assert forall|p: int| 0 <= p < self.timelines().len() implies #[trigger] self.timelines()[p].predicted() && (forall|i: int| 0 <= i < self.timelines()[p].future_seq().len() ==>
            -0x1000_0000_0000_0000 <= #[trigger] self.timelines()[p].future_seq()[i].ships <= 0x1000_0000_0000_0000) by {
            assert(self.planets@[p].wf());
            self.planets@[p].lemma_future_bounded();
        }
    }

    /// Moves timeline `p` out, leaving a placeholder until `put` returns it.
    fn take(&mut self, p: usize) -> (r: PlanetStates)
        requires
            p < old(self).planets@.len(),
        ensures
            r == old(self).planets@[p as int],
            final(self).planets@.len() == old(self).planets@.len(),
            forall|q: int| 0 <= q < old(self).planets@.len() && q != p ==> #[trigger] final(self).planets@[q] == old(self).planets@[q],
            final(self).horizon == old(self).horizon,
            final(self).handled_exps == old(self).handled_exps,
            final(self).turns == old(self).turns,
            final(self).turn == old(self).turn,
            final(self).mismatches == old(self).mismatches,
    {
        let mut out = PlanetStates::new(Planet { id: p, ships: 0, owner: 0 }, 0, 0);
        std::mem::swap(&mut out, &mut self.planets[p]);
        out
    }

    fn put(&mut self, p: usize, t: PlanetStates)
        requires
            p < old(self).planets@.len(),
        ensures
            final(self).planets@ == old(self).planets@.update(p as int, t),
            final(self).horizon == old(self).horizon,
            final(self).handled_exps == old(self).handled_exps,
            final(self).turns == old(self).turns,
            final(self).turn == old(self).turn,
            final(self).mismatches == old(self).mismatches,
    {
        self.planets.set(p, t);
    }
}

} // verus!
