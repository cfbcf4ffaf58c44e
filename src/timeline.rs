use vstd::prelude::*;

use crate::planet::{Expedition, Owner, Planet, MAX_FLEET, MAX_HORIZON, MAX_SHIPS, NEUTRAL};

verus! {

/// Ships that one owner has arriving in one slot of the ring.
#[derive(Clone, Copy, Debug)]
pub struct ExpEvent {
    pub ships: i64,
}

impl ExpEvent {
    pub fn reset(&mut self)
        ensures
            final(self).ships == 0,
    {
        self.ships = 0;
    }
}

/// Who holds a planet, and with how many ships.
#[derive(Clone, Copy, Debug, PartialEq, Eq, Structural)]
pub struct PlanetState {
    pub owner: Owner,
    pub ships: i64,
}

/// A holding as a mathematical pair: owner and ship count.
pub open spec fn holding_of(s: PlanetState) -> (Owner, int) {
    (s.owner, s.ships as int)
}

/// One turn of production: a held planet gains one ship, a neutral one nothing.
pub open spec fn produce(h: (Owner, int)) -> (Owner, int) {
    if h.0 == NEUTRAL {
        h
    } else {
        (h.0, h.1 + 1)
    }
}

/// Strength of contender `i`: the holder's garrison joins its own arrivals.
pub open spec fn strength(h: (Owner, int), arrivals: Seq<int>, i: int) -> int {
    if i == h.0 {
        h.1 + arrivals[i]
    } else {
        arrivals[i]
    }
}

/// The strongest and the second strongest contender among the first `n`
/// owners, as (owner, strength); a contender only counts with a strength above
/// zero, and on equal strength the earlier owner stays ahead.
pub open spec fn top_two(h: (Owner, int), arrivals: Seq<int>, n: nat) -> (
    (Owner, int),
    (Owner, int),
)
    decreases n,
{
    if n == 0 {
        ((NEUTRAL, 0), (NEUTRAL, 0))
    } else {
        let prev = top_two(h, arrivals, (n - 1) as nat);
        let c = strength(h, arrivals, n - 1);
        if c > prev.0.1 {
            (((n - 1) as Owner, c), prev.0)
        } else if c > prev.1.1 {
            (prev.0, ((n - 1) as Owner, c))
        } else {
            prev
        }
    }
}

/// Outcome of a battle: the strongest contender keeps the difference to the
/// second; equal strengths leave the planet neutral and empty.
pub open spec fn combat(h: (Owner, int), arrivals: Seq<int>) -> (Owner, int) {
    let t = top_two(h, arrivals, arrivals.len());
    if t.0.1 == t.1.1 {
        (NEUTRAL, 0)
    } else {
        (t.0.0, t.0.1 - t.1.1)
    }
}

/// Ship counts of one arrival slot, indexed by owner.
pub open spec fn arrivals(row: Seq<ExpEvent>) -> Seq<int> {
    row.map_values(|e: ExpEvent| e.ships as int)
}

/// The holding `k` turns ahead of `h`, given the arrivals scheduled per slot.
pub open spec fn predict(h: (Owner, int), schedule: Seq<Seq<int>>, k: nat) -> (Owner, int)
    decreases k,
{
    if k == 0 {
        h
    } else {
        combat(produce(predict(h, schedule, (k - 1) as nat)), schedule[k - 1])
    }
}

/// Every arrival count lies in `0..=MAX_FLEET`.
pub open spec fn fleets_bounded(a: Seq<int>) -> bool {
    forall|i: int| 0 <= i < a.len() ==> 0 <= #[trigger] a[i] <= MAX_FLEET
}

/// Every slot of a schedule has `owners` counts, each in `0..=MAX_FLEET`.
pub open spec fn schedule_bounded(s: Seq<Seq<int>>, owners: nat) -> bool {
    forall|r: int|
        0 <= r < s.len() ==> (#[trigger] s[r]).len() == owners && fleets_bounded(s[r])
}

/// Largest ship count that a prediction can reach `k` turns ahead.
pub open spec fn ship_ceiling(k: nat) -> int {
    MAX_SHIPS + k * (MAX_FLEET + 1)
}

proof fn lemma_top_two_bounds(h: (Owner, int), a: Seq<int>, n: nat)
    requires
        n <= a.len(),
        fleets_bounded(a),
    ensures
        0 <= top_two(h, a, n).1.1 <= top_two(h, a, n).0.1,
        top_two(h, a, n).0.1 <= if h.1 > 0 { h.1 } else { 0 } + MAX_FLEET,
    decreases n,
{
    if n > 0 {
        lemma_top_two_bounds(h, a, (n - 1) as nat);
        assert(0 <= a[n - 1] <= MAX_FLEET);
    }
}

/// A battle leaves a non-negative garrison no larger than the strongest side.
pub proof fn lemma_combat_bounds(h: (Owner, int), a: Seq<int>)
    requires
        fleets_bounded(a),
    ensures
        0 <= combat(h, a).1 <= if h.1 > 0 { h.1 } else { 0 } + MAX_FLEET,
{
    lemma_top_two_bounds(h, a, a.len());
}

proof fn lemma_predict_bounds(h: (Owner, int), s: Seq<Seq<int>>, owners: nat, k: nat)
    requires
        -MAX_SHIPS <= h.1 <= MAX_SHIPS,
        schedule_bounded(s, owners),
        k <= s.len(),
    ensures
        -MAX_SHIPS <= predict(h, s, k).1 <= ship_ceiling(k),
    decreases k,
{
    if k > 0 {
        lemma_predict_bounds(h, s, owners, (k - 1) as nat);
        let p = produce(predict(h, s, (k - 1) as nat));
        lemma_combat_bounds(p, s[k - 1]);
        let km1 = (k - 1) as int;
        assert(k * (MAX_FLEET + 1) == km1 * (MAX_FLEET + 1) + MAX_FLEET + 1) by (nonlinear_arith)
            requires
                km1 == k - 1,
        ;
    }
}

proof fn lemma_ceiling_fits(k: nat)
    requires
        k <= MAX_HORIZON,
    ensures
        ship_ceiling(k) + MAX_FLEET + 1 <= i64::MAX,
{
    assert(k * (MAX_FLEET + 1) <= MAX_HORIZON * (MAX_FLEET + 1)) by (nonlinear_arith)
        requires
            k <= MAX_HORIZON,
    ;
}

impl PlanetState {
    /// The holding one turn of production later.
    pub fn next(&self) -> (r: Self)
        requires
            self.owner == NEUTRAL || self.ships < i64::MAX,
        ensures
            holding_of(r) == produce(holding_of(*self)),
    {
        if self.owner == NEUTRAL {
            *self
        } else {
            Self { owner: self.owner, ships: self.ships + 1 }
        }
    }
}

/// A slot with `player` owner buckets, all empty.
pub fn new_state(player: usize) -> (r: Vec<ExpEvent>)
    ensures
        r@.len() == player,
        forall|i: int| 0 <= i < player ==> (#[trigger] r@[i]).ships == 0,
{
    let mut events: Vec<ExpEvent> = Vec::with_capacity(player);
    while events.len() < player
        invariant
            events@.len() <= player,
            forall|i: int| 0 <= i < events@.len() ==> (#[trigger] events@[i]).ships == 0,
        decreases player - events@.len(),
    {
        events.push(ExpEvent { ships: 0 });
    }
    events
}

/// Resolves the battle at a planet held as `current` when `exp_events` arrive.
pub fn execute_combat(current: PlanetState, exp_events: &Vec<ExpEvent>) -> (r: PlanetState)
    requires
        current.ships <= i64::MAX - MAX_FLEET,
        fleets_bounded(arrivals(exp_events@)),
    ensures
        holding_of(r) == combat(holding_of(current), arrivals(exp_events@)),
{
    let ghost h = holding_of(current);
    let ghost a = arrivals(exp_events@);
    let mut bigest: (Owner, i64) = (NEUTRAL, 0);
    let mut second: (Owner, i64) = (NEUTRAL, 0);
    let mut i: usize = 0;
    while i < exp_events.len()
        invariant
            i <= exp_events@.len(),
            a == arrivals(exp_events@),
            h == holding_of(current),
            fleets_bounded(a),
            current.ships <= i64::MAX - MAX_FLEET,
            top_two(h, a, i as nat) == ((bigest.0, bigest.1 as int), (second.0, second.1 as int)),
        decreases exp_events@.len() - i,
    {
        proof {
            lemma_top_two_bounds(h, a, i as nat);
            assert(0 <= a[i as int] <= MAX_FLEET);
        }
        let x = exp_events[i].ships;
        let count: i64 = if i == current.owner {
            current.ships + x
        } else {
            x
        };
        if count > bigest.1 {
            second = bigest;
            bigest = (i, count);
        } else if count > second.1 {
            second = (i, count);
        }
        i = i + 1;
    }
    proof {
        lemma_top_two_bounds(h, a, i as nat);
    }
    if bigest.1 == second.1 {
        PlanetState { ships: 0, owner: NEUTRAL }
    } else {
        PlanetState { ships: bigest.1 - second.1, owner: bigest.0 }
    }
}

/// All-empty schedule of `horizon` slots with `owners` buckets each.
pub open spec fn empty_schedule(horizon: nat, owners: nat) -> Seq<Seq<int>> {
    Seq::new(horizon, |r: int| Seq::new(owners, |o: int| 0int))
}

/// The predicted timeline of one planet: a ring of arrival slots indexed by
/// turns until arrival, and the materialised future holdings (index 0 is now).
#[derive(Debug)]
pub struct PlanetStates {
    changed: bool,
    planet: Planet,
    owners: usize,
    states: Vec<Vec<ExpEvent>>,
    future: Vec<Planet>,
}

impl PlanetStates {
    /// The planet's current confirmed holding.
    pub closed spec fn holding(&self) -> (Owner, int) {
        (self.planet.owner, self.planet.ships as int)
    }

    pub closed spec fn ident(&self) -> usize {
        self.planet.id
    }

    /// Number of owner buckets in each slot.
    pub closed spec fn owner_count(&self) -> nat {
        self.owners as nat
    }

    /// Arrivals per slot (turns until arrival) and per owner.
    pub closed spec fn schedule(&self) -> Seq<Seq<int>> {
        self.states@.map_values(|row: Vec<ExpEvent>| arrivals(row@))
    }

    /// Whether the materialised future is stale.
    pub closed spec fn dirty(&self) -> bool {
        self.changed
    }

    /// The materialised future, index 0 being now.
    pub closed spec fn future_seq(&self) -> Seq<Planet> {
        self.future@
    }

    pub open spec fn horizon(&self) -> nat {
        self.schedule().len()
    }

    /// The materialised future holds, at each index `k`, the holding `k`
    /// turns ahead.
    pub open spec fn predicted(&self) -> bool {
        &&& self.future_seq().len() == self.horizon() + 1
        &&& forall|k: int|
            0 <= k <= self.horizon() ==> {
                &&& (#[trigger] self.future_seq()[k]).id == self.ident()
                &&& (self.future_seq()[k].owner, self.future_seq()[k].ships as int) == predict(
                    self.holding(),
                    self.schedule(),
                    k as nat,
                )
            }
    }

    pub closed spec fn wf(&self) -> bool {
        &&& self.states@.len() <= MAX_HORIZON
        &&& self.future@.len() == self.states@.len() + 1
        &&& forall|r: int| 0 <= r < self.states@.len() ==> (#[trigger] self.states@[r])@.len() == self.owners
        &&& schedule_bounded(self.schedule(), self.owners as nat)
        &&& -MAX_SHIPS <= self.planet.ships <= MAX_SHIPS
        &&& !self.changed ==> self.predicted()
    }

    proof fn lemma_wf_facts(&self)
        requires
            self.wf(),
        ensures
            self.horizon() == self.states@.len(),
            self.horizon() <= MAX_HORIZON,
            schedule_bounded(self.schedule(), self.owners as nat),
            forall|r: int| 0 <= r < self.states@.len() ==> #[trigger] arrivals(self.states@[r]@) == self.schedule()[r],
    {
    }

    /// Every materialised ship count stays within `-MAX_SHIPS..=2^60`.
    pub proof fn lemma_future_bounded(&self)
        requires
            self.wf(),
            self.predicted(),
        ensures
            forall|i: int|
                0 <= i < self.future_seq().len() ==> -0x1000_0000_0000_0000 <= #[trigger] self.future_seq()[i].ships
                    <= 0x1000_0000_0000_0000,
    {
        assert forall|i: int| 0 <= i < self.future_seq().len() implies -0x1000_0000_0000_0000
            <= #[trigger] self.future_seq()[i].ships <= 0x1000_0000_0000_0000 by {
            lemma_predict_bounds(self.holding(), self.schedule(), self.owners as nat, i as nat);
            lemma_ceiling_fits(i as nat);
        }
    }

    /// A timeline for `planet` with `players` players besides the neutral one,
    /// and `max_size` slots, with nothing incoming.
    pub fn new(planet: Planet, players: usize, max_size: usize) -> (r: Self)
        requires
            players < usize::MAX,
            max_size <= MAX_HORIZON,
            -MAX_SHIPS <= planet.ships <= MAX_SHIPS,
        ensures
            r.wf(),
            !r.dirty(),
            r.ident() == planet.id,
            r.holding() == (planet.owner, planet.ships as int),
            r.owner_count() == players + 1,
            r.schedule() == empty_schedule(max_size as nat, (players + 1) as nat),
            r.predicted(),
    {
        let owners = players + 1;
        let mut states: Vec<Vec<ExpEvent>> = Vec::with_capacity(max_size);
        let mut future: Vec<Planet> = Vec::with_capacity(max_size + 1);
        future.push(planet);
        while states.len() < max_size
            invariant
                states@.len() <= max_size,
                future@.len() == states@.len() + 1,
                forall|r: int| 0 <= r < states@.len() ==> (#[trigger] states@[r])@.len() == owners,
                forall|r: int, o: int|
                    0 <= r < states@.len() && 0 <= o < owners ==> (#[trigger] states@[r]@[o]).ships == 0,
            decreases max_size - states@.len(),
        {
            states.push(new_state(owners));
            future.push(planet);
        }
        let mut out = Self { changed: true, planet, owners, states, future };
        proof {
            assert(out.schedule() =~~= empty_schedule(max_size as nat, owners as nat));
        }
        out.calculate_states();
        out
    }

    pub fn id(&self) -> (r: usize)
        ensures
            r == self.ident(),
    {
        self.planet.id
    }

    /// The current confirmed planet record.
    pub fn planet(&self) -> (r: Planet)
        ensures
            r.id == self.ident(),
            (r.owner, r.ships as int) == self.holding(),
            self.wf() ==> -MAX_SHIPS <= r.ships <= MAX_SHIPS,
    {
        self.planet
    }

    /// The materialised future, index 0 being now.
    pub fn futures(&self) -> (r: &[Planet])
        ensures
            r@ == self.future_seq(),
    {
        self.future.as_slice()
    }

    /// The predicted planet `index` turns ahead.
    pub fn index(&self, index: usize) -> (r: Planet)
        requires
            self.wf(),
            index <= self.horizon(),
        ensures
            r == self.future_seq()[index as int],
    {
        self.future[index]
    }

    /// Ships that `owner` has arriving `remaining` turns from now.
    pub fn arrival(&self, remaining: usize, owner: usize) -> (r: i64)
        requires
            self.wf(),
            remaining < self.horizon(),
            owner < self.owner_count(),
        ensures
            r == self.schedule()[remaining as int][owner as int],
            0 <= r <= MAX_FLEET,
    {
        proof {
            self.lemma_wf_facts();
            assert(arrivals(self.states@[remaining as int]@) == self.schedule()[remaining as int]);
            assert(fleets_bounded(self.schedule()[remaining as int]));
        }
        self.states[remaining][owner].ships
    }

    /// Number of turns the timeline looks ahead.
    pub fn len(&self) -> (r: usize)
        requires
            self.wf(),
        ensures
            r == self.horizon(),
    {
        self.states.len()
    }

    /// Schedules an expedition that lands on this planet.
    pub fn incoming_exp(&mut self, expedition: &Expedition)
        requires
            old(self).wf(),
            expedition.destination == old(self).ident(),
            expedition.remaining < old(self).horizon(),
            expedition.owner < old(self).owner_count(),
            0 <= expedition.ships,
            old(self).schedule()[expedition.remaining as int][expedition.owner as int]
                + expedition.ships <= MAX_FLEET,
        ensures
            final(self).wf(),
            final(self).dirty(),
            final(self).ident() == old(self).ident(),
            final(self).owner_count() == old(self).owner_count(),
            final(self).holding() == old(self).holding(),
            final(self).future_seq() == old(self).future_seq(),
            final(self).schedule() == old(self).schedule().update(
                expedition.remaining as int,
                old(self).schedule()[expedition.remaining as int].update(
                    expedition.owner as int,
                    old(self).schedule()[expedition.remaining as int][expedition.owner as int]
                        + expedition.ships,
                ),
            ),
    {
        let r = expedition.remaining;
        let o = expedition.owner;
        proof {
            self.lemma_wf_facts();
        }
        let mut row = Vec::new();
        std::mem::swap(&mut row, &mut self.states[r]);
        let ghost old_row = row@;
        assert(arrivals(old_row)[o as int] == old_row[o as int].ships);
        let cell = row[o].ships + expedition.ships;
        row[o] = ExpEvent { ships: cell };
        std::mem::swap(&mut row, &mut self.states[r]);
        self.changed = true;
        proof {
            let s = old(self).schedule();
            assert(arrivals(self.states@[r as int]@) =~= s[r as int].update(o as int, cell as int));
            assert(self.schedule() =~~= s.update(r as int, s[r as int].update(o as int, cell as int)));
        }
    }

    /// Takes `ship_count` ships away from the planet for a departing fleet.
    pub fn dispatch(&mut self, ship_count: i64)
        requires
            old(self).wf(),
            -MAX_SHIPS <= old(self).holding().1 - ship_count <= MAX_SHIPS,
        ensures
            final(self).wf(),
            final(self).dirty(),
            final(self).ident() == old(self).ident(),
            final(self).owner_count() == old(self).owner_count(),
            final(self).schedule() == old(self).schedule(),
            final(self).holding() == (old(self).holding().0, old(self).holding().1 - ship_count),
            final(self).future_seq() == old(self).future_seq(),
    {
        self.planet.ships = self.planet.ships - ship_count;
        self.changed = true;
    }

    /// Overwrites the holding with the authoritative one; tells whether it
    /// differed from what was held.
    pub fn reconcile(&mut self, planet: Planet) -> (mismatch: bool)
        requires
            old(self).wf(),
            -MAX_SHIPS <= planet.ships <= MAX_SHIPS,
        ensures
            final(self).wf(),
            final(self).dirty(),
            final(self).ident() == old(self).ident(),
            final(self).owner_count() == old(self).owner_count(),
            final(self).schedule() == old(self).schedule(),
            final(self).holding() == (planet.owner, planet.ships as int),
            mismatch == (old(self).holding() != (planet.owner, planet.ships as int)),
    {
        let mismatch = planet.owner != self.planet.owner || planet.ships != self.planet.ships;
        self.planet.ships = planet.ships;
        self.planet.owner = planet.owner;
        self.changed = true;
        mismatch
    }

    /// Recomputes the materialised future if it is stale.
    pub fn refresh(&mut self)
        requires
            old(self).wf(),
        ensures
            final(self).wf(),
            !final(self).dirty(),
            final(self).predicted(),
            final(self).ident() == old(self).ident(),
            final(self).owner_count() == old(self).owner_count(),
            final(self).schedule() == old(self).schedule(),
            final(self).holding() == old(self).holding(),
            !old(self).dirty() ==> final(self).future_seq() == old(self).future_seq(),
    {
        if self.changed {
            self.calculate_states();
        }
    }

    /// Takes the authoritative planet record, then brings the future up to date.
    pub fn flush(&mut self, planet: Planet)
        requires
            old(self).wf(),
            -MAX_SHIPS <= planet.ships <= MAX_SHIPS,
        ensures
            final(self).wf(),
            !final(self).dirty(),
            final(self).predicted(),
            final(self).ident() == old(self).ident(),
            final(self).owner_count() == old(self).owner_count(),
            final(self).schedule() == old(self).schedule(),
            final(self).holding() == (planet.owner, planet.ships as int),
    {
        self.reconcile(planet);
        self.refresh();
    }

    /// Ages the planet by one real turn: production, then the battle of the
    /// slot that arrives now, whose buckets are emptied and reused at the far end.
    pub fn turn(&mut self)
        requires
            old(self).wf(),
            old(self).holding().1 <= MAX_SHIPS - MAX_FLEET - 1,
        ensures
            final(self).wf(),
            final(self).dirty(),
            final(self).ident() == old(self).ident(),
            final(self).owner_count() == old(self).owner_count(),
            old(self).horizon() == 0 ==> final(self).holding() == produce(old(self).holding())
                && final(self).schedule() == old(self).schedule(),
            old(self).horizon() > 0 ==> final(self).holding() == combat(
                produce(old(self).holding()),
                old(self).schedule()[0],
            ) && final(self).schedule() == old(self).schedule().skip(1).push(
                Seq::new(old(self).owner_count(), |o: int| 0int),
            ),
    {
        proof {
            self.lemma_wf_facts();
        }
        let current = PlanetState { owner: self.planet.owner, ships: self.planet.ships };
        let current = current.next();
        if self.states.len() == 0 {
            self.planet.owner = current.owner;
            self.planet.ships = current.ships;
        } else {
            let mut st = self.states.remove(0);
            proof {
                lemma_combat_bounds(holding_of(current), arrivals(st@));
            }
            let current = execute_combat(current, &st);
            self.planet.owner = current.owner;
            self.planet.ships = current.ships;
            let mut i: usize = 0;
            while i < st.len()
                invariant
                    i <= st@.len(),
                    st@.len() == self.owners,
                    forall|o: int| 0 <= o < i ==> (#[trigger] st@[o]).ships == 0,
                decreases st@.len() - i,
            {
                let mut e = st[i];
                e.reset();
                st[i] = e;
                i = i + 1;
            }
            self.states.push(st);
            proof {
                let s = old(self).schedule();
                let z = Seq::new(self.owners as nat, |o: int| 0int);
                assert(arrivals(st@) =~= z);
                assert(self.schedule() =~~= s.skip(1).push(z));
            }
        }
        self.changed = true;
    }

    /// Materialises the future from the current holding and the schedule.
    fn calculate_states(&mut self)
        requires
            old(self).wf(),
        ensures
            final(self).wf(),
            !final(self).dirty(),
            final(self).predicted(),
            final(self).ident() == old(self).ident(),
            final(self).owner_count() == old(self).owner_count(),
            final(self).schedule() == old(self).schedule(),
            final(self).holding() == old(self).holding(),
    {
        proof {
            self.lemma_wf_facts();
        }
        let ghost h = self.holding();
        let ghost sched = self.schedule();
        let mut current = PlanetState { owner: self.planet.owner, ships: self.planet.ships };
        self.future[0] = self.planet;
        let n = self.states.len();
        let mut k: usize = 0;
        while k < n
            invariant
                self.wf() || self.changed,
                n == self.states@.len(),
                n <= MAX_HORIZON,
                k <= n,
                self.future@.len() == n + 1,
                forall|r: int| 0 <= r < n ==> (#[trigger] self.states@[r])@.len() == self.owners,
                -MAX_SHIPS <= self.planet.ships <= MAX_SHIPS,
                h == self.holding(),
                sched == self.schedule(),
                schedule_bounded(sched, self.owners as nat),
                forall|r: int| 0 <= r < n ==> #[trigger] arrivals(self.states@[r]@) == sched[r],
                self.ident() == old(self).ident(),
                self.owners == old(self).owners,
                holding_of(current) == predict(h, sched, k as nat),
                forall|j: int|
                    0 <= j <= k ==> {
                        &&& (#[trigger] self.future@[j]).id == self.planet.id
                        &&& (self.future@[j].owner, self.future@[j].ships as int) == predict(
                            h,
                            sched,
                            j as nat,
                        )
                    },
            decreases n - k,
        {
            proof {
                lemma_predict_bounds(h, sched, self.owners as nat, k as nat);
                lemma_ceiling_fits(k as nat);
                assert(arrivals(self.states@[k as int]@) == sched[k as int]);
            }
            current = current.next();
            current = execute_combat(current, &self.states[k]);
            self.future[k + 1] = Planet { id: self.planet.id, ships: current.ships, owner: current.owner };
            k = k + 1;
        }
        self.changed = false;
    }
}

/// Flushing is deterministic: two timelines that agree on the confirmed
/// holding and on the scheduled arrivals materialise the same future, so
/// repeating a flush without a change in between gives the same sequence.
pub proof fn lemma_flush_deterministic(a: &PlanetStates, b: &PlanetStates)
    requires
        a.predicted(),
        b.predicted(),
        a.ident() == b.ident(),
        a.holding() == b.holding(),
        a.schedule() == b.schedule(),
    ensures
        a.future_seq() == b.future_seq(),
{
    assert forall|k: int| 0 <= k < a.future_seq().len() implies a.future_seq()[k] == b.future_seq()[k] by {
        assert(a.future_seq()[k].id == b.future_seq()[k].id);
    }
    assert(a.future_seq() =~= b.future_seq());
}

proof fn lemma_top_two_order(h: (Owner, int), a: Seq<int>, n: nat)
    requires
        n <= a.len(),
        a.len() <= usize::MAX,
    ensures
        ({
            let t = top_two(h, a, n);
            &&& 0 <= t.1.1 <= t.0.1
            &&& forall|k: int| 0 <= k < n ==> #[trigger] strength(h, a, k) <= t.0.1
            &&& t.0.1 > 0 ==> t.0.0 < n && strength(h, a, t.0.0 as int) == t.0.1
            &&& forall|k: int| 0 <= k < n && k != t.0.0 ==> #[trigger] strength(h, a, k) <= t.1.1
        }),
    decreases n,
{
    if n > 0 {
        lemma_top_two_order(h, a, (n - 1) as nat);
        assert(((n - 1) as Owner) as int == n - 1);
    }
}

/// The tie law: when two different owners share the greatest total (the
/// holder's garrison counted with its own arrivals), or no total is above
/// zero, the battle leaves the planet neutral with no ships.
pub proof fn lemma_combat_tie(h: (Owner, int), a: Seq<int>)
    requires
        a.len() <= usize::MAX,
        (exists|i: int, j: int|
            0 <= i < a.len() && 0 <= j < a.len() && i != j && #[trigger] strength(h, a, i) == #[trigger] strength(h, a, j)
                && forall|k: int| 0 <= k < a.len() ==> #[trigger] strength(h, a, k) <= strength(h, a, i))
            || (forall|k: int| 0 <= k < a.len() ==> #[trigger] strength(h, a, k) <= 0),
    ensures
        combat(h, a) == (NEUTRAL, 0int),
{
    lemma_top_two_order(h, a, a.len());
    let t = top_two(h, a, a.len());
    if t.0.1 > 0 {
        assert(strength(h, a, t.0.0 as int) > 0);
        let (i, j) = choose|i: int, j: int|
            0 <= i < a.len() && 0 <= j < a.len() && i != j && #[trigger] strength(h, a, i) == #[trigger] strength(h, a, j)
                && forall|k: int| 0 <= k < a.len() ==> #[trigger] strength(h, a, k) <= strength(h, a, i);
        assert(strength(h, a, t.0.0 as int) <= strength(h, a, i));
        if i != t.0.0 {
            assert(strength(h, a, i) <= t.1.1);
        } else {
            assert(strength(h, a, j) <= t.1.1);
        }
    }
}

/// The tie law for a whole turn of a timeline: when the totals of its next
/// slot, with the produced garrison, tie at the top or are all non-positive,
/// the planet ends the turn neutral and empty.
pub proof fn lemma_turn_tie(before: &PlanetStates, after: &PlanetStates)
    requires
        before.wf(),
        before.horizon() > 0,
        after.holding() == combat(produce(before.holding()), before.schedule()[0]),
        ({
            let h = produce(before.holding());
            let a = before.schedule()[0];
            (exists|i: int, j: int|
                0 <= i < a.len() && 0 <= j < a.len() && i != j && #[trigger] strength(h, a, i) == #[trigger] strength(h, a, j)
                    && forall|k: int| 0 <= k < a.len() ==> #[trigger] strength(h, a, k) <= strength(h, a, i))
                || (forall|k: int| 0 <= k < a.len() ==> #[trigger] strength(h, a, k) <= 0)
        }),
    ensures
        after.holding() == (NEUTRAL, 0int),
{
    before.lemma_wf_facts();
    assert(before.schedule()[0].len() == before.owner_count());
    lemma_combat_tie(produce(before.holding()), before.schedule()[0]);
}

proof fn lemma_top_two_quiet(h: (Owner, int), a: Seq<int>, n: nat)
    requires
        n <= a.len(),
        forall|i: int| 0 <= i < a.len() ==> a[i] == 0,
    ensures
        top_two(h, a, n) == if h.0 < n && h.1 > 0 {
            ((h.0, h.1), (NEUTRAL, 0int))
        } else {
            ((NEUTRAL, 0int), (NEUTRAL, 0int))
        },
    decreases n,
{
    if n > 0 {
        lemma_top_two_quiet(h, a, (n - 1) as nat);
        assert(a[n - 1] == 0);
    }
}

/// With nothing arriving, a turn adds exactly one ship to a planet held by a
/// player, and never adds ships to a neutral planet.
pub proof fn lemma_production(h: (Owner, int), a: Seq<int>)
    requires
        h.0 < a.len(),
        h.1 >= 0,
        forall|i: int| 0 <= i < a.len() ==> a[i] == 0,
    ensures
        h.0 != NEUTRAL ==> combat(produce(h), a) == (h.0, h.1 + 1),
        h.0 == NEUTRAL ==> combat(produce(h), a).1 <= h.1,
{
    lemma_top_two_quiet(produce(h), a, a.len());
}

/// The production law for a whole turn of a timeline whose next slot is empty.
pub proof fn lemma_turn_production(before: &PlanetStates, after: &PlanetStates)
    requires
        before.wf(),
        before.horizon() > 0,
        before.holding().0 < before.owner_count(),
        before.holding().1 >= 0,
        forall|o: int| 0 <= o < before.owner_count() ==> before.schedule()[0][o] == 0,
        after.holding() == combat(produce(before.holding()), before.schedule()[0]),
    ensures
        before.holding().0 != NEUTRAL ==> after.holding() == (before.holding().0, before.holding().1 + 1),
        before.holding().0 == NEUTRAL ==> after.holding().1 <= before.holding().1,
{
    before.lemma_wf_facts();
    lemma_production(before.holding(), before.schedule()[0]);
}

} // verus!
