use vstd::prelude::*;

use crate::flow::is_max_flow;
use crate::graphs::{is_bundle, operation_ok, try_oo, NodeOrchestrator, Operation, SolutionPart};
use crate::operation::OptionalOperation;
use crate::timeline::PlanetStates;
use crate::world::{find_optional_operations, is_candidate, qualifies, State};

verus! {

/// Scores of the operations that a bundle accepted, summed.
pub open spec fn bundle_score(tried: Seq<OptionalOperation>, b: Seq<Operation>) -> int
    decreases b.len(),
{
    if b.len() == 0 {
        0
    } else {
        bundle_score(tried, b.drop_last()) + tried[b.last().original as int].score_spec()
    }
}

/// A bundle score as the search keeps it: saturated at `u128::MAX`.
pub open spec fn kept_score(tried: Seq<OptionalOperation>, b: Seq<Operation>) -> int {
    let s = bundle_score(tried, b);
    if s < u128::MAX {
        s
    } else {
        u128::MAX as int
    }
}

/// `b` is a bundle that the solver may return for the trial `tried`.
pub open spec fn solved(tl: Seq<PlanetStates>, tried: Seq<OptionalOperation>, b: Seq<Operation>) -> bool {
    exists|g: NodeOrchestrator, flows: Seq<i128>, side: Seq<bool>|
        g.describes(tl, tried) && #[trigger] is_max_flow(g.nodes@.len(), g.ends(), g.caps(), 0, 1, flows, side)
            && is_bundle(g, tried, flows, b)
}

/// All the transfers of a bundle, operation after operation.
pub open spec fn moves_of(b: Seq<Operation>) -> Seq<SolutionPart>
    decreases b.len(),
{
    if b.len() == 0 {
        seq![]
    } else {
        moves_of(b.drop_last()) + b.last().solution@
    }
}

/// Index of the first highest-scoring operation of `q`.
pub open spec fn is_pick(q: Seq<OptionalOperation>, i: int) -> bool {
    &&& 0 <= i < q.len()
    &&& forall|j: int| 0 <= j < q.len() ==> #[trigger] q[j].score_spec() <= q[i].score_spec()
    &&& forall|j: int| 0 <= j < i ==> #[trigger] q[j].score_spec() < q[i].score_spec()
}

/// The anytime search of one turn: the candidates not tried yet, the growing
/// trial set, and the best bundle found so far with its score.
pub struct Search {
    pub queue: Vec<OptionalOperation>,
    pub tried: Vec<OptionalOperation>,
    pub best: Vec<Operation>,
    pub best_score: Option<u128>,
}

impl Search {
    /// Every operation of the search fits the timelines.
    pub open spec fn fits(&self, tl: Seq<PlanetStates>) -> bool {
        &&& forall|k: int| 0 <= k < self.queue@.len() ==> operation_ok(tl, #[trigger] self.queue@[k])
        &&& forall|k: int| 0 <= k < self.tried@.len() ==> operation_ok(tl, #[trigger] self.tried@[k])
    }

    /// Loads the candidate operation of every target into the queue.
    pub fn new(state: &State, distances: &Vec<Vec<usize>>) -> (r: Self)
        requires
            state.wf(),
            state.settled(),
            distances@.len() == state.timelines().len(),
            forall|t: int|
                0 <= t < distances@.len() ==> (#[trigger] distances@[t])@.len() == state.timelines().len()
                    && forall|p: int| 0 <= p < state.timelines().len() ==> #[trigger] distances@[t]@[p] <= state.window(),
        ensures
            r.fits(state.timelines()),
            r.queue@.len() <= state.timelines().len(),
            forall|k: int|
                0 <= k < r.queue@.len() ==> {
                    let op = #[trigger] r.queue@[k];
                    &&& op.target < distances@.len()
                    &&& is_candidate(state.timelines(), state.window(), distances@[op.target as int]@, op.target as int, op)
                },
            forall|k: int, j: int| 0 <= k < j < r.queue@.len() ==> #[trigger] r.queue@[k].target < #[trigger] r.queue@[j].target,
            forall|t: int, d: int|
                0 <= t < distances@.len() && 0 <= d <= state.window() && #[trigger] qualifies(state.timelines(), distances@[t]@, t, d)
                    ==> exists|k: int| 0 <= k < r.queue@.len() && #[trigger] r.queue@[k].target == t,
            r.tried@.len() == 0,
            r.best@.len() == 0,
            r.best_score is None,
    {
        let mut queue: Vec<OptionalOperation> = Vec::new();
        let n = state.planets().len();
        let mut t: usize = 0;
        while t < n
            invariant
                state.wf(),
                state.settled(),
                n == state.timelines().len(),
                distances@.len() == n,
                forall|t: int|
                    0 <= t < distances@.len() ==> (#[trigger] distances@[t])@.len() == n
                        && forall|p: int| 0 <= p < n ==> #[trigger] distances@[t]@[p] <= state.window(),
                t <= n,
                queue@.len() <= t,
                forall|k: int| 0 <= k < queue@.len() ==> operation_ok(state.timelines(), #[trigger] queue@[k]),
                forall|k: int|
                    0 <= k < queue@.len() ==> {
                        let op = #[trigger] queue@[k];
                        &&& op.target < t
                        &&& is_candidate(state.timelines(), state.window(), distances@[op.target as int]@, op.target as int, op)
                    },
                forall|k: int, j: int| 0 <= k < j < queue@.len() ==> #[trigger] queue@[k].target < #[trigger] queue@[j].target,
                forall|u: int, d: int|
                    0 <= u < t && 0 <= d <= state.window() && #[trigger] qualifies(state.timelines(), distances@[u]@, u, d)
                        ==> exists|k: int| 0 <= k < queue@.len() && #[trigger] queue@[k].target == u,
            decreases n - t,
        {
            let row = &distances[t];
            assert forall|p: int| 0 <= p < row@.len() implies #[trigger] row@[p] <= state.window() by {
                assert(distances@[t as int]@[p] <= state.window());
            }
            let ghost before = queue@;
            match find_optional_operations(t, state, row) {
                Some(op) => {
                    queue.push(op);
                    proof {
                        assert forall|u: int, d: int|
                            0 <= u < t + 1 && 0 <= d <= state.window() && #[trigger] qualifies(state.timelines(), distances@[u]@, u, d)
                                implies exists|k: int| 0 <= k < queue@.len() && #[trigger] queue@[k].target == u by {
                            if u < t {
                                let k = choose|k: int| 0 <= k < before.len() && #[trigger] before[k].target == u;
                                assert(queue@[k] == before[k]);
                            } else {
                                assert(queue@[before.len() as int].target == u);
                            }
                        }
                    }
                },
                None => {
                    proof {
                        assert forall|u: int, d: int|
                            0 <= u < t + 1 && 0 <= d <= state.window() && #[trigger] qualifies(state.timelines(), distances@[u]@, u, d)
                                implies exists|k: int| 0 <= k < queue@.len() && #[trigger] queue@[k].target == u by {
                            if u == t {
                                assert(row@ == distances@[u]@);
                                assert(false);
                            }
                        }
                    }
                },
            }
            t = t + 1;
        }
        Search { queue, tried: Vec::new(), best: Vec::new(), best_score: None }
    }

    /// Index of the first highest-scoring operation still queued.
    fn pick(&self) -> (i: usize)
        requires
            self.queue@.len() > 0,
        ensures
            is_pick(self.queue@, i as int),
    {
        let mut best: usize = 0;
        let mut best_score = self.queue[0].score();
        let mut j: usize = 1;
        while j < self.queue.len()
            invariant
                0 <= best < j <= self.queue@.len(),
                best_score == self.queue@[best as int].score_spec(),
                forall|q: int| 0 <= q < j ==> #[trigger] self.queue@[q].score_spec() <= self.queue@[best as int].score_spec(),
                forall|q: int| 0 <= q < best ==> #[trigger] self.queue@[q].score_spec() < self.queue@[best as int].score_spec(),
            decreases self.queue@.len() - j,
        {
            let s = self.queue[j].score();
            if s > best_score {
                best = j;
                best_score = s;
            }
            j = j + 1;
        }
        best
    }

    /// One iteration: moves the highest-scoring queued operation into the
    /// trial set, solves the whole trial set, and keeps the bundle if it
    /// scores higher than the best so far (or is the first). Returns `false`,
    /// changing nothing, once the queue is empty.
    pub fn step(&mut self, state: &State) -> (r: bool)
        requires
            state.wf(),
            state.settled(),
            old(self).fits(state.timelines()),
        ensures
            final(self).fits(state.timelines()),
            r == (old(self).queue@.len() > 0),
            !r ==> *final(self) == *old(self),
            r ==> exists|i: int| {
                &&& #[trigger] is_pick(old(self).queue@, i)
                &&& final(self).queue@ == old(self).queue@.remove(i)
                &&& final(self).tried@ == old(self).tried@.push(old(self).queue@[i])
            },
            r ==> exists|b: Seq<Operation>| {
                &&& #[trigger] solved(state.timelines(), final(self).tried@, b)
                &&& if old(self).best_score is None || kept_score(final(self).tried@, b) > old(self).best_score->0 {
                    &&& final(self).best@ == b
                    &&& final(self).best_score == Some(kept_score(final(self).tried@, b) as u128)
                } else {
                    &&& final(self).best@ == old(self).best@
                    &&& final(self).best_score == old(self).best_score
                }
            },
    {
        if self.queue.len() == 0 {
            return false;
        }
        let i = self.pick();
        let ghost q0 = self.queue@;
        let op = self.queue.remove(i);
        self.tried.push(op);
        proof {
            state.lemma_timelines_ok();
            assert forall|k: int| 0 <= k < self.queue@.len() implies operation_ok(state.timelines(), #[trigger] self.queue@[k]) by {
                if k < i {
                    assert(self.queue@[k] == q0[k]);
                } else {
                    assert(self.queue@[k] == q0[k + 1]);
                }
            }
        }
        let o = try_oo(&self.tried, state.planets());
        let score = self.score_of(&o);
        let better = match self.best_score {
            None => true,
            Some(b) => score > b,
        };
        if better {
            self.best = o;
            self.best_score = Some(score);
        }
        assert(is_pick(q0, i as int));
        assert(solved(state.timelines(), self.tried@, o@));
        true
    }

    /// Score of bundle `o` of the current trial set, saturated.
    fn score_of(&self, o: &Vec<Operation>) -> (r: u128)
        requires
            forall|i: int| 0 <= i < o@.len() ==> (#[trigger] o@[i]).original < self.tried@.len(),
        ensures
            r == kept_score(self.tried@, o@),
    {
        let mut total: u128 = 0;
        let mut i: usize = 0;
        while i < o.len()
            invariant
                i <= o@.len(),
                forall|i: int| 0 <= i < o@.len() ==> (#[trigger] o@[i]).original < self.tried@.len(),
                total == kept_score(self.tried@, o@.subrange(0, i as int)),
            decreases o@.len() - i,
        {
            let x = self.tried[o[i].original].score();
            proof {
                assert(o@.subrange(0, i + 1).drop_last() =~= o@.subrange(0, i as int));
                lemma_score_nonneg(self.tried@[o@[i as int].original as int]);
            }
            if total > u128::MAX - x {
                total = u128::MAX;
            } else {
                total = total + x;
            }
            i = i + 1;
        }
        assert(o@.subrange(0, o@.len() as int) =~= o@);
        total
    }

    /// Queues on the world model every transfer of the best bundle.
    pub fn commit(&self, state: &mut State)
        ensures
            final(state).moves() == old(state).moves() + moves_of(self.best@),
            final(state).timelines() == old(state).timelines(),
            final(state).window() == old(state).window(),
            final(state).watermark() == old(state).watermark(),
            old(state).wf() ==> final(state).wf(),
    {
        let mut i: usize = 0;
        while i < self.best.len()
            invariant
                i <= self.best@.len(),
                state.moves() == old(state).moves() + moves_of(self.best@.subrange(0, i as int)),
                state.timelines() == old(state).timelines(),
                state.window() == old(state).window(),
                state.watermark() == old(state).watermark(),
                old(state).wf() ==> state.wf(),
            decreases self.best@.len() - i,
        {
            let sol = &self.best[i].solution;
            let ghost before = state.moves();
            let mut j: usize = 0;
            while j < sol.len()
                invariant
                    j <= sol@.len(),
                    state.moves() == before + sol@.subrange(0, j as int),
                    state.timelines() == old(state).timelines(),
                    state.window() == old(state).window(),
                    state.watermark() == old(state).watermark(),
                    old(state).wf() ==> state.wf(),
                decreases sol@.len() - j,
            {
                let part = sol[j];
                state.add_turn(part.source, part.target, part.ships);
                assert(sol@.subrange(0, j + 1) =~= sol@.subrange(0, j as int).push(part));
                j = j + 1;
            }
            proof {
                assert(sol@.subrange(0, sol@.len() as int) =~= sol@);
                assert(self.best@.subrange(0, i + 1).drop_last() =~= self.best@.subrange(0, i as int));
                assert(moves_of(self.best@.subrange(0, i + 1)) == moves_of(self.best@.subrange(0, i as int)) + sol@);
                assert(old(state).moves() + moves_of(self.best@.subrange(0, i + 1)) =~= before + sol@);
            }
            i = i + 1;
        }
        assert(self.best@.subrange(0, self.best@.len() as int) =~= self.best@);
    }
}

proof fn lemma_score_nonneg(op: OptionalOperation)
    ensures
        op.score_spec() >= 0,
{
    let c = op.required_ships * op.required_ships + op.duration * op.duration;
    assert(op.required_ships * op.required_ships >= 0) by (nonlinear_arith);
    assert(op.duration * op.duration >= 0) by (nonlinear_arith);
    if c != 0 {
        let w = op.weight * 0x1_0000_0000int;
        assert(w >= 0) by (nonlinear_arith)
            requires
                w == op.weight * 0x1_0000_0000int,
                op.weight >= 0,
        ;
        assert(w / c >= 0) by (nonlinear_arith)
            requires
                w >= 0,
                c > 0,
        ;
    } else {
        assert(op.weight * 0x1_0000_0000int >= 0) by (nonlinear_arith)
            requires
                op.weight >= 0,
        ;
    }
}

} // verus!
