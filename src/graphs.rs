use vstd::prelude::*;

use crate::flow::{edmonds_karp, is_flow, is_max_flow, net_out, UNBOUNDED};
use crate::operation::OptionalOperation;
use crate::timeline::PlanetStates;

verus! {

/// An edge of the flow network; `wanted` is the exact flow it must carry in
/// a feasible solution, or `None` where any flow will do.
#[derive(Clone, Copy, Debug)]
pub struct Edge {
    pub from: usize,
    pub to: usize,
    pub wanted: Option<i64>,
}

#[derive(Clone, Copy, Debug)]
pub enum Type {
    Source,
    Destination,
}

/// The supply of planet `id` at timeline index `index`.
#[derive(Clone, Debug)]
pub struct PlanetNode {
    pub id: usize,
    pub index: usize,
    /// Edge bringing this index's new ships from the source.
    pub supply: usize,
    /// Edge draining this index's losses to the sink.
    pub drain: usize,
    /// Edge from the previous index (unused at index 0).
    pub link: usize,
    /// The drain edges of this node and of every earlier index.
    pub required: Vec<usize>,
}

/// Operation `operation` of the trial: its edge to the sink, then one edge in
/// from each usable planet, as (planet id, edge).
#[derive(Clone, Debug)]
pub struct OperationNode {
    pub operation: usize,
    pub destination: usize,
    pub planets: Vec<(usize, usize)>,
}

#[derive(Clone, Debug)]
pub enum Node {
    Special(Type),
    Operation(OperationNode),
    Planet(PlanetNode),
}

impl Node {
    pub fn op(&self) -> (r: Option<&OperationNode>)
        ensures
            r matches Some(n) ==> self == Node::Operation(*n),
            r is None ==> !(self is Operation),
    {
        match self {
            Node::Operation(n) => Some(n),
            _ => None,
        }
    }

    pub fn planet(&self) -> (r: Option<&PlanetNode>)
        ensures
            r matches Some(n) ==> self == Node::Planet(*n),
            r is None ==> !(self is Planet),
    {
        match self {
            Node::Planet(n) => Some(n),
            _ => None,
        }
    }
}

/// One ship transfer of a solved bundle.
#[derive(Clone, Copy, Debug)]
pub struct SolutionPart {
    pub source: usize,
    pub target: usize,
    pub ships: i64,
}

/// An accepted operation (by its index in the trial) and its transfers.
#[derive(Clone, Debug)]
pub struct Operation {
    pub original: usize,
    pub solution: Vec<SolutionPart>,
}

/// Ships planet `t` has available at timeline index `i`: its predicted
/// count, or none while that count is negative.
pub open spec fn stock(t: PlanetStates, i: int) -> int {
    let x = t.future_seq()[i].ships as int;
    if x < 0 {
        0
    } else {
        x
    }
}

/// Ships planet `t` gains at timeline index `i` (its whole stock at index 0).
pub open spec fn supply_amount(t: PlanetStates, i: int) -> int {
    if i == 0 {
        stock(t, 0)
    } else {
        let delta = stock(t, i) - stock(t, i - 1);
        if delta < 0 {
            0
        } else {
            delta
        }
    }
}

/// Ships planet `t` loses at timeline index `i`.
pub open spec fn drain_amount(t: PlanetStates, i: int) -> int {
    if i == 0 {
        0
    } else {
        let delta = stock(t, i) - stock(t, i - 1);
        if delta < 0 {
            -delta
        } else {
            0
        }
    }
}

/// Capacity handed to the solver for an edge.
pub open spec fn cap_of(wanted: Option<i64>) -> int {
    match wanted {
        Some(w) => if w > 0 {
            w as int
        } else {
            0
        },
        None => UNBOUNDED as int,
    }
}

/// The transient flow network of one trial: an arena of nodes and edges.
/// Node 0 is the source, node 1 the sink; `planets[p][i]` is the supply node
/// of planet `p` at index `i`, and `operations[k]` the node of operation `k`.
pub struct NodeOrchestrator {
    pub source: usize,
    pub destination: usize,
    pub blank_edge: usize,
    pub edges: Vec<Edge>,
    pub nodes: Vec<Node>,
    pub planets: Vec<Vec<usize>>,
    pub operations: Vec<usize>,
}

impl NodeOrchestrator {
    pub open spec fn ends(&self) -> Seq<(usize, usize)> {
        self.edges@.map_values(|e: Edge| (e.from, e.to))
    }

    pub open spec fn edge_ok(&self, e: int) -> bool {
        &&& self.edges@[e].from < self.nodes@.len()
        &&& self.edges@[e].to < self.nodes@.len()
        &&& self.edges@[e].from == 0 ==> self.edges@[e].wanted is Some
    }

    /// Node `u` is the supply node of planet `p` at index `i`, as the
    /// timelines `tl` say it must be.
    pub open spec fn supply_ok(&self, tl: Seq<PlanetStates>, p: int, i: int) -> bool {
        let u = self.planets@[p]@[i];
        &&& 2 <= u < self.nodes@.len()
        &&& self.nodes@[u as int] is Planet
        &&& {
            let pn = self.nodes@[u as int]->Planet_0;
            &&& pn.id == p
            &&& pn.index == i
            &&& pn.supply < self.edges@.len()
            &&& pn.drain < self.edges@.len()
            &&& self.edges@[pn.supply as int].from == 0
            &&& self.edges@[pn.supply as int].to == u
            &&& self.edges@[pn.supply as int].wanted == Some(supply_amount(tl[p], i) as i64)
            &&& self.edges@[pn.drain as int].from == u
            &&& self.edges@[pn.drain as int].to == 1
            &&& self.edges@[pn.drain as int].wanted == Some(drain_amount(tl[p], i) as i64)
            &&& forall|r: int| 0 <= r < pn.required@.len() ==> #[trigger] pn.required@[r] < self.edges@.len()
            &&& i == 0 ==> pn.required@ == seq![pn.drain]
            &&& i > 0 ==> {
                let prev = self.planets@[p]@[i - 1];
                &&& pn.link < self.edges@.len()
                &&& self.edges@[pn.link as int].from == prev
                &&& self.edges@[pn.link as int].to == u
                &&& self.edges@[pn.link as int].wanted is None
                &&& pn.required@ == (self.nodes@[prev as int]->Planet_0).required@.push(pn.drain)
            }
        }
    }

    /// Node `operations[k]` is the node of operation `ops[k]`.
    pub open spec fn op_ok(&self, ops: Seq<OptionalOperation>, k: int) -> bool {
        let v = self.operations@[k];
        &&& 2 <= v < self.nodes@.len()
        &&& self.nodes@[v as int] is Operation
        &&& {
            let on = self.nodes@[v as int]->Operation_0;
            let op = ops[k];
            let d = on.destination as int;
            &&& on.operation == k
            &&& d + on.planets@.len() < self.edges@.len()
            &&& self.edges@[d].from == v
            &&& self.edges@[d].to == 1
            &&& self.edges@[d].wanted == Some(op.required_ships)
            &&& on.planets@.len() == op.usable_planets@.len()
            &&& forall|j: int|
                0 <= j < on.planets@.len() ==> {
                    let ub = op.usable_planets@[j];
                    let e = (#[trigger] on.planets@[j]).1 as int;
                    &&& e == d + 1 + j
                    &&& on.planets@[j].0 == ub.id
                    &&& ub.id < self.planets@.len()
                    &&& ub.dist <= op.duration
                    &&& op.duration - ub.dist < self.planets@[ub.id as int]@.len()
                    &&& self.edges@[e].to == v
                    &&& self.edges@[e].wanted is None
                    &&& self.edges@[e].from == self.planets@[ub.id as int]@[op.duration - ub.dist]
                }
            &&& forall|e: int|
                0 <= e < self.edges@.len() && ((#[trigger] self.edges@[e]).from == v
                    || self.edges@[e].to == v) ==> d <= e <= d + on.planets@.len()
        }
    }

    /// The network encodes the operations `ops` over the timelines `tl`.
    pub open spec fn describes(&self, tl: Seq<PlanetStates>, ops: Seq<OptionalOperation>) -> bool {
        &&& self.source == 0
        &&& self.destination == 1
        &&& self.nodes@.len() >= 2
        &&& self.nodes@[0] is Special
        &&& self.nodes@[1] is Special
        &&& self.edges@.len() >= 1
        &&& self.edges@[self.blank_edge as int].from == 0
        &&& self.edges@[self.blank_edge as int].to == 1
        &&& self.edges@[self.blank_edge as int].wanted == Some(0i64)
        &&& self.blank_edge < self.edges@.len()
        &&& forall|e: int| 0 <= e < self.edges@.len() ==> #[trigger] self.edge_ok(e)
        &&& self.planets@.len() == tl.len()
        &&& forall|p: int|
            0 <= p < tl.len() ==> (#[trigger] self.planets@[p])@.len() <= tl[p].future_seq().len()
        &&& forall|p: int, i: int|
            0 <= p < tl.len() && 0 <= i < self.planets@[p]@.len() ==> #[trigger] self.supply_ok(tl, p, i)
        &&& self.operations@.len() == ops.len()
        &&& forall|k: int| 0 <= k < ops.len() ==> #[trigger] self.op_ok(ops, k)
    }

    /// Supply node `u` is where usable planet `q` of `op` departs from.
    pub open spec fn feeds(&self, op: OptionalOperation, q: int, u: usize) -> bool {
        let ub = op.usable_planets@[q];
        &&& op.duration - ub.dist < self.planets@[ub.id as int]@.len()
        &&& u == self.planets@[ub.id as int]@[op.duration - ub.dist]
    }

    /// Capacities handed to the solver, edge by edge.
    pub open spec fn caps(&self) -> Seq<i128> {
        self.edges@.map_values(|e: Edge| cap_of(e.wanted) as i128)
    }

    /// Every operation node is well formed, as the selection reads it.
    pub open spec fn selectable(&self, n_ops: nat, n_flows: nat) -> bool {
        &&& self.operations@.len() == n_ops
        &&& n_flows == self.edges@.len()
        &&& forall|k: int| 0 <= k < n_ops ==> {
            let v = #[trigger] self.operations@[k];
            &&& v < self.nodes@.len()
            &&& self.nodes@[v as int] is Operation
            &&& (self.nodes@[v as int]->Operation_0).destination < self.edges@.len()
            &&& forall|j: int| 0 <= j < (self.nodes@[v as int]->Operation_0).planets@.len() ==> {
                let e = (#[trigger] (self.nodes@[v as int]->Operation_0).planets@[j]).1;
                &&& e < self.edges@.len()
                &&& self.edges@[e as int].from < self.nodes@.len()
            }
        }
    }

    /// `later` only appends to this network, and its new edges touch none of
    /// the operation nodes that this one has.
    pub open spec fn extended_by(&self, later: &Self) -> bool {
        &&& later.source == self.source
        &&& later.destination == self.destination
        &&& later.blank_edge == self.blank_edge
        &&& self.nodes@.len() <= later.nodes@.len()
        &&& forall|x: int| 0 <= x < self.nodes@.len() ==> #[trigger] later.nodes@[x] == self.nodes@[x]
        &&& self.edges@.len() <= later.edges@.len()
        &&& forall|e: int| 0 <= e < self.edges@.len() ==> #[trigger] later.edges@[e] == self.edges@[e]
        &&& later.planets@.len() == self.planets@.len()
        &&& forall|p: int|
            0 <= p < self.planets@.len() ==> (#[trigger] self.planets@[p])@.len() <= later.planets@[p]@.len()
        &&& forall|p: int, i: int|
            0 <= p < self.planets@.len() && 0 <= i < self.planets@[p]@.len()
                ==> #[trigger] later.planets@[p]@[i] == self.planets@[p]@[i]
        &&& self.operations@.len() <= later.operations@.len()
        &&& forall|k: int| 0 <= k < self.operations@.len() ==> #[trigger] later.operations@[k] == self.operations@[k]
        &&& forall|e: int, k: int|
            self.edges@.len() <= e < later.edges@.len() && 0 <= k < self.operations@.len()
                ==> #[trigger] later.edges@[e].from != #[trigger] self.operations@[k]
                && later.edges@[e].to != self.operations@[k]
    }

    proof fn lemma_frame(&self, later: &Self, tl: Seq<PlanetStates>, ops: Seq<OptionalOperation>)
        requires
            self.describes(tl, ops),
            self.extended_by(later),
        ensures
            forall|p: int, i: int|
                0 <= p < tl.len() && 0 <= i < self.planets@[p]@.len() ==> #[trigger] later.supply_ok(tl, p, i),
            forall|k: int| 0 <= k < self.operations@.len() ==> #[trigger] later.op_ok(ops, k),
    {
        assert forall|p: int, i: int|
            0 <= p < tl.len() && 0 <= i < self.planets@[p]@.len() implies #[trigger] later.supply_ok(tl, p, i) by {
            assert(self.supply_ok(tl, p, i));
            if i > 0 {
                assert(self.supply_ok(tl, p, i - 1));
                assert(later.planets@[p]@[i - 1] == self.planets@[p]@[i - 1]);
            }
        }
        assert forall|k: int| 0 <= k < self.operations@.len() implies #[trigger] later.op_ok(ops, k) by {
            assert(self.op_ok(ops, k));
            let v = self.operations@[k];
            let on = self.nodes@[v as int]->Operation_0;
            assert forall|j: int| #![trigger on.planets@[j]] 0 <= j < on.planets@.len() implies ({
                let ub = ops[k].usable_planets@[j];
                let e = on.planets@[j].1 as int;
                &&& later.planets@[ub.id as int]@[ops[k].duration - ub.dist] == self.planets@[ub.id as int]@[ops[k].duration - ub.dist]
                &&& ops[k].duration - ub.dist < later.planets@[ub.id as int]@.len()
                &&& later.edges@[e] == self.edges@[e]
            }) by {
                let ub = ops[k].usable_planets@[j];
                let e = on.planets@[j].1 as int;
                assert(self.supply_ok(tl, ub.id as int, ops[k].duration - ub.dist));
                assert(self.planets@[ub.id as int]@.len() <= later.planets@[ub.id as int]@.len());
            }
            assert forall|e: int|
                0 <= e < later.edges@.len() && ((#[trigger] later.edges@[e]).from == v || later.edges@[e].to == v)
                implies on.destination <= e <= on.destination + on.planets@.len() by {
                if e >= self.edges@.len() {
                    assert(later.edges@[e].from != self.operations@[k]);
                }
            }
        }
    }
}

proof fn lemma_extends_trans(a: &NodeOrchestrator, b: &NodeOrchestrator, c: &NodeOrchestrator)
    requires
        a.extended_by(b),
        b.extended_by(c),
    ensures
        a.extended_by(c),
{
    assert forall|e: int, k: int|
        a.edges@.len() <= e < c.edges@.len() && 0 <= k < a.operations@.len()
            implies #[trigger] c.edges@[e].from != #[trigger] a.operations@[k]
            && c.edges@[e].to != a.operations@[k] by {
        assert(b.operations@[k] == a.operations@[k]);
        if e < b.edges@.len() {
            assert(c.edges@[e] == b.edges@[e]);
            assert(b.edges@[e].from != a.operations@[k]);
        } else {
            assert(c.edges@[e].from != b.operations@[k]);
        }
    }
    assert forall|p: int, i: int|
        0 <= p < a.planets@.len() && 0 <= i < a.planets@[p]@.len()
            implies #[trigger] c.planets@[p]@[i] == a.planets@[p]@[i] by {
        assert(a.planets@[p]@.len() <= b.planets@[p]@.len());
    }
}

fn copy_indices(v: &Vec<usize>) -> (r: Vec<usize>)
    ensures
        r@ == v@,
{
    let mut r: Vec<usize> = Vec::new();
    let mut i: usize = 0;
    while i < v.len()
        invariant
            i <= v@.len(),
            r@ == v@.subrange(0, i as int),
        decreases v@.len() - i,
    {
        r.push(v[i]);
        i = i + 1;
    }
    assert(r@ =~= v@);
    r
}

impl NodeOrchestrator {
    /// An empty network for `planet_count` planets: the source, the sink and
    /// the blank edge between them, which must carry nothing.
    pub fn new(planet_count: usize) -> (r: Self)
        ensures
            forall|tl: Seq<PlanetStates>| tl.len() == planet_count ==> #[trigger] r.describes(tl, seq![]),
            r.nodes@ == seq![Node::Special(Type::Source), Node::Special(Type::Destination)],
            r.edges@ == seq![Edge { from: 0, to: 1, wanted: Some(0i64) }],
            r.planets@.len() == planet_count,
            forall|p: int| 0 <= p < planet_count ==> (#[trigger] r.planets@[p])@.len() == 0,
            r.operations@.len() == 0,
    {
        let mut planets: Vec<Vec<usize>> = Vec::new();
        while planets.len() < planet_count
            invariant
                planets@.len() <= planet_count,
                forall|p: int| 0 <= p < planets@.len() ==> (#[trigger] planets@[p])@.len() == 0,
            decreases planet_count - planets@.len(),
        {
            planets.push(Vec::new());
        }
        let mut nodes: Vec<Node> = Vec::new();
        nodes.push(Node::Special(Type::Source));
        nodes.push(Node::Special(Type::Destination));
        let mut edges: Vec<Edge> = Vec::new();
        edges.push(Edge { from: 0, to: 1, wanted: Some(0) });
        let r = Self { source: 0, destination: 1, blank_edge: 0, edges, nodes, planets, operations: Vec::new() };
        assert forall|tl: Seq<PlanetStates>| tl.len() == planet_count implies #[trigger] r.describes(tl, seq![]) by {
            assert(r.edge_ok(0));
        }
        r
    }

    fn add_edge(&mut self, from: usize, to: usize, wanted: Option<i64>) -> (e: usize)
        ensures
            final(self).edges@ == old(self).edges@.push(Edge { from, to, wanted }),
            e == old(self).edges@.len(),
            final(self).nodes@ == old(self).nodes@,
            final(self).planets@ == old(self).planets@,
            final(self).operations@ == old(self).operations@,
            final(self).source == old(self).source,
            final(self).destination == old(self).destination,
            final(self).blank_edge == old(self).blank_edge,
    {
        let e = self.edges.len();
        self.edges.push(Edge { from, to, wanted });
        e
    }

    /// Materialises the supply chain of planet `id` up to timeline index
    /// `index` and returns the node of that index.
    fn add_usable_planet(
        &mut self,
        tl: &[PlanetStates],
        Ghost(ops): Ghost<Seq<OptionalOperation>>,
        id: usize,
        index: usize,
    ) -> (u: usize)
        requires
            old(self).describes(tl@, ops),
            timelines_ok(tl@),
            id < tl@.len(),
            index < tl@[id as int].future_seq().len(),
        ensures
            final(self).describes(tl@, ops),
            old(self).extended_by(final(self)),
            final(self).operations@ == old(self).operations@,
            index < final(self).planets@[id as int]@.len(),
            u == final(self).planets@[id as int]@[index as int],
            final(self).planets@[id as int]@.len() == if old(self).planets@[id as int]@.len() > index {
                old(self).planets@[id as int]@.len() as int
            } else {
                index + 1
            },
            forall|p: int| 0 <= p < old(self).planets@.len() && p != id ==> #[trigger] final(self).planets@[p] == old(self).planets@[p],
            old(self).planets@[id as int]@.len() > index ==> final(self).nodes@ == old(self).nodes@ && final(self).edges@ == old(self).edges@,
    {
        let fut = tl[id].futures();
        let ghost t = tl@[id as int];
        let mut i = self.planets[id].len();
        let ghost start = *self;
        while i <= index
            invariant
                self.describes(tl@, ops),
                timelines_ok(tl@),
                start.extended_by(self),
                self.operations@ == start.operations@,
                id < tl@.len(),
                t == tl@[id as int],
                fut@ == t.future_seq(),
                index < fut@.len(),
                i == self.planets@[id as int]@.len(),
                start.planets@[id as int]@.len() <= i,
                i <= index + 1 || i == start.planets@[id as int]@.len(),
                i == start.planets@[id as int]@.len() ==> self.nodes@ == start.nodes@ && self.edges@ == start.edges@,
                self.planets@.len() == start.planets@.len(),
                forall|p: int| 0 <= p < start.planets@.len() && p != id ==> #[trigger] self.planets@[p] == start.planets@[p],
            decreases index + 1 - i,
        {
            let ghost before = *self;
            assert(t.predicted());
            let u = self.nodes.len();
            let node;
            if i == 0 {
                let stock0 = if fut[0].ships < 0 { 0 } else { fut[0].ships };
                let supply = self.add_edge(0, u, Some(stock0));
                let drain = self.add_edge(u, 1, Some(0));
                let mut required: Vec<usize> = Vec::new();
                required.push(drain);
                node = PlanetNode { id, index: 0, supply, drain, link: 0, required };
            } else {
                let prev = self.planets[id][i - 1];
                assert(self.supply_ok(tl@, id as int, i - 1));
                let prev_required = match self.nodes[prev].planet() {
                    Some(pn) => copy_indices(&pn.required),
                    None => Vec::new(),
                };
                let link = self.add_edge(prev, u, None);
                let a = if fut[i].ships < 0 { 0 } else { fut[i].ships };
                let b = if fut[i - 1].ships < 0 { 0 } else { fut[i - 1].ships };
                assert(-0x1000_0000_0000_0000 <= a <= 0x1000_0000_0000_0000);
                assert(-0x1000_0000_0000_0000 <= b <= 0x1000_0000_0000_0000);
                let delta = a - b;
                let supply;
                let drain;
                if delta < 0 {
                    supply = self.add_edge(0, u, Some(0));
                    drain = self.add_edge(u, 1, Some(-delta));
                } else {
                    supply = self.add_edge(0, u, Some(delta));
                    drain = self.add_edge(u, 1, Some(0));
                }
                let mut required = prev_required;
                required.push(drain);
                node = PlanetNode { id, index: i, supply, drain, link, required };
            }
            self.nodes.push(Node::Planet(node));
            let mut row: Vec<usize> = Vec::new();
            std::mem::swap(&mut row, &mut self.planets[id]);
            row.push(u);
            std::mem::swap(&mut row, &mut self.planets[id]);
            proof {
                assert(self.planets@[id as int]@ == before.planets@[id as int]@.push(u));
                assert forall|p: int| 0 <= p < self.planets@.len() && p != id implies
                    #[trigger] self.planets@[p] == before.planets@[p] by {}
                assert forall|e: int, k: int|
                    before.edges@.len() <= e < self.edges@.len() && 0 <= k < before.operations@.len()
                        implies #[trigger] self.edges@[e].from != #[trigger] before.operations@[k]
                        && self.edges@[e].to != before.operations@[k] by {
                    assert(before.op_ok(ops, k));
                    if i > 0 {
                        assert(before.supply_ok(tl@, id as int, i - 1));
                    }
                }
                assert forall|p: int, j: int|
                    0 <= p < before.planets@.len() && 0 <= j < before.planets@[p]@.len()
                        implies #[trigger] self.planets@[p]@[j] == before.planets@[p]@[j] by {
                    if p == id {
                        assert(self.planets@[id as int]@ == before.planets@[id as int]@.push(u));
                    }
                }
                assert forall|p: int| 0 <= p < before.planets@.len()
                    implies (#[trigger] before.planets@[p])@.len() <= self.planets@[p]@.len() by {
                    if p == id {
                        assert(self.planets@[id as int]@ == before.planets@[id as int]@.push(u));
                    }
                }
                assert(before.extended_by(self));
                before.lemma_frame(self, tl@, ops);
                lemma_extends_trans(&start, &before, self);
                assert forall|e: int| 0 <= e < self.edges@.len() implies #[trigger] self.edge_ok(e) by {
                    if e < before.edges@.len() {
                        assert(before.edge_ok(e));
                    } else if i > 0 {
                        assert(before.supply_ok(tl@, id as int, i - 1));
                    }
                }
                assert(self.supply_ok(tl@, id as int, i as int));
                assert forall|p: int, j: int|
                    0 <= p < tl@.len() && 0 <= j < self.planets@[p]@.len() implies #[trigger] self.supply_ok(tl@, p, j) by {
                    if p != id || j < i {
                        assert(before.planets@[p]@.len() <= self.planets@[p]@.len());
                    }
                }
            }
            i = i + 1;
        }
        self.planets[id][index]
    }

    proof fn lemma_selectable(&self, tl: Seq<PlanetStates>, ops: Seq<OptionalOperation>)
        requires
            self.describes(tl, ops),
        ensures
            self.selectable(ops.len(), self.edges@.len()),
    {
        assert forall|k: int| 0 <= k < ops.len() implies {
            let v = #[trigger] self.operations@[k];
            &&& v < self.nodes@.len()
            &&& self.nodes@[v as int] is Operation
            &&& (self.nodes@[v as int]->Operation_0).destination < self.edges@.len()
            &&& forall|j: int| 0 <= j < (self.nodes@[v as int]->Operation_0).planets@.len() ==> {
                let e = (#[trigger] (self.nodes@[v as int]->Operation_0).planets@[j]).1;
                &&& e < self.edges@.len()
                &&& self.edges@[e as int].from < self.nodes@.len()
            }
        } by {
            assert(self.op_ok(ops, k));
            let on = self.nodes@[self.operations@[k] as int]->Operation_0;
            assert forall|j: int| 0 <= j < on.planets@.len() implies ({
                let e = (#[trigger] on.planets@[j]).1;
                &&& e < self.edges@.len()
                &&& self.edges@[e as int].from < self.nodes@.len()
            }) by {
                assert(self.edge_ok(on.planets@[j].1 as int));
            }
        }
    }

    /// Solves the maximum flow of the network and reads the bundle off it.
    fn solve(&self, Ghost(tl): Ghost<Seq<PlanetStates>>, ops: &Vec<OptionalOperation>) -> (r: Vec<Operation>)
        requires
            self.describes(tl, ops@),
        ensures
            exists|flows: Seq<i128>, side: Seq<bool>|
                #[trigger] is_max_flow(self.nodes@.len(), self.ends(), self.caps(), 0, 1, flows, side)
                    && is_bundle(*self, ops@, flows, r@),
            forall|i: int| 0 <= i < r@.len() ==> (#[trigger] r@[i]).original < ops@.len(),
    {
        let mut ends: Vec<(usize, usize)> = Vec::new();
        let mut caps: Vec<i128> = Vec::new();
        let mut i: usize = 0;
        while i < self.edges.len()
            invariant
                i <= self.edges@.len(),
                ends@ == self.ends().subrange(0, i as int),
                caps@ == self.caps().subrange(0, i as int),
            decreases self.edges@.len() - i,
        {
            let e = self.edges[i];
            ends.push((e.from, e.to));
            let cap: i128 = match e.wanted {
                Some(w) => if w > 0 { w as i128 } else { 0 },
                None => UNBOUNDED,
            };
            caps.push(cap);
            proof {
                assert(ends@ =~= self.ends().subrange(0, i + 1));
                assert(caps@ =~= self.caps().subrange(0, i + 1));
            }
            i = i + 1;
        }
        proof {
            assert(ends@ =~= self.ends());
            assert(caps@ =~= self.caps());
            assert forall|e: int| 0 <= e < ends@.len() implies (#[trigger] ends@[e]).0 < self.nodes@.len() && ends@[e].1 < self.nodes@.len() by {
                assert(self.edge_ok(e));
            }
            assert forall|e: int| 0 <= e < caps@.len() && (#[trigger] ends@[e]).0 == 0 implies caps@[e] <= i64::MAX by {
                assert(self.edge_ok(e));
            }
            self.lemma_selectable(tl, ops@);
        }
        let (flows, side) = edmonds_karp(self.nodes.len(), &ends, &caps, 0, 1);
        let r = self.select(ops, &flows);
        assert(is_bundle(*self, ops@, flows@, r@));
        proof {
            lemma_chosen_bounds(*self, flows@, ops@.len());
            assert forall|i: int| 0 <= i < r@.len() implies (#[trigger] r@[i]).original < ops@.len() by {
                assert(r@[i].original == chosen(*self, flows@, ops@.len())[i]);
            }
        }
        r
    }

    fn edge_met_exec(&self, flows: &Vec<i128>, e: usize) -> (r: bool)
        requires
            e < self.edges@.len(),
            flows@.len() == self.edges@.len(),
        ensures
            r == edge_met(*self, flows@, e as int),
    {
        match self.edges[e].wanted {
            Some(w) => flows[e] == w as i128,
            None => true,
        }
    }

    fn node_met_exec(&self, flows: &Vec<i128>, u: usize) -> (r: bool)
        requires
            u < self.nodes@.len(),
            flows@.len() == self.edges@.len(),
        ensures
            r == node_met(*self, flows@, u as int),
    {
        match self.nodes[u].planet() {
            Some(pn) => {
                let mut i: usize = 0;
                while i < pn.required.len()
                    invariant
                        self.nodes@[u as int] == Node::Planet(*pn),
                        flows@.len() == self.edges@.len(),
                        i <= pn.required@.len(),
                        forall|r: int| 0 <= r < i ==> {
                            let e = #[trigger] pn.required@[r];
                            &&& e < self.edges@.len()
                            &&& edge_met(*self, flows@, e as int)
                        },
                    decreases pn.required@.len() - i,
                {
                    let e = pn.required[i];
                    if e >= self.edges.len() || !self.edge_met_exec(flows, e) {
                        assert((self.nodes@[u as int]->Planet_0).required@[i as int] == e);
                        return false;
                    }
                    i = i + 1;
                }
                true
            },
            None => false,
        }
    }

    /// Reads the bundle off a solved flow: every operation whose sink edge
    /// and supply nodes carry exactly what they must, with the flow each
    /// usable planet sends.
    pub fn select(&self, ops: &Vec<OptionalOperation>, flows: &Vec<i128>) -> (r: Vec<Operation>)
        requires
            self.selectable(ops@.len(), flows@.len()),
        ensures
            is_bundle(*self, ops@, flows@, r@),
    {
        let mut out: Vec<Operation> = Vec::new();
        let mut k: usize = 0;
        while k < self.operations.len()
            invariant
                self.selectable(ops@.len(), flows@.len()),
                k <= ops@.len(),
                out@.len() == chosen(*self, flows@, k as nat).len(),
                forall|i: int|
                    0 <= i < out@.len() ==> (#[trigger] out@[i]).original == chosen(*self, flows@, k as nat)[i]
                        && out@[i].solution@ == parts(*self, ops@, flows@, chosen(*self, flows@, k as nat)[i]),
            decreases ops@.len() - k,
        {
            let v = self.operations[k];
            assert(v == self.operations@[k as int]);
            if let Some(on) = self.nodes[v].op() {
                assert(*on == op_node(*self, k as int));
                let mut ok = self.edge_met_exec(flows, on.destination);
                let mut j: usize = 0;
                while j < on.planets.len()
                    invariant
                        self.selectable(ops@.len(), flows@.len()),
                        k < ops@.len(),
                        *on == op_node(*self, k as int),
                        j <= on.planets@.len(),
                        ok == (edge_met(*self, flows@, on.destination as int) && forall|q: int|
                            0 <= q < j ==> node_met(*self, flows@, self.edges@[(#[trigger] on.planets@[q]).1 as int].from as int)),
                    decreases on.planets@.len() - j,
                {
                    let e = on.planets[j].1;
                    let u = self.edges[e].from;
                    let met = self.node_met_exec(flows, u);
                    ok = ok && met;
                    j = j + 1;
                }
                assert(ok == accepted(*self, flows@, k as int));
                if ok {
                    let target = ops[k].target;
                    let mut solution: Vec<SolutionPart> = Vec::new();
                    let mut j: usize = 0;
                    while j < on.planets.len()
                        invariant
                            self.selectable(ops@.len(), flows@.len()),
                            k < ops@.len(),
                            *on == op_node(*self, k as int),
                            target == ops@[k as int].target,
                            j <= on.planets@.len(),
                            solution@ == parts(*self, ops@, flows@, k as int).subrange(0, j as int),
                        decreases on.planets@.len() - j,
                    {
                        let (source, e) = on.planets[j];
                        solution.push(SolutionPart { source, target, ships: flows[e] as i64 });
                        proof {
                            assert(solution@ =~= parts(*self, ops@, flows@, k as int).subrange(0, j + 1));
                        }
                        j = j + 1;
                    }
                    assert(solution@ =~= parts(*self, ops@, flows@, k as int));
                    out.push(Operation { original: k, solution });
                }
            }
            k = k + 1;
        }
        out
    }

    /// Adds the node of operation `op`: its edge to the sink must carry
    /// exactly the ships it needs, fed by one edge from the supply node of
    /// each usable planet at the index where its ships must depart.
    fn add_optional_operation(
        &mut self,
        tl: &[PlanetStates],
        Ghost(ops): Ghost<Seq<OptionalOperation>>,
        op: &OptionalOperation,
    )
        requires
            old(self).describes(tl@, ops),
            timelines_ok(tl@),
            operation_ok(tl@, *op),
        ensures
            final(self).describes(tl@, ops.push(*op)),
            old(self).extended_by(final(self)),
    {
        let n = op.usable_planets.len();
        let mut sources: Vec<usize> = Vec::new();
        let mut j: usize = 0;
        let ghost start = *self;
        while j < n
            invariant
                self.describes(tl@, ops),
                timelines_ok(tl@),
                operation_ok(tl@, *op),
                start.extended_by(self),
                n == op.usable_planets@.len(),
                j <= n,
                sources@.len() == j,
                forall|q: int| 0 <= q < j ==> self.feeds(*op, q, #[trigger] sources@[q]),
            decreases n - j,
        {
            let ub = op.usable_planets[j];
            let ghost before = *self;
            let ghost old_sources = sources@;
            let u = self.add_usable_planet(tl, Ghost(ops), ub.id, op.duration - ub.dist);
            sources.push(u);
            proof {
                lemma_extends_trans(&start, &before, self);
                assert forall|q: int| 0 <= q < j + 1 implies self.feeds(*op, q, #[trigger] sources@[q]) by {
                    let ub = op.usable_planets@[q];
                    if q < j {
                        assert(before.feeds(*op, q, old_sources[q]));
                        assert(before.planets@[ub.id as int]@.len() <= self.planets@[ub.id as int]@.len());
                        assert(self.planets@[ub.id as int]@[op.duration - ub.dist] == before.planets@[ub.id as int]@[op.duration - ub.dist]);
                    }
                }
            }
            j = j + 1;
        }
        let ghost mid = *self;
        let v = self.nodes.len();
        let k = self.operations.len();
        self.nodes.push(Node::Special(Type::Source));
        let d = self.add_edge(v, 1, Some(op.required_ships));
        let mut planets: Vec<(usize, usize)> = Vec::new();
        let mut j: usize = 0;
        while j < n
            invariant
                n == op.usable_planets@.len(),
                sources@.len() == n,
                j <= n,
                planets@.len() == j,
                self.edges@.len() == d + 1 + j,
                self.nodes@ == mid.nodes@.push(Node::Special(Type::Source)),
                self.planets@ == mid.planets@,
                self.operations@ == mid.operations@,
                self.source == mid.source,
                self.destination == mid.destination,
                self.blank_edge == mid.blank_edge,
                d == mid.edges@.len(),
                self.edges@.subrange(0, d + 1) == mid.edges@.push(Edge { from: v, to: 1, wanted: Some(op.required_ships) }),
                forall|q: int| 0 <= q < j ==> {
                    &&& (#[trigger] planets@[q]).0 == op.usable_planets@[q].id
                    &&& planets@[q].1 == d + 1 + q
                    &&& self.edges@[d + 1 + q] == Edge { from: sources@[q], to: v, wanted: None }
                },
            decreases n - j,
        {
            let ghost prev_edges = self.edges@;
            let e = self.add_edge(sources[j], v, None);
            planets.push((op.usable_planets[j].id, e));
            proof {
                assert(self.edges@.subrange(0, d + 1) =~= prev_edges.subrange(0, d + 1));
                assert(self.edges@[d + 1 + j] == Edge { from: sources@[j as int], to: v, wanted: None });
                assert forall|q: int| 0 <= q < j + 1 implies {
                    &&& (#[trigger] planets@[q]).0 == op.usable_planets@[q].id
                    &&& planets@[q].1 == d + 1 + q
                    &&& self.edges@[d + 1 + q] == Edge { from: sources@[q], to: v, wanted: None }
                } by {
                    if q < j {
                        assert(self.edges@[d + 1 + q] == prev_edges[d + 1 + q]);
                    }
                }
            }
            j = j + 1;
        }
        self.nodes.set(v, Node::Operation(OperationNode { operation: k, destination: d, planets }));
        self.operations.push(v);
        proof {
            let ops2 = ops.push(*op);
            assert forall|e: int| 0 <= e < mid.edges@.len() implies #[trigger] self.edges@[e] == mid.edges@[e] by {
                assert(self.edges@.subrange(0, d + 1)[e] == self.edges@[e]);
            }
            assert(self.edges@[d as int] == self.edges@.subrange(0, d + 1)[d as int]);
            assert forall|q: int| 0 <= q < n implies {
                let ub = op.usable_planets@[q];
                &&& 2 <= #[trigger] sources@[q] < mid.nodes@.len()
                &&& mid.nodes@[sources@[q] as int] is Planet
            } by {
                let ub = op.usable_planets@[q];
                assert(mid.feeds(*op, q, sources@[q]));
                assert(mid.supply_ok(tl@, ub.id as int, op.duration - ub.dist));
            }
            assert forall|e: int, kk: int|
                mid.edges@.len() <= e < self.edges@.len() && 0 <= kk < mid.operations@.len()
                    implies #[trigger] self.edges@[e].from != #[trigger] mid.operations@[kk]
                    && self.edges@[e].to != mid.operations@[kk] by {
                assert(mid.op_ok(ops, kk));
                if e > d {
                    let q = e - d - 1;
                    assert(planets@[q].1 == d + 1 + q);
                }
            }
            assert(mid.extended_by(self));
            mid.lemma_frame(self, tl@, ops);
            lemma_extends_trans(&start, &mid, self);
            assert forall|e: int| 0 <= e < self.edges@.len() implies #[trigger] self.edge_ok(e) by {
                if e < mid.edges@.len() {
                    assert(mid.edge_ok(e));
                } else if e > d {
                    let q = e - d - 1;
                    assert(planets@[q].1 == d + 1 + q);
                }
            }
            assert forall|kk: int| 0 <= kk < ops2.len() implies #[trigger] self.op_ok(ops2, kk) by {
                if kk < ops.len() {
                    assert(self.op_ok(ops, kk));
                    assert(ops2[kk] == ops[kk]);
                } else {
                    let on = self.nodes@[v as int]->Operation_0;
                    assert forall|e: int|
                        0 <= e < self.edges@.len() && ((#[trigger] self.edges@[e]).from == v || self.edges@[e].to == v)
                        implies d <= e <= d + n by {
                        if e < mid.edges@.len() {
                            assert(mid.edge_ok(e));
                        }
                    }
                    assert forall|q: int| #![trigger on.planets@[q]] 0 <= q < n implies {
                        let ub = op.usable_planets@[q];
                        &&& ub.id < self.planets@.len()
                        &&& ub.dist <= op.duration
                        &&& op.duration - ub.dist < self.planets@[ub.id as int]@.len()
                        &&& self.edges@[on.planets@[q].1 as int].from == self.planets@[ub.id as int]@[op.duration - ub.dist]
                    } by {
                        assert(planets@[q].1 == d + 1 + q);
                        assert(mid.feeds(*op, q, sources@[q]));
                    }
                }
            }
            assert forall|p: int, i: int|
                0 <= p < tl@.len() && 0 <= i < self.planets@[p]@.len() implies #[trigger] self.supply_ok(tl@, p, i) by {
            }
        }
    }
}

/// Edge `e` carries exactly what it must (any flow where nothing is wanted).
pub open spec fn edge_met(g: NodeOrchestrator, flows: Seq<i128>, e: int) -> bool {
    match g.edges@[e].wanted {
        Some(w) => flows[e] == w as i128,
        None => true,
    }
}

/// Node `u` is a supply node whose drains, and those of all earlier
/// indices of its planet, carry exactly what they must.
pub open spec fn node_met(g: NodeOrchestrator, flows: Seq<i128>, u: int) -> bool {
    &&& g.nodes@[u] is Planet
    &&& forall|r: int|
        0 <= r < (g.nodes@[u]->Planet_0).required@.len() ==> {
            let e = #[trigger] (g.nodes@[u]->Planet_0).required@[r];
            &&& e < g.edges@.len()
            &&& edge_met(g, flows, e as int)
        }
}

/// The operation node of trial operation `k`.
pub open spec fn op_node(g: NodeOrchestrator, k: int) -> OperationNode {
    g.nodes@[g.operations@[k] as int]->Operation_0
}

/// Operation `k` is feasible in the solved flow: its sink edge carries
/// exactly its requirement and every supply node feeding it is met.
pub open spec fn accepted(g: NodeOrchestrator, flows: Seq<i128>, k: int) -> bool {
    let on = op_node(g, k);
    &&& edge_met(g, flows, on.destination as int)
    &&& forall|j: int|
        0 <= j < on.planets@.len() ==> node_met(g, flows, g.edges@[(#[trigger] on.planets@[j]).1 as int].from as int)
}

/// The transfers of operation `k`: what each usable planet sends to the target.
pub open spec fn parts(g: NodeOrchestrator, ops: Seq<OptionalOperation>, flows: Seq<i128>, k: int) -> Seq<SolutionPart> {
    let on = op_node(g, k);
    Seq::new(
        on.planets@.len(),
        |j: int| SolutionPart { source: on.planets@[j].0, target: ops[k].target, ships: flows[on.planets@[j].1 as int] as i64 },
    )
}

/// Indices of the accepted operations among the first `n`, in order.
pub open spec fn chosen(g: NodeOrchestrator, flows: Seq<i128>, n: nat) -> Seq<int>
    decreases n,
{
    if n == 0 {
        seq![]
    } else if accepted(g, flows, n - 1) {
        chosen(g, flows, (n - 1) as nat).push(n - 1)
    } else {
        chosen(g, flows, (n - 1) as nat)
    }
}

proof fn lemma_chosen_bounds(g: NodeOrchestrator, flows: Seq<i128>, n: nat)
    ensures
        forall|i: int| 0 <= i < chosen(g, flows, n).len() ==> 0 <= #[trigger] chosen(g, flows, n)[i] < n,
    decreases n,
{
    if n > 0 {
        lemma_chosen_bounds(g, flows, (n - 1) as nat);
        let prev = chosen(g, flows, (n - 1) as nat);
        assert forall|i: int| 0 <= i < chosen(g, flows, n).len() implies 0 <= #[trigger] chosen(g, flows, n)[i] < n by {
            if i < prev.len() {
                assert(chosen(g, flows, n)[i] == prev[i]);
            }
        }
    }
}

/// `r` is the bundle of the solved flow: the accepted operations in trial
/// order, each with its transfers.
pub open spec fn is_bundle(g: NodeOrchestrator, ops: Seq<OptionalOperation>, flows: Seq<i128>, r: Seq<Operation>) -> bool {
    let c = chosen(g, flows, ops.len());
    &&& r.len() == c.len()
    &&& forall|i: int|
        0 <= i < r.len() ==> (#[trigger] r[i]).original == c[i] && r[i].solution@ == parts(g, ops, flows, c[i])
}

/// Builds the flow network of the trial operations over the timelines, solves
/// it, and returns the feasible bundle: the operations whose requirements and
/// supply chains are met exactly by the maximum flow, with their transfers.
pub fn try_oo(operations: &Vec<OptionalOperation>, tl: &[PlanetStates]) -> (r: Vec<Operation>)
    requires
        timelines_ok(tl@),
        forall|k: int| 0 <= k < operations@.len() ==> operation_ok(tl@, #[trigger] operations@[k]),
    ensures
        exists|g: NodeOrchestrator, flows: Seq<i128>, side: Seq<bool>|
            g.describes(tl@, operations@)
                && #[trigger] is_max_flow(g.nodes@.len(), g.ends(), g.caps(), 0, 1, flows, side)
                && is_bundle(g, operations@, flows, r@),
        forall|i: int| 0 <= i < r@.len() ==> (#[trigger] r@[i]).original < operations@.len(),
{
    let mut g = NodeOrchestrator::new(tl.len());
    let mut k: usize = 0;
    assert(operations@.subrange(0, 0) =~= seq![]);
    assert(g.describes(tl@, seq![]));
    while k < operations.len()
        invariant
            k <= operations@.len(),
            timelines_ok(tl@),
            forall|q: int| 0 <= q < operations@.len() ==> operation_ok(tl@, #[trigger] operations@[q]),
            g.describes(tl@, operations@.subrange(0, k as int)),
        decreases operations@.len() - k,
    {
        g.add_optional_operation(tl, Ghost(operations@.subrange(0, k as int)), &operations[k]);
        assert(operations@.subrange(0, k as int).push(operations@[k as int]) =~= operations@.subrange(0, k + 1));
        k = k + 1;
    }
    assert(operations@.subrange(0, k as int) =~= operations@);
    g.solve(Ghost(tl@), operations)
}

/// Ships of all the transfers, summed.
pub open spec fn total_ships(s: Seq<SolutionPart>) -> int
    decreases s.len(),
{
    if s.len() == 0 {
        0
    } else {
        total_ships(s.drop_last()) + s.last().ships
    }
}

/// Flow on the `t` edges that follow edge `d`, summed.
pub open spec fn flow_after(flows: Seq<i128>, d: int, t: nat) -> int
    decreases t,
{
    if t == 0 {
        0
    } else {
        flow_after(flows, d, (t - 1) as nat) + flows[d + t]
    }
}

proof fn lemma_flow_after_bounds(flows: Seq<i128>, d: int, t: nat, j: int)
    requires
        0 <= j < t,
        0 <= d,
        d + t < flows.len(),
        forall|e: int| 0 <= e < flows.len() ==> 0 <= #[trigger] flows[e],
    ensures
        0 <= flows[d + 1 + j] <= flow_after(flows, d, t),
        0 <= flow_after(flows, d, t),
    decreases t,
{
    if j < t - 1 {
        lemma_flow_after_bounds(flows, d, (t - 1) as nat, j);
        assert(0 <= flows[d + t]);
    } else {
        if t > 1 {
            lemma_flow_after_bounds(flows, d, (t - 1) as nat, 0);
        }
        assert(0 <= flows[d + t]);
        assert(flow_after(flows, d, t) == flow_after(flows, d, (t - 1) as nat) + flows[d + t]);
    }
}

proof fn lemma_op_net_out(
    g: NodeOrchestrator,
    tl: Seq<PlanetStates>,
    ops: Seq<OptionalOperation>,
    flows: Seq<i128>,
    k: int,
    m: nat,
)
    requires
        g.describes(tl, ops),
        0 <= k < ops.len(),
        flows.len() == g.edges@.len(),
        m <= g.edges@.len(),
    ensures
        ({
            let v = g.operations@[k] as int;
            let on = op_node(g, k);
            let d = on.destination as int;
            let l = on.planets@.len();
            &&& m <= d ==> net_out(g.ends(), flows, v, m) == 0
            &&& d < m <= d + 1 + l ==> net_out(g.ends(), flows, v, m) == flows[d] - flow_after(
                flows,
                d,
                (m - d - 1) as nat,
            )
            &&& d + 1 + l < m ==> net_out(g.ends(), flows, v, m) == flows[d] - flow_after(flows, d, l)
        }),
    decreases m,
{
    let v = g.operations@[k] as int;
    let on = op_node(g, k);
    let d = on.destination as int;
    let l = on.planets@.len();
    assert(g.op_ok(ops, k));
    if m > 0 {
        lemma_op_net_out(g, tl, ops, flows, k, (m - 1) as nat);
        let e = m - 1;
        assert(g.ends()[e] == (g.edges@[e].from, g.edges@[e].to));
        if e == d {
            assert(g.edges@[e].to == 1);
        } else if d < e <= d + l {
            let j = e - d - 1;
            assert(on.planets@[j].1 == e);
            let ub = ops[k].usable_planets@[j];
            assert(g.supply_ok(tl, ub.id as int, ops[k].duration - ub.dist));
            assert(g.edges@[e].from != v);
            assert(g.edges@[e].to == v);
        } else {
            assert(g.edges@[e].from != v && g.edges@[e].to != v);
        }
    }
}

proof fn lemma_total_ships(g: NodeOrchestrator, ops: Seq<OptionalOperation>, flows: Seq<i128>, k: int, t: nat)
    requires
        0 <= k < ops.len(),
        t <= op_node(g, k).planets@.len(),
        forall|j: int|
            0 <= j < op_node(g, k).planets@.len() ==> (#[trigger] op_node(g, k).planets@[j]).1 == op_node(g, k).destination + 1 + j,
        forall|j: int|
            0 <= j < op_node(g, k).planets@.len() ==> #[trigger] flows[op_node(g, k).destination + 1 + j] <= i64::MAX
                && 0 <= flows[op_node(g, k).destination + 1 + j],
    ensures
        total_ships(parts(g, ops, flows, k).subrange(0, t as int)) == flow_after(flows, op_node(g, k).destination as int, t),
    decreases t,
{
    let ps = parts(g, ops, flows, k);
    if t > 0 {
        lemma_total_ships(g, ops, flows, k, (t - 1) as nat);
        assert(ps.subrange(0, t as int).drop_last() =~= ps.subrange(0, t - 1));
        let j = t - 1;
        assert(op_node(g, k).planets@[j].1 == op_node(g, k).destination + 1 + j);
        assert(flows[op_node(g, k).destination + 1 + j] <= i64::MAX);
    }
}

/// Flow exactness: in any feasible flow of a trial network, the transfers of
/// an accepted operation add up to exactly the ships it requires, each one
/// the flow on its edge; and every supply node that feeds it has all the
/// drains of its chain met exactly.
pub proof fn lemma_flow_exactness(
    g: NodeOrchestrator,
    tl: Seq<PlanetStates>,
    ops: Seq<OptionalOperation>,
    flows: Seq<i128>,
    k: int,
)
    requires
        g.describes(tl, ops),
        is_flow(g.nodes@.len(), g.ends(), g.caps(), 0, 1, flows),
        0 <= k < ops.len(),
        accepted(g, flows, k),
    ensures
        total_ships(parts(g, ops, flows, k)) == ops[k].required_ships,
        forall|j: int|
            0 <= j < parts(g, ops, flows, k).len() ==> (#[trigger] parts(g, ops, flows, k)[j]).ships
                == flows[op_node(g, k).planets@[j].1 as int],
        forall|j: int|
            0 <= j < op_node(g, k).planets@.len() ==> node_met(
                g,
                flows,
                g.edges@[(#[trigger] op_node(g, k).planets@[j]).1 as int].from as int,
            ),
{
    let v = g.operations@[k] as int;
    let on = op_node(g, k);
    let d = on.destination as int;
    let l = on.planets@.len();
    assert(g.op_ok(ops, k));
    lemma_op_net_out(g, tl, ops, flows, k, g.edges@.len());
    assert(g.ends().len() == g.edges@.len());
    assert(net_out(g.ends(), flows, v, g.ends().len()) == 0);
    assert(flows[d] == ops[k].required_ships);
    assert forall|j: int| 0 <= j < l implies #[trigger] flows[d + 1 + j] <= i64::MAX && 0 <= flows[d + 1 + j] by {
        lemma_flow_after_bounds(flows, d, l, j);
    }
    assert forall|j: int| 0 <= j < l implies (#[trigger] on.planets@[j]).1 == d + 1 + j by {}
    lemma_total_ships(g, ops, flows, k, l);
    assert(parts(g, ops, flows, k).subrange(0, l as int) =~= parts(g, ops, flows, k));
    assert forall|j: int| 0 <= j < parts(g, ops, flows, k).len() implies (#[trigger] parts(g, ops, flows, k)[j]).ships
        == flows[on.planets@[j].1 as int] by {
        assert(on.planets@[j].1 == d + 1 + j);
    }
}

/// The timelines are materialised and their ship counts fit the network.
pub open spec fn timelines_ok(tl: Seq<PlanetStates>) -> bool {
    forall|p: int| 0 <= p < tl.len() ==> {
        &&& (#[trigger] tl[p]).predicted()
        &&& forall|i: int| 0 <= i < tl[p].future_seq().len() ==>
            -0x1000_0000_0000_0000 <= #[trigger] tl[p].future_seq()[i].ships <= 0x1000_0000_0000_0000
    }
}

/// Each usable planet of the operation is a known planet that can depart in time.
pub open spec fn operation_ok(tl: Seq<PlanetStates>, op: OptionalOperation) -> bool {
    forall|j: int| 0 <= j < op.usable_planets@.len() ==> {
        let ub = #[trigger] op.usable_planets@[j];
        &&& ub.id < tl.len()
        &&& ub.dist <= op.duration
        &&& op.duration - ub.dist < tl[ub.id as int].future_seq().len()
    }
}

} // verus!
