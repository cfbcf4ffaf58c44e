use vstd::prelude::*;

use rs_graph::maxflow::edmondskarp;
use rs_graph::traits::IndexGraph;
use rs_graph::{Buildable, Builder, LinkedListGraph};

verus! {

/// Capacity that stands for "unbounded" in a flow problem.
pub const UNBOUNDED: i128 = i128::MAX;

/// Net flow leaving node `v` over the first `m` edges (self loops count zero).
pub open spec fn net_out(ends: Seq<(usize, usize)>, flows: Seq<i128>, v: int, m: nat) -> int
    decreases m,
{
    if m == 0 {
        0
    } else {
        let e = m - 1;
        net_out(ends, flows, v, (m - 1) as nat) + (if ends[e].0 == v {
            flows[e] as int
        } else {
            0
        }) - (if ends[e].1 == v {
            flows[e] as int
        } else {
            0
        })
    }
}

/// The edges and terminals describe a network on `n` nodes.
pub open spec fn network_ok(n: nat, ends: Seq<(usize, usize)>, src: int, snk: int) -> bool {
    &&& 0 <= src < n
    &&& 0 <= snk < n
    &&& src != snk
    &&& forall|e: int| 0 <= e < ends.len() ==> (#[trigger] ends[e]).0 < n && ends[e].1 < n
}

/// `flows` is a feasible flow: within the capacities, and balanced at every
/// node but the source and the sink.
pub open spec fn is_flow(
    n: nat,
    ends: Seq<(usize, usize)>,
    caps: Seq<i128>,
    src: int,
    snk: int,
    flows: Seq<i128>,
) -> bool {
    &&& flows.len() == ends.len()
    &&& forall|e: int| 0 <= e < ends.len() ==> 0 <= #[trigger] flows[e] <= caps[e]
    &&& forall|v: int|
        0 <= v < n && v != src && v != snk ==> #[trigger] net_out(ends, flows, v, ends.len()) == 0
}

/// `side` is a cut that proves `flows` maximal: the source is on it, the sink
/// is not, every edge leaving it is saturated and every edge entering it is empty.
pub open spec fn is_min_cut(
    n: nat,
    ends: Seq<(usize, usize)>,
    caps: Seq<i128>,
    src: int,
    snk: int,
    flows: Seq<i128>,
    side: Seq<bool>,
) -> bool {
    &&& side.len() == n
    &&& side[src]
    &&& !side[snk]
    &&& forall|e: int|
        0 <= e < ends.len() && side[(#[trigger] ends[e]).0 as int] && !side[ends[e].1 as int]
            ==> flows[e] == caps[e]
    &&& forall|e: int|
        0 <= e < ends.len() && !side[(#[trigger] ends[e]).0 as int] && side[ends[e].1 as int]
            ==> flows[e] == 0
}

/// A maximum flow together with the cut that certifies it.
pub open spec fn is_max_flow(
    n: nat,
    ends: Seq<(usize, usize)>,
    caps: Seq<i128>,
    src: int,
    snk: int,
    flows: Seq<i128>,
    side: Seq<bool>,
) -> bool {
    is_flow(n, ends, caps, src, snk, flows) && is_min_cut(n, ends, caps, src, snk, flows, side)
}

/// Relies on rs_graph::maxflow::edmondskarp over a LinkedListGraph built with
/// nodes `0..n` and edges in the given order: it returns the flow of every
/// edge, and the nodes still reachable from the source in the final residual
/// network, which form a minimum cut. Capacities must not be negative, and
/// those of the edges leaving the source stay below `i64::MAX` so that no
/// augmentation overflows.
#[verifier::external_body]
pub(crate) fn edmonds_karp(n: usize, ends: &Vec<(usize, usize)>, caps: &Vec<i128>, src: usize, snk: usize) -> (r: (Vec<i128>, Vec<bool>))
    requires
        network_ok(n as nat, ends@, src as int, snk as int),
        ends@.len() > 0,
        caps@.len() == ends@.len(),
        forall|e: int| 0 <= e < caps@.len() ==> 0 <= #[trigger] caps@[e],
        forall|e: int| 0 <= e < caps@.len() && (#[trigger] ends@[e]).0 == src ==> caps@[e] <= i64::MAX,
    ensures
        is_max_flow(n as nat, ends@, caps@, src as int, snk as int, r.0@, r.1@),
{
    let mut b = LinkedListGraph::<usize>::new_builder();
    let nodes = b.add_nodes(n);
    for &(u, v) in ends.iter() {
        b.add_edge(nodes[u], nodes[v]);
    }
    let g = b.into_graph();
    let (_, flow, cut) = edmondskarp(&g, g.id2node(src), g.id2node(snk), |e| caps[g.edge_id(e)]);
    let mut flows = vec![0i128; ends.len()];
    for (e, f) in flow { flows[g.edge_id(e)] = f; }
    let mut side = vec![false; n];
    for u in cut { side[g.node_id(u)] = true; }
    (flows, side)
}

/// Net flow out of every node among the first `k`, summed.
pub open spec fn total_net(ends: Seq<(usize, usize)>, flows: Seq<i128>, m: nat, k: nat) -> int
    decreases k,
{
    if k == 0 {
        0
    } else {
        total_net(ends, flows, m, (k - 1) as nat) + net_out(ends, flows, k - 1, m)
    }
}

proof fn lemma_total_net_step(ends: Seq<(usize, usize)>, flows: Seq<i128>, m: nat, k: nat)
    requires
        0 < m <= ends.len(),
    ensures
        total_net(ends, flows, m, k) == total_net(ends, flows, (m - 1) as nat, k) + (if ends[m
            - 1].0 < k {
            flows[m - 1] as int
        } else {
            0
        }) - (if ends[m - 1].1 < k {
            flows[m - 1] as int
        } else {
            0
        }),
    decreases k,
{
    if k > 0 {
        lemma_total_net_step(ends, flows, m, (k - 1) as nat);
    }
}

proof fn lemma_total_net_zero(ends: Seq<(usize, usize)>, flows: Seq<i128>, m: nat, n: nat)
    requires
        m <= ends.len(),
        forall|e: int| 0 <= e < ends.len() ==> (#[trigger] ends[e]).0 < n && ends[e].1 < n,
    ensures
        total_net(ends, flows, m, n) == 0,
    decreases m,
{
    if m == 0 {
        lemma_total_net_empty(ends, flows, n);
    } else {
        lemma_total_net_zero(ends, flows, (m - 1) as nat, n);
        lemma_total_net_step(ends, flows, m, n);
        assert(ends[m - 1].0 < n && ends[m - 1].1 < n);
    }
}

proof fn lemma_total_net_empty(ends: Seq<(usize, usize)>, flows: Seq<i128>, k: nat)
    ensures
        total_net(ends, flows, 0, k) == 0,
    decreases k,
{
    if k > 0 {
        lemma_total_net_empty(ends, flows, (k - 1) as nat);
    }
}

proof fn lemma_total_net_terminals(
    n: nat,
    ends: Seq<(usize, usize)>,
    caps: Seq<i128>,
    src: int,
    snk: int,
    flows: Seq<i128>,
    k: nat,
)
    requires
        k <= n,
        0 <= src,
        0 <= snk,
        src != snk,
        is_flow(n, ends, caps, src, snk, flows),
    ensures
        total_net(ends, flows, ends.len(), k) == (if src < k {
            net_out(ends, flows, src, ends.len())
        } else {
            0
        }) + (if snk < k {
            net_out(ends, flows, snk, ends.len())
        } else {
            0
        }),
    decreases k,
{
    if k > 0 {
        lemma_total_net_terminals(n, ends, caps, src, snk, flows, (k - 1) as nat);
        let v = k - 1;
        if v != src && v != snk {
            assert(net_out(ends, flows, v, ends.len()) == 0);
        }
    }
}

/// Conservation: in any feasible flow, what leaves the source (net) is what
/// reaches the sink (net).
pub proof fn lemma_conservation(
    n: nat,
    ends: Seq<(usize, usize)>,
    caps: Seq<i128>,
    src: int,
    snk: int,
    flows: Seq<i128>,
)
    requires
        network_ok(n, ends, src, snk),
        is_flow(n, ends, caps, src, snk, flows),
    ensures
        net_out(ends, flows, src, ends.len()) == -net_out(ends, flows, snk, ends.len()),
{
    lemma_total_net_zero(ends, flows, ends.len(), n);
    lemma_total_net_terminals(n, ends, caps, src, snk, flows, n);
}

} // verus!
