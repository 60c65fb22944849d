//! The mathematical model the index's contracts are stated in: valid neighbor lists, the
//! neighbor-selection rule's inputs, and a step-by-step account of the beam search.

use crate::distance::Distance;
use crate::index::NONE;
use crate::priority_queue::{closest_pos, furthest_pos, Closest, Furthest};
use crate::storage::{LabelT, StoredNode};
use vstd::prelude::*;

verus! {

/// A neighbor list is valid in a graph of `n` nodes when each slot is `NONE` or a node id, and
/// no node id occurs twice.
pub open spec fn valid_list(l: Seq<u32>, n: int) -> bool {
    &&& forall|j: int| 0 <= j < l.len() ==> l[j] == NONE || (l[j] as int) < n
    &&& forall|j: int, k: int|
        0 <= j < k < l.len() && l[j] != NONE ==> #[trigger] l[j] != #[trigger] l[k]
}

/// Whether `x` occurs in the neighbor list `l`.
pub open spec fn list_contains(l: Seq<u32>, x: u32) -> bool {
    exists|j: int| 0 <= j < l.len() && l[j] == x
}

/// Every neighbor list of the graph is valid.
pub open spec fn valid_graph<T>(g: Seq<StoredNode<u32, T>>) -> bool {
    forall|i: int| 0 <= i < g.len() ==> valid_list(#[trigger] g[i].nbrs, g.len() as int)
}

/// The number of non-`NONE` slots of a neighbor list.
pub open spec fn out_degree(l: Seq<u32>) -> nat {
    l.filter(|x: u32| x != NONE).len()
}

/// Whether node `u` has an entry in a closest-first queue's view.
pub open spec fn in_closest(s: Seq<Closest<u32>>, u: int) -> bool {
    exists|i: int| 0 <= i < s.len() && s[i].node == u
}

/// Whether node `u` has an entry in a furthest-first queue's view.
pub open spec fn in_furthest(s: Seq<Furthest<u32>>, u: int) -> bool {
    exists|i: int| 0 <= i < s.len() && s[i].node == u
}

/// The node ids of a closest-first queue's view, in the order the queue hands them out.
pub open spec fn pop_order(c: Seq<Closest<u32>>) -> Seq<u32> {
    Seq::new(c.len(), |i: int| c[c.len() - 1 - i].node)
}

/// `s` followed by as many `NONE` as make it `m` long.
pub open spec fn pad_none(s: Seq<u32>, m: nat) -> Seq<u32> {
    s + Seq::new((m - s.len()) as nat, |i: int| NONE)
}

/// The entries of `c` are of distinct nodes.
pub open spec fn distinct_nodes(c: Seq<Closest<u32>>) -> bool {
    forall|i: int, j: int| 0 <= i < j < c.len() ==> #[trigger] c[i].node != #[trigger] c[j].node
}

/// The ids of `s` are distinct.
pub open spec fn distinct_ids(s: Seq<u32>) -> bool {
    forall|i: int, j: int| 0 <= i < j < s.len() ==> #[trigger] s[i] != #[trigger] s[j]
}

/// The first `k` entries of `c` in the order a closest-first queue hands them out, each as the
/// node's label and its distance, no more than `c` holds.
pub open spec fn query_output<T>(g: Seq<StoredNode<u32, T>>, c: Seq<Closest<u32>>, k: nat) -> Seq<(LabelT, u128)> {
    let len = if k < c.len() { k } else { c.len() };
    Seq::new(len, |i: int| (g[c[c.len() - 1 - i].node as int].label, c[c.len() - 1 - i].dist))
}

/// The neighbor list `l` with each node id `x` replaced by `perm_inv[x]`; `NONE` stays.
pub open spec fn remap(l: Seq<u32>, perm_inv: Seq<usize>) -> Seq<u32> {
    Seq::new(l.len(), |j: int| if l[j] == NONE { NONE } else { perm_inv[l[j] as int] as u32 })
}

/// Node `n` with its neighbor ids renumbered by `perm_inv`.
pub open spec fn renumbered_node<T>(n: StoredNode<u32, T>, perm_inv: Seq<usize>) -> StoredNode<u32, T> {
    StoredNode { label: n.label, nbrs: remap(n.nbrs, perm_inv), data: n.data }
}

/// `g1` is `g0` with node `v` moved to position `perm_inv[v]` and its neighbor ids renumbered
/// by `perm_inv`.
pub open spec fn renumbered<T>(g0: Seq<StoredNode<u32, T>>, g1: Seq<StoredNode<u32, T>>, perm_inv: Seq<usize>) -> bool {
    &&& g1.len() == g0.len()
    &&& forall|v: int|
        0 <= v < g0.len() ==> #[trigger] g1[perm_inv[v] as int] == renumbered_node(g0[v], perm_inv)
}

/// Where a beam search stands: which nodes are visited, the candidates still to expand, the
/// best nodes found so far, and whether it has stopped.
pub struct BeamState {
    pub vis: Seq<bool>,
    pub cands: Seq<Closest<u32>>,
    pub work: Seq<Furthest<u32>>,
    pub stopped: bool,
}

/// The search state after looking at neighbor id `nbr`: an unvisited node is marked
/// visited and entered in both queues, and the furthest entry of the best nodes leaves when
/// there are more than `ef` of them.
pub open spec fn beam_visit<T, D: Distance<T>>(g: Seq<StoredNode<u32, T>>, metric: D, q: Seq<T>, st: BeamState, nbr: u32, ef: nat) -> BeamState {
    if nbr == NONE || st.vis[nbr as int] {
        st
    } else {
        let d = metric.spec_dist(q, g[nbr as int].data);
        let xf = Furthest { node: nbr, dist: d };
        let xc = Closest { node: nbr, dist: d };
        let w1 = st.work.insert(furthest_pos(st.work, d, 0), xf);
        BeamState {
            vis: st.vis.update(nbr as int, true),
            cands: st.cands.insert(closest_pos(st.cands, d, 0), xc),
            work: if w1.len() > ef { w1.drop_last() } else { w1 },
            stopped: st.stopped,
        }
    }
}

/// The search state after looking at the neighbor ids `nbrs[j..]` in order.
pub open spec fn beam_expand<T, D: Distance<T>>(g: Seq<StoredNode<u32, T>>, metric: D, q: Seq<T>, st: BeamState, nbrs: Seq<u32>, j: int, ef: nat) -> BeamState
    decreases nbrs.len() - j,
{
    if j < 0 || j >= nbrs.len() {
        st
    } else {
        beam_expand(g, metric, q, beam_visit(g, metric, q, st, nbrs[j], ef), nbrs, j + 1, ef)
    }
}

/// The search state after at most `fuel` rounds: each round takes the closest candidate,
/// stops if it is further than the worst of the best nodes, and otherwise expands it.
pub open spec fn beam_rounds<T, D: Distance<T>>(g: Seq<StoredNode<u32, T>>, metric: D, q: Seq<T>, st: BeamState, ef: nat, fuel: nat) -> BeamState
    decreases fuel,
{
    if fuel == 0 || st.stopped || st.cands.len() == 0 {
        st
    } else {
        let c = st.cands.last();
        let st1 = BeamState { cands: st.cands.drop_last(), ..st };
        if st.work.len() > 0 && c.dist > st.work.last().dist {
            BeamState { stopped: true, ..st1 }
        } else {
            beam_rounds(g, metric, q, beam_expand(g, metric, q, st1, g[c.node as int].nbrs, 0, ef), ef, (fuel - 1) as nat)
        }
    }
}

/// The search state at the start: only `entry` is visited, and it is in both queues.
pub open spec fn beam_start<T, D: Distance<T>>(g: Seq<StoredNode<u32, T>>, metric: D, q: Seq<T>, entry: int) -> BeamState {
    let d = metric.spec_dist(q, g[entry].data);
    BeamState {
        vis: Seq::new(g.len(), |u: int| u == entry),
        cands: seq![Closest { node: entry as u32, dist: d }],
        work: seq![Furthest { node: entry as u32, dist: d }],
        stopped: false,
    }
}

/// `e` is the entry point the strided scan picks for `q` with `samples` samples: among the
/// scanned ids, the first of those closest to `q`.
pub open spec fn is_entry_point<T, D: Distance<T>>(g: Seq<StoredNode<u32, T>>, metric: D, q: Seq<T>, e: int, samples: nat) -> bool {
    &&& 0 <= e < g.len()
    &&& e % init_step(g.len(), samples) == 0
    &&& forall|k: int|
        0 <= k < g.len() && k % init_step(g.len(), samples) == 0 ==> metric.spec_dist(q, g[e].data)
            <= metric.spec_dist(q, g[k].data)
    &&& forall|k: int|
        0 <= k < e && k % init_step(g.len(), samples) == 0 ==> metric.spec_dist(q, g[e].data) < metric.spec_dist(q, g[k].data)
}

/// The queue of candidates for repairing the full neighbor list of node `u` after `new_node`
/// with vector `new_data` was added: the new node, then the first `k` old neighbors in slot
/// order, each entered with its distance to `u`.
pub open spec fn repair_queue<T, D: Distance<T>>(
    g: Seq<StoredNode<u32, T>>,
    metric: D,
    u: int,
    new_node: u32,
    new_data: Seq<T>,
    k: nat,
) -> Seq<Closest<u32>>
    decreases k,
{
    if k == 0 {
        seq![Closest { node: new_node, dist: metric.spec_dist(new_data, g[u].data) }]
    } else {
        let c = repair_queue(g, metric, u, new_node, new_data, (k - 1) as nat);
        let v = g[u].nbrs[k - 1];
        let x = Closest { node: v, dist: metric.spec_dist(g[v as int].data, g[u].data) };
        c.insert(closest_pos(c, x.dist, 0), x)
    }
}

/// The repair queue of node `u` reads only nodes that a longer graph with the same prefix holds
/// unchanged.
pub proof fn lemma_repair_queue_prefix<T, D: Distance<T>>(
    g1: Seq<StoredNode<u32, T>>,
    g2: Seq<StoredNode<u32, T>>,
    metric: D,
    u: int,
    new_node: u32,
    new_data: Seq<T>,
    k: nat,
)
    requires
        0 <= u < g1.len() <= g2.len(),
        forall|x: int| 0 <= x < g1.len() ==> #[trigger] g2[x] == g1[x],
        k <= g1[u].nbrs.len(),
        forall|j: int| 0 <= j < g1[u].nbrs.len() ==> (#[trigger] g1[u].nbrs[j] as int) < g1.len(),
    ensures
        repair_queue(g1, metric, u, new_node, new_data, k) == repair_queue(g2, metric, u, new_node, new_data, k),
    decreases k,
{
    assert(g2[u] == g1[u]);
    if k > 0 {
        lemma_repair_queue_prefix(g1, g2, metric, u, new_node, new_data, (k - 1) as nat);
        let v = g1[u].nbrs[k - 1];
        assert(g2[v as int] == g1[v as int]);
    }
}

/// A repair queue holds the new node and the first `k` old neighbors, all nodes of the graph.
pub proof fn lemma_repair_queue_len<T, D: Distance<T>>(
    g: Seq<StoredNode<u32, T>>,
    metric: D,
    u: int,
    new_node: u32,
    new_data: Seq<T>,
    k: nat,
)
    requires
        0 <= u < g.len(),
        (new_node as int) < g.len(),
        k <= g[u].nbrs.len(),
        forall|j: int| 0 <= j < g[u].nbrs.len() ==> (#[trigger] g[u].nbrs[j] as int) < g.len(),
    ensures
        repair_queue(g, metric, u, new_node, new_data, k).len() == k + 1,
        forall|i: int|
            0 <= i < repair_queue(g, metric, u, new_node, new_data, k).len() ==> (#[trigger] repair_queue(
                g,
                metric,
                u,
                new_node,
                new_data,
                k,
            )[i].node as int) < g.len(),
    decreases k,
{
    if k > 0 {
        lemma_repair_queue_len(g, metric, u, new_node, new_data, (k - 1) as nat);
        let c = repair_queue(g, metric, u, new_node, new_data, (k - 1) as nat);
        let v = g[u].nbrs[k - 1];
        let x = Closest { node: v, dist: metric.spec_dist(g[v as int].data, g[u].data) };
        let p = closest_pos(c, x.dist, 0);
        lemma_closest_pos_range(c, x.dist, 0);
        let r = c.insert(p, x);
        assert forall|i: int| 0 <= i < r.len() implies (#[trigger] r[i].node as int) < g.len() by {
            if i < p {
                assert(r[i] == c[i]);
            } else if i > p {
                assert(r[i] == c[i - 1]);
            }
        }
    }
}

proof fn lemma_closest_pos_range<T>(s: Seq<Closest<T>>, d: u128, i: int)
    requires
        0 <= i <= s.len(),
    ensures
        i <= closest_pos(s, d, i) <= s.len(),
    decreases s.len() - i,
{
    if i < s.len() && s[i].dist > d {
        lemma_closest_pos_range(s, d, i + 1);
    }
}

/// The first free slot of `l` from slot `i` on, or the length of `l` when there is none.
pub open spec fn first_free(l: Seq<u32>, i: int) -> int
    decreases l.len() - i,
{
    if 0 <= i < l.len() && l[i] != NONE {
        first_free(l, i + 1)
    } else {
        i
    }
}

/// The beam width actually kept: at least one entry is always kept.
pub open spec fn beam_width(ef: nat) -> nat {
    if ef == 0 {
        1
    } else {
        ef
    }
}

/// The stride of the entry-point scan over `n` nodes.
pub open spec fn init_step(n: nat, samples: nat) -> int {
    if n / samples < 1 {
        1
    } else {
        (n / samples) as int
    }
}

} // verus!
