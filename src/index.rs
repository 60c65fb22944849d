use crate::distance::{Distance, EuclideanDistance};
use crate::model::{
    beam_expand, beam_rounds, beam_start, beam_visit, beam_width, distinct_ids, distinct_nodes,
    first_free, in_closest, in_furthest, init_step, is_entry_point, lemma_repair_queue_len,
    lemma_repair_queue_prefix, list_contains, out_degree, pad_none, pop_order, query_output, remap,
    renumbered, renumbered_node, repair_queue, valid_graph, valid_list, BeamState,
};
use crate::priority_queue::{
    as_closest, closest_sorted, furthest_sorted, Closest, ClosestQueue, Furthest, FurthestQueue,
};
use crate::reordering::{is_permutation, valid_adjacency, Reordering};
use crate::storage::{node_size_of, InMemStorage, LabelT, StoredNode};
use std::collections::HashSet;
use vstd::prelude::*;

verus! {

broadcast use vstd::std_specs::hash::group_hash_axioms;

/// The neighbor id that marks an unused neighbor slot.
pub const NONE: u32 = 0xffff_ffff;

/// How many evenly spaced nodes the entry-point scan looks at.
pub const NUM_INITIALIZATIONS: usize = 100;

/// An index over integer vectors under the Euclidean distance.
pub type IndexEuclidean = Index<i32, EuclideanDistance>;

/// Why a call on an index was refused.
pub enum IndexError {
    /// The vector had the wrong length: `(expected, got)`.
    DimensionMismatch(usize, usize),
    /// A reordering strategy returned something other than a permutation of the node ids.
    InvalidPermutation,
}

/// A graph index over vectors of `T`, compared by the distance `D`.
pub struct Index<T, D> {
    graph: InMemStorage<u32, T>,
    distance_fn: D,
}

impl<T: Copy, D: Distance<T>> View for Index<T, D> {
    type V = Seq<StoredNode<u32, T>>;

    closed spec fn view(&self) -> Seq<StoredNode<u32, T>> {
        self.graph@
    }
}

impl<T: Copy, D: Distance<T>> Index<T, D> {
    /// The out-degree cap.
    pub closed spec fn spec_max_nbrs(&self) -> nat {
        self.graph.spec_max_nbrs()
    }

    /// The length of every vector in the index.
    pub closed spec fn spec_data_dim(&self) -> nat {
        self.graph.spec_data_dim()
    }

    /// The distance function.
    pub closed spec fn metric(&self) -> D {
        self.distance_fn
    }

    /// The distance from `q` to the vector of node `u`.
    pub open spec fn dist_to(&self, q: Seq<T>, u: int) -> u128 {
        self.metric().spec_dist(q, self@[u].data)
    }

    /// The index is well formed: storage slots have their configured shape, every neighbor list
    /// is valid, node ids fit below `NONE`, and a lone node has no neighbors.
    pub closed spec fn wf(&self) -> bool {
        &&& self.graph.wf()
        &&& valid_graph(self.graph@)
        &&& self.graph@.len() < NONE
        &&& forall|i: int|
            0 <= i < self.graph@.len() ==> #[trigger] self.graph@[i].nbrs.len()
                == self.graph.spec_max_nbrs() && self.graph@[i].data.len()
                == self.graph.spec_data_dim()
        &&& self.graph@.len() == 1 ==> forall|j: int|
            0 <= j < self.graph@[0].nbrs.len() ==> self.graph@[0].nbrs[j] == NONE
    }

    /// Node ids of a well-formed index fit below `NONE`, so each is a valid `u32` neighbor id.
    pub proof fn lemma_len_below_none(&self)
        requires
            self.wf(),
        ensures
            self@.len() < NONE,
    {
    }

    /// Out-degree bound: in a well-formed index, which every `insert` leaves behind, every
    /// neighbor list has `max_nbrs` slots, at most `max_nbrs` of them used, and no node id twice.
    pub proof fn lemma_out_degree_bound(&self)
        requires
            self.wf(),
        ensures
            forall|i: int|
                0 <= i < self@.len() ==> #[trigger] self@[i].nbrs.len() == self.spec_max_nbrs()
                    && out_degree(self@[i].nbrs) <= self.spec_max_nbrs()
                    && forall|j: int, k: int|
                    0 <= j < k < self@[i].nbrs.len() && self@[i].nbrs[j] != NONE ==> self@[i].nbrs[j] != self@[i].nbrs[k],
    {
        assert forall|i: int| 0 <= i < self@.len() implies #[trigger] self@[i].nbrs.len() == self.spec_max_nbrs()
            && out_degree(self@[i].nbrs) <= self.spec_max_nbrs()
            && forall|j: int, k: int|
            0 <= j < k < self@[i].nbrs.len() && self@[i].nbrs[j] != NONE ==> self@[i].nbrs[j] != self@[i].nbrs[k] by {
            self@[i].nbrs.lemma_filter_len(|x: u32| x != NONE);
            assert(valid_list(self@[i].nbrs, self@.len() as int));
        }
    }


    /// An empty index.
    pub fn new(max_nbrs: usize, data_dim: usize, capacity: usize, distance_fn: D) -> (r: Self)
        requires
            node_size_of::<u32, T>(max_nbrs as int, data_dim as int) <= usize::MAX,
        ensures
            r.wf(),
            r@.len() == 0,
            r.spec_max_nbrs() == max_nbrs,
            r.spec_data_dim() == data_dim,
            r.metric() == distance_fn,
    {
        let graph = InMemStorage::<u32, T>::new(max_nbrs, data_dim, capacity);
        Index { graph, distance_fn }
    }

    /// The number of nodes.
    pub fn len(&self) -> (r: usize)
        ensures
            r == self@.len(),
    {
        self.graph.len()
    }

    /// The length of the vectors this index holds.
    pub fn data_dim(&self) -> (r: usize)
        ensures
            r == self.spec_data_dim(),
    {
        self.graph.data_dim()
    }

    /// The out-degree cap.
    pub fn max_nbrs(&self) -> (r: usize)
        ensures
            r == self.spec_max_nbrs(),
    {
        self.graph.max_nbrs()
    }

    /// The label of node `node`.
    pub fn label(&self, node: usize) -> (r: LabelT)
        requires
            self.wf(),
            node < self@.len(),
        ensures
            r == self@[node as int].label,
    {
        self.graph.label(node)
    }

    /// The neighbor list of node `node`.
    pub fn nbrs(&self, node: usize) -> (r: &[u32])
        requires
            self.wf(),
            node < self@.len(),
        ensures
            r@ == self@[node as int].nbrs,
    {
        self.graph.nbrs(node)
    }

    /// The vector of node `node`.
    pub fn data(&self, node: usize) -> (r: &[T])
        requires
            self.wf(),
            node < self@.len(),
        ensures
            r@ == self@[node as int].data,
    {
        self.graph.data(node)
    }

    fn dist(&self, a: &[T], b: &[T]) -> (r: u128)
        requires
            a@.len() == b@.len(),
        ensures
            r == self.metric().spec_dist(a@, b@),
    {
        self.distance_fn.call(a, b)
    }

    /// `vis` witnesses that `r` is what a beam search from `entry` towards `q` may return:
    /// `vis` holds the entry and the entries of `r`; the visited nodes missing from `r` are no
    /// closer than any entry of `r`, and there are such nodes only when `r` is full; and every
    /// visited node no further than the worst entry of `r` has all its neighbors visited.
    pub open spec fn beam_witness(
        &self,
        q: Seq<T>,
        entry: int,
        ef: nat,
        r: Seq<Closest<u32>>,
        vis: Set<int>,
    ) -> bool {
        &&& vis.contains(entry)
        &&& forall|u: int| #[trigger] vis.contains(u) ==> 0 <= u < self@.len()
        &&& forall|i: int| 0 <= i < r.len() ==> vis.contains(#[trigger] r[i].node as int)
        &&& forall|u: int, i: int|
            #![trigger vis.contains(u), r[i]]
            vis.contains(u) && !in_closest(r, u) && 0 <= i < r.len() ==> self.dist_to(q, u)
                >= r[i].dist
        &&& (exists|u: int| vis.contains(u) && !in_closest(r, u)) ==> r.len() == beam_width(ef)
        &&& forall|u: int, j: int|
            vis.contains(u) && r.len() > 0 && self.dist_to(q, u) <= r[0].dist && 0 <= j
                < self@[u].nbrs.len() && #[trigger] self@[u].nbrs[j] != NONE ==> vis.contains(
                self@[u].nbrs[j] as int,
            )
    }

    /// `r` is a result of a beam search from `entry` towards `q` of width `ef`: entries of
    /// distinct nodes with their distances to `q`, closest last, between one and the beam width
    /// of them, and the best of some set of visited nodes that is closed under expansion.
    pub open spec fn beam_result(&self, q: Seq<T>, entry: int, ef: nat, r: Seq<Closest<u32>>) -> bool {
        &&& closest_sorted(r)
        &&& 1 <= r.len() <= beam_width(ef)
        &&& forall|i: int|
            0 <= i < r.len() ==> (#[trigger] r[i].node as int) < self@.len() && r[i].dist
                == self.dist_to(q, r[i].node as int)
        &&& forall|i: int, j: int|
            0 <= i < j < r.len() ==> #[trigger] r[i].node != #[trigger] r[j].node
        &&& exists|vis: Set<int>| self.beam_witness(q, entry, ef, r, vis)
    }

    /// Entries of `c` are visited nodes with their distances to `q`.
    pub open spec fn closest_entries_ok(&self, q: Seq<T>, vis: Seq<bool>, c: Seq<Closest<u32>>) -> bool {
        forall|i: int|
            0 <= i < c.len() ==> (#[trigger] c[i].node as int) < self@.len() && vis[c[i].node as int]
                && c[i].dist == self.dist_to(q, c[i].node as int)
    }

    /// Entries of `w` are distinct visited nodes with their distances to `q`, between one and
    /// `eff` of them; the visited nodes missing from `w` are no closer than any entry, and there
    /// are such nodes only when `w` holds `eff` entries.
    pub open spec fn worklist_ok(&self, q: Seq<T>, vis: Seq<bool>, w: Seq<Furthest<u32>>, eff: nat) -> bool {
        &&& furthest_sorted(w)
        &&& forall|i: int|
            0 <= i < w.len() ==> (#[trigger] w[i].node as int) < self@.len() && vis[w[i].node as int]
                && w[i].dist == self.dist_to(q, w[i].node as int)
        &&& forall|i: int, j: int| 0 <= i < j < w.len() ==> #[trigger] w[i].node != #[trigger] w[j].node
        &&& 1 <= w.len() <= eff
        &&& forall|u: int, i: int|
            #![trigger vis[u], w[i]]
            0 <= u < self@.len() && vis[u] && !in_furthest(w, u) && 0 <= i < w.len()
                ==> self.dist_to(q, u) >= w[i].dist
        &&& (exists|u: int| 0 <= u < self@.len() && vis[u] && !in_furthest(w, u)) ==> w.len() == eff
    }

    /// Every visited node that has no entry in `c` and is not `skip` has all its neighbors visited.
    pub open spec fn expanded_ok(&self, vis: Seq<bool>, c: Seq<Closest<u32>>, skip: int) -> bool {
        forall|u: int, j: int|
            0 <= u < self@.len() && vis[u] && !in_closest(c, u) && u != skip && 0 <= j
                < self@[u].nbrs.len() && #[trigger] self@[u].nbrs[j] != NONE ==> vis[self@[u].nbrs[j] as int]
    }

    /// One newly visited neighbor keeps the search's bookkeeping true.
    proof fn lemma_beam_step(
        &self,
        q: Seq<T>,
        eff: nat,
        ef: nat,
        x: int,
        c: int,
        vis0: Seq<bool>,
        vis1: Seq<bool>,
        c0: Seq<Closest<u32>>,
        c1: Seq<Closest<u32>>,
        w0: Seq<Furthest<u32>>,
        w1: Seq<Furthest<u32>>,
        w2: Seq<Furthest<u32>>,
        xc: Closest<u32>,
        xf: Furthest<u32>,
    )
        requires
            self.wf(),
            xc.node as int == x && xc.dist == self.dist_to(q, x),
            xf.node as int == x && xf.dist == self.dist_to(q, x),
            eff == beam_width(ef),
            0 <= x < self@.len(),
            vis0.len() == self@.len(),
            !vis0[x],
            vis1 == vis0.update(x, true),
            self.closest_entries_ok(q, vis0, c0),
            self.worklist_ok(q, vis0, w0, eff),
            self.expanded_ok(vis0, c0, c),
            exists|p: int| 0 <= p <= c0.len() && c1 == c0.insert(p, xc),
            furthest_sorted(w1),
            exists|p: int|
                0 <= p <= w0.len() && w1 == w0.insert(p, xf),
            w1.len() > ef ==> w2 == w1.drop_last(),
            w1.len() <= ef ==> w2 == w1,
            furthest_sorted(w2),
        ensures
            self.closest_entries_ok(q, vis1, c1),
            self.worklist_ok(q, vis1, w2, eff),
            self.expanded_ok(vis1, c1, c),
            forall|u: int| 0 <= u < self@.len() && in_furthest(w0, u) && !in_furthest(w2, u) ==> self.dist_to(q, u) >= w2.last().dist,
    {
        let n = self@.len() as int;
        let pc = choose|p: int| 0 <= p <= c0.len() && c1 == c0.insert(p, xc);
        let pw = choose|p: int| 0 <= p <= w0.len() && w1 == w0.insert(p, xf);
        assert(x as u32 as int == x);
        assert forall|i: int| 0 <= i < c1.len() implies (#[trigger] c1[i].node as int) < n && vis1[c1[i].node as int]
            && c1[i].dist == self.dist_to(q, c1[i].node as int) by {
            if i > pc {
                assert(c1[i] == c0[i - 1]);
            } else if i < pc {
                assert(c1[i] == c0[i]);
            }
        }
        assert(in_closest(c1, x)) by {
            assert(c1[pc].node == x);
        }
        assert forall|u: int| #[trigger] in_closest(c0, u) implies in_closest(c1, u) by {
            let i = choose|i: int| 0 <= i < c0.len() && c0[i].node == u;
            if i < pc {
                assert(c1[i] == c0[i]);
            } else {
                assert(c1[i + 1] == c0[i]);
            }
        }
        // The worklist after the insertion.
        assert forall|i: int| 0 <= i < w1.len() implies (#[trigger] w1[i].node as int) < n && vis1[w1[i].node as int]
            && w1[i].dist == self.dist_to(q, w1[i].node as int) && (i != pw ==> w1[i].node != x) by {
            if i > pw {
                assert(w1[i] == w0[i - 1]);
            } else if i < pw {
                assert(w1[i] == w0[i]);
            }
        }
        assert forall|i: int, j: int| 0 <= i < j < w1.len() implies #[trigger] w1[i].node != #[trigger] w1[j].node by {
            if i != pw && j != pw {
                let i0 = if i < pw { i } else { i - 1 };
                let j0 = if j < pw { j } else { j - 1 };
                assert(w1[i] == w0[i0]);
                assert(w1[j] == w0[j0]);
            }
        }
        assert forall|u: int| #[trigger] in_furthest(w0, u) implies in_furthest(w1, u) by {
            let i = choose|i: int| 0 <= i < w0.len() && w0[i].node == u;
            if i < pw {
                assert(w1[i] == w0[i]);
            } else {
                assert(w1[i + 1] == w0[i]);
            }
        }
        assert(in_furthest(w1, x)) by {
            assert(w1[pw].node == x);
        }
        assert forall|u: int| #[trigger] in_furthest(w1, u) implies in_furthest(w2, u) || u == w1.last().node by {
            let i = choose|i: int| 0 <= i < w1.len() && w1[i].node == u;
            if i < w2.len() {
                assert(w2[i] == w1[i]);
            }
        }
        if w1.len() > ef {
            // The evicted entry is the furthest one.
            assert(w1.last() == w1[w1.len() - 1]);
            assert forall|u: int, i: int| #![trigger vis1[u], w2[i]] 0 <= u < n && vis1[u] && !in_furthest(w2, u) && 0 <= i < w2.len()
                implies self.dist_to(q, u) >= w2[i].dist by {
                assert(w2[i] == w1[i]);
                if in_furthest(w1, u) {
                    let k = choose|k: int| 0 <= k < w1.len() && w1[k].node == u;
                    if k < w2.len() {
                        assert(w2[k] == w1[k]);
                        assert(in_furthest(w2, u));
                    }
                    assert(w1[k].dist >= w1[i].dist);
                } else {
                    assert(u != x);
                    assert(!in_furthest(w0, u));
                    // Every entry of w2 is an old entry, or the new one with a distance no
                    // larger than the evicted old one.
                    if i == pw {
                        assert(w1.last() != xf || w1.len() - 1 == pw);
                        if w0.len() > 0 {
                            let lastk = w1.len() - 1;
                            assert(w1[lastk] == w0[lastk - 1]);
                            assert(self.dist_to(q, u) >= w0[lastk - 1].dist);
                        }
                    } else {
                        let i0 = if i < pw { i } else { i - 1 };
                        assert(w1[i] == w0[i0]);
                    }
                }
            }
        } else {
            assert(w2 == w1);
            assert forall|u: int| 0 <= u < n && vis1[u] implies in_furthest(w2, u) by {
                if u != x && !in_furthest(w0, u) {
                    assert(w0.len() == eff);
                }
            }
        }
        assert forall|u: int, j: int|
            0 <= u < n && vis1[u] && !in_closest(c1, u) && u != c && 0 <= j < self@[u].nbrs.len()
                && #[trigger] self@[u].nbrs[j] != NONE implies vis1[self@[u].nbrs[j] as int] by {
            assert(u != x);
            assert(!in_closest(c0, u));
            assert(valid_list(self@[u].nbrs, n));
        }
        assert forall|i: int| 0 <= i < w2.len() implies (#[trigger] w2[i].node as int) < n && vis1[w2[i].node as int]
            && w2[i].dist == self.dist_to(q, w2[i].node as int) by {
            assert(w2[i] == w1[i]);
        }
        assert forall|i: int, j: int| 0 <= i < j < w2.len() implies #[trigger] w2[i].node != #[trigger] w2[j].node by {
            assert(w2[i] == w1[i]);
            assert(w2[j] == w1[j]);
        }
        assert forall|u: int| 0 <= u < n && in_furthest(w0, u) && !in_furthest(w2, u) implies self.dist_to(q, u) >= w2.last().dist by {
            assert(in_furthest(w1, u));
            assert(u == w1.last().node);
            assert(w1.last() == w1[w1.len() - 1]);
            assert(w2.last() == w1[w1.len() - 2]);
        }
    }

    /// What a beam search from `entry` towards `q` with width `ef` returns: the best nodes of
    /// its final state, closest last. The rounds needed never exceed `(n + 1)^2`.
    pub open spec fn beam_run(&self, q: Seq<T>, entry: int, ef: nat) -> Seq<Closest<u32>> {
        let n = self@.len();
        as_closest(beam_rounds(self@, self.metric(), q, beam_start(self@, self.metric(), q, entry), ef, ((n + 1) * (n + 1)) as nat).work)
    }

    /// Greedy best-first search from `entry` that keeps the `ef` best nodes seen, and stops when
    /// the closest unexpanded node is further than the worst of those.
    pub fn beam_search(&self, query: &[T], entry: u32, ef_search: usize) -> (r: ClosestQueue<u32>)
        requires
            self.wf(),
            (entry as int) < self@.len(),
            query@.len() == self.spec_data_dim(),
        ensures
            self.beam_result(query@, entry as int, ef_search as nat, r@),
            r@ == self.beam_run(query@, entry as int, ef_search as nat),
    {
        let n = self.graph.len();
        let ghost q = query@;
        let ghost eff = beam_width(ef_search as nat);
        let mut visited: HashSet<u32> = HashSet::new();
        let ghost mut seen: Seq<bool> = Seq::new(n as nat, |u: int| false);
        let mut candidates: ClosestQueue<u32> = ClosestQueue::new();
        let mut worklist: FurthestQueue<u32> = FurthestQueue::new();
        let d0 = self.dist(query, self.graph.data(entry as usize));
        visited.insert(entry);
        proof {
            seen = seen.update(entry as int, true);
        }
        candidates.push(Closest { node: entry, dist: d0 });
        worklist.push(Furthest { node: entry, dist: d0 });
        let ghost mut vs: Set<int> = set![entry as int];
        proof {
            assert(candidates@ =~= seq![Closest { node: entry, dist: d0 }]);
            assert(worklist@ =~= seq![Furthest { node: entry, dist: d0 }]);
            assert forall|u: int| 0 <= u < n && seen[u] implies in_furthest(worklist@, u) by {
                assert(worklist@[0].node == entry);
            }
            assert forall|u: int| 0 <= u < n && seen[u] implies in_closest(candidates@, u) by {
                assert(candidates@[0].node == entry);
            }
            vstd::set_lib::lemma_int_range(0, n as int);
            vstd::set_lib::lemma_len_subset(vs, vstd::set_lib::set_int_range(0, n as int));
        }
        let mut stopped = false;
        let ghost mut stop_node: int = 0;
        let ghost full_fuel: nat = ((n + 1) * (n + 1)) as nat;
        let ghost mut fuel: nat = full_fuel;
        proof {
            assert(seen =~= beam_start(self@, self.metric(), q, entry as int).vis);
            assert(BeamState { vis: seen, cands: candidates@, work: worklist@, stopped: false } == beam_start(self@, self.metric(), q, entry as int));
            assert((n - 1) * (n + 1) + 1 <= (n + 1) * (n + 1)) by (nonlinear_arith);
            assert((n - vs.len()) * (n + 1) <= (n - 1) * (n + 1)) by (nonlinear_arith)
                requires vs.len() == 1, n >= 1;
        }
        while !stopped && !candidates.is_empty()
            invariant
                self.wf(),
                n == self@.len(),
                (entry as int) < n,
                query@ == q,
                q.len() == self.spec_data_dim(),
                eff == beam_width(ef_search as nat),
                seen.len() == n,
                seen[entry as int],
                forall|u: int| 0 <= u < n ==> (seen[u] <==> visited@.contains(u as u32)),
                forall|x: u32| #[trigger] visited@.contains(x) ==> (x as int) < n,
                vs.finite(),
                vs.len() <= n,
                forall|u: int| #[trigger] vs.contains(u) <==> 0 <= u < n && seen[u],
                closest_sorted(candidates@),
                self.closest_entries_ok(q, seen, candidates@),
                self.worklist_ok(q, seen, worklist@, eff),
                self.expanded_ok(seen, candidates@, if stopped { stop_node } else { -1 }),
                stopped ==> 0 <= stop_node < n && self.dist_to(q, stop_node) > worklist@.last().dist
                    && forall|i: int|
                    0 <= i < candidates@.len() ==> self.dist_to(q, stop_node)
                        <= #[trigger] candidates@[i].dist,
                fuel >= (n - vs.len()) * (n + 1) + candidates@.len(),
                beam_rounds(self@, self.metric(), q, BeamState { vis: seen, cands: candidates@, work: worklist@, stopped }, ef_search as nat, fuel)
                    == beam_rounds(self@, self.metric(), q, beam_start(self@, self.metric(), q, entry as int), ef_search as nat, full_fuel),
            decreases n - vs.len(), candidates@.len(),
        {
            let ghost c_len0 = candidates@.len();
            let ghost vs_len0 = vs.len();
            let ghost c0 = candidates@;
            let ghost st0 = BeamState { vis: seen, cands: candidates@, work: worklist@, stopped };
            let ghost fuel0 = fuel;
            let best = candidates.pop().unwrap();
            let worst = worklist.peek_dist().unwrap();
            let ghost c = best.node as int;
            proof {
                assert(best == c0[c0.len() - 1]);
                assert forall|u: int, j: int|
                    0 <= u < n && seen[u] && !in_closest(candidates@, u) && u != c && 0 <= j
                        < self@[u].nbrs.len() && #[trigger] self@[u].nbrs[j] != NONE
                        implies seen[self@[u].nbrs[j] as int] by {
                    if in_closest(c0, u) {
                        let i = choose|i: int| 0 <= i < c0.len() && c0[i].node == u;
                        if i < c0.len() - 1 {
                            assert(candidates@[i] == c0[i]);
                        }
                    }
                }
                assert forall|i: int| 0 <= i < candidates@.len() implies best.dist <= #[trigger] candidates@[i].dist by {
                    assert(candidates@[i] == c0[i]);
                }
            }
            let ghost st1 = BeamState { cands: candidates@, ..st0 };
            proof {
                assert(st0.cands.last() == best);
                assert(fuel0 >= 1) by (nonlinear_arith)
                    requires fuel0 >= (n - vs.len()) * (n + 1) + c0.len(), c0.len() >= 1, vs.len() <= n;
                fuel = (fuel0 - 1) as nat;
            }
            if best.dist > worst {
                stopped = true;
                proof {
                    stop_node = best.node as int;
                    let stp = BeamState { stopped: true, ..st1 };
                    assert(BeamState { vis: seen, cands: candidates@, work: worklist@, stopped } == stp);
                    assert(beam_rounds(self@, self.metric(), q, stp, ef_search as nat, fuel) == stp);
                }
            } else {
                let nbrs = self.graph.nbrs(best.node as usize);
                let mut j: usize = 0;
                proof {
                    assert(BeamState { vis: seen, cands: candidates@, work: worklist@, stopped } == st1);
                }
                while j < nbrs.len()
                    invariant
                        beam_expand(self@, self.metric(), q, BeamState { vis: seen, cands: candidates@, work: worklist@, stopped }, nbrs@, j as int, ef_search as nat)
                            == beam_expand(self@, self.metric(), q, st1, nbrs@, 0, ef_search as nat),
                        self.wf(),
                        n == self@.len(),
                        (entry as int) < n,
                        query@ == q,
                        q.len() == self.spec_data_dim(),
                        eff == beam_width(ef_search as nat),
                        !stopped,
                        0 <= c < n,
                        nbrs@ == self@[c].nbrs,
                        j <= nbrs@.len(),
                        seen.len() == n,
                        seen[entry as int],
                        forall|u: int| 0 <= u < n ==> (seen[u] <==> visited@.contains(u as u32)),
                        forall|x: u32| #[trigger] visited@.contains(x) ==> (x as int) < n,
                        seen[c],
                        vs.finite(),
                        vs.len() <= n,
                        vs.len() >= vs_len0,
                        candidates@.len() + 1 - c_len0 == vs.len() - vs_len0,
                        forall|u: int| #[trigger] vs.contains(u) <==> 0 <= u < n && seen[u],
                        closest_sorted(candidates@),
                        self.closest_entries_ok(q, seen, candidates@),
                        self.worklist_ok(q, seen, worklist@, eff),
                        self.expanded_ok(seen, candidates@, c),
                        forall|jj: int|
                            0 <= jj < j && #[trigger] nbrs@[jj] != NONE ==> seen[nbrs@[jj] as int],
                    decreases nbrs@.len() - j,
                {
                    let nbr = nbrs[j];
                    let ghost stj = BeamState { vis: seen, cands: candidates@, work: worklist@, stopped };
                    proof {
                        assert(valid_list(self@[c].nbrs, n as int));
                        assert(nbrs@[j as int] == nbr);
                    }
                    if nbr != NONE && !visited.contains(&nbr) {
                        let ghost pre_vis = seen;
                        let ghost pre_c = candidates@;
                        let ghost pre_w = worklist@;
                        visited.insert(nbr);
                        proof {
                            seen = seen.update(nbr as int, true);
                        }
                        let dist = self.dist(query, self.graph.data(nbr as usize));
                        candidates.push(Closest { node: nbr, dist });
                        worklist.push(Furthest { node: nbr, dist });
                        let ghost mid_w = worklist@;
                        if worklist.len() > ef_search {
                            worklist.pop();
                        }
                        proof {
                            self.lemma_beam_step(q, eff, ef_search as nat, nbr as int, c,
                                pre_vis, seen, pre_c, candidates@, pre_w, mid_w, worklist@,
                                Closest { node: nbr, dist }, Furthest { node: nbr, dist });
                            vs = vs.insert(nbr as int);
                            vstd::set_lib::lemma_int_range(0, n as int);
                            vstd::set_lib::lemma_len_subset(vs, vstd::set_lib::set_int_range(0, n as int));
                            assert(BeamState { vis: seen, cands: candidates@, work: worklist@, stopped }
                                == beam_visit(self@, self.metric(), q, stj, nbr, ef_search as nat));
                        }
                    } else {
                        proof {
                            assert(stj == beam_visit(self@, self.metric(), q, stj, nbr, ef_search as nat));
                        }
                    }
                    j = j + 1;
                }
                proof {
                    let k = vs.len() - vs_len0;
                    assert((n - vs.len()) * (n + 1) + candidates@.len() <= (n - vs_len0) * (n + 1) + c_len0 - 1) by (nonlinear_arith)
                        requires k >= 0, vs.len() == vs_len0 + k, candidates@.len() + 1 - c_len0 == k;
                    assert forall|u: int, jj: int|
                        0 <= u < n && seen[u] && !in_closest(candidates@, u) && u != -1 && 0 <= jj
                            < self@[u].nbrs.len() && #[trigger] self@[u].nbrs[jj] != NONE
                            implies seen[self@[u].nbrs[jj] as int] by {
                        if u == c {
                            assert(nbrs@[jj] == self@[u].nbrs[jj]);
                        }
                    }
                }
            }
        }
        proof {
            assert(beam_rounds(self@, self.metric(), q, BeamState { vis: seen, cands: candidates@, work: worklist@, stopped }, ef_search as nat, fuel)
                == BeamState { vis: seen, cands: candidates@, work: worklist@, stopped });
        }
        let r = worklist.into_closest();
        proof {
            let vis = vs;
            let w = worklist@;
            assert forall|u: int| 0 <= u < n implies in_closest(r@, u) == in_furthest(w, u) by {
                if in_furthest(w, u) {
                    let i = choose|i: int| 0 <= i < w.len() && w[i].node == u;
                    assert(r@[w.len() - 1 - i].node == w[i].node);
                }
                if in_closest(r@, u) {
                    let i = choose|i: int| 0 <= i < r@.len() && r@[i].node == u;
                    assert(r@[i].node == w[w.len() - 1 - i].node);
                }
            }
            assert forall|i: int| 0 <= i < r@.len() implies vis.contains(#[trigger] r@[i].node as int) by {
                assert(r@[i].node == w[w.len() - 1 - i].node);
            }
            assert forall|i: int| 0 <= i < r@.len() implies (#[trigger] r@[i].node as int) < self@.len()
                && r@[i].dist == self.dist_to(q, r@[i].node as int) by {
                assert(r@[i].node == w[w.len() - 1 - i].node);
            }
            assert forall|i: int, j: int| 0 <= i < j < r@.len() implies #[trigger] r@[i].node != #[trigger] r@[j].node by {
                assert(r@[i].node == w[w.len() - 1 - i].node);
                assert(r@[j].node == w[w.len() - 1 - j].node);
            }
            assert forall|u: int, i: int| #![trigger vis.contains(u), r@[i]] vis.contains(u) && !in_closest(r@, u) && 0 <= i < r@.len()
                implies self.dist_to(q, u) >= r@[i].dist by {
                assert(r@[i].dist == w[w.len() - 1 - i].dist);
            }
            assert(r@[0].dist == w.last().dist);
            assert forall|u: int, j: int| vis.contains(u) && r@.len() > 0 && self.dist_to(q, u) <= r@[0].dist
                && 0 <= j < self@[u].nbrs.len() && #[trigger] self@[u].nbrs[j] != NONE
                implies vis.contains(self@[u].nbrs[j] as int) by {
                if in_closest(candidates@, u) {
                    let i = choose|i: int| 0 <= i < candidates@.len() && candidates@[i].node == u;
                    assert(candidates@[i].dist == self.dist_to(q, u));
                }
            }
            assert(self.beam_witness(q, entry as int, ef_search as nat, r@, vis));
        }
        r
    }

    /// Whether candidate entry `x` is kept next to the already kept nodes `kept`: no kept node
    /// is closer to it than the distance the entry carries.
    pub open spec fn keeps(&self, x: Closest<u32>, kept: Seq<u32>) -> bool {
        forall|k: int|
            0 <= k < kept.len() ==> !(self.metric().spec_dist(self@[x.node as int].data, self@[#[trigger] kept[k] as int].data)
                < x.dist)
    }

    /// The relative-distance rule: candidates are taken closest first, and each is kept when
    /// no node kept before it is closer to it than the distance it carries, until `m` are kept.
    pub open spec fn prune(&self, c: Seq<Closest<u32>>, kept: Seq<u32>, m: nat) -> Seq<u32>
        decreases c.len(),
    {
        if c.len() == 0 || kept.len() >= m {
            kept
        } else {
            let x = c.last();
            self.prune(c.drop_last(), if self.keeps(x, kept) { kept.push(x.node) } else { kept }, m)
        }
    }

    /// The neighbor list chosen from candidates `c` with `m` slots: all of them, closest first,
    /// when there are fewer than `m`; otherwise those the relative-distance rule keeps. Unused
    /// slots hold `NONE`.
    pub open spec fn selection(&self, c: Seq<Closest<u32>>, m: nat) -> Seq<u32> {
        pad_none(if c.len() < m { pop_order(c) } else { self.prune(c, Seq::empty(), m) }, m)
    }

    proof fn lemma_prune(&self, c: Seq<Closest<u32>>, kept: Seq<u32>, m: nat)
        requires
            distinct_ids(kept),
            distinct_nodes(c),
            forall|k: int| 0 <= k < kept.len() ==> !in_closest(c, #[trigger] kept[k] as int),
            kept.len() <= m,
        ensures
            self.prune(c, kept, m).len() <= m,
            self.prune(c, kept, m).len() >= kept.len(),
            self.prune(c, kept, m).subrange(0, kept.len() as int) == kept,
            distinct_ids(self.prune(c, kept, m)),
            forall|i: int|
                0 <= i < self.prune(c, kept, m).len() ==> kept.contains(#[trigger] self.prune(c, kept, m)[i])
                    || in_closest(c, self.prune(c, kept, m)[i] as int),
        decreases c.len(),
    {
        let r = self.prune(c, kept, m);
        if c.len() == 0 || kept.len() >= m {
            assert(kept.subrange(0, kept.len() as int) =~= kept);
            assert forall|i: int| 0 <= i < r.len() implies kept.contains(#[trigger] r[i]) || in_closest(c, r[i] as int) by {
                assert(r[i] == kept[i]);
            }
        } else {
            let x = c.last();
            let c2 = c.drop_last();
            let k2 = if self.keeps(x, kept) { kept.push(x.node) } else { kept };
            assert(distinct_nodes(c2)) by {
                assert forall|i: int, j: int| 0 <= i < j < c2.len() implies #[trigger] c2[i].node != #[trigger] c2[j].node by {
                    assert(c2[i] == c[i] && c2[j] == c[j]);
                }
            }
            assert forall|u: int| #[trigger] in_closest(c2, u) implies in_closest(c, u) && u != x.node by {
                let i = choose|i: int| 0 <= i < c2.len() && c2[i].node == u;
                assert(c2[i] == c[i]);
                assert(c[c.len() - 1] == x);
            }
            assert(in_closest(c, x.node as int)) by {
                assert(c[c.len() - 1] == x);
            }
            assert(distinct_ids(k2)) by {
                assert forall|i: int, j: int| 0 <= i < j < k2.len() implies #[trigger] k2[i] != #[trigger] k2[j] by {
                    if j == kept.len() {
                        assert(k2[i] == kept[i]);
                    }
                }
            }
            assert forall|k: int| 0 <= k < k2.len() implies !in_closest(c2, #[trigger] k2[k] as int) by {
                if k < kept.len() {
                    assert(k2[k] == kept[k]);
                }
            }
            self.lemma_prune(c2, k2, m);
            assert(r == self.prune(c2, k2, m));
            assert(r.subrange(0, kept.len() as int) =~= k2.subrange(0, kept.len() as int));
            assert(k2.subrange(0, kept.len() as int) =~= kept);
            assert forall|i: int| 0 <= i < r.len() implies kept.contains(#[trigger] r[i]) || in_closest(c, r[i] as int) by {
                if k2.contains(r[i]) {
                    let k = choose|k: int| 0 <= k < k2.len() && k2[k] == r[i];
                    if k < kept.len() {
                        assert(kept[k] == k2[k]);
                    }
                }
            }
        }
    }

    /// The chosen list has `m` slots and is a valid neighbor list when the candidates are of
    /// distinct nodes of the graph; with a candidate and a slot, its first slot holds the closest
    /// candidate.
    pub proof fn lemma_selection(&self, c: Seq<Closest<u32>>, m: nat)
        requires
            self.wf(),
            distinct_nodes(c),
            forall|i: int| 0 <= i < c.len() ==> (#[trigger] c[i].node as int) < self@.len(),
        ensures
            self.selection(c, m).len() == m,
            valid_list(self.selection(c, m), self@.len() as int),
            forall|j: int| 0 <= j < m && self.selection(c, m)[j] != NONE ==> in_closest(c, #[trigger] self.selection(c, m)[j] as int),
            c.len() > 0 && m > 0 ==> self.selection(c, m)[0] == c.last().node,
    {
        let n = self@.len() as int;
        let sel = self.selection(c, m);
        let base = if c.len() < m { pop_order(c) } else { self.prune(c, Seq::empty(), m) };
        if c.len() < m {
            assert forall|i: int, j: int| 0 <= i < j < base.len() implies #[trigger] base[i] != #[trigger] base[j] by {
                assert(base[i] == c[c.len() - 1 - i].node);
                assert(base[j] == c[c.len() - 1 - j].node);
            }
            assert forall|i: int| 0 <= i < base.len() implies in_closest(c, #[trigger] base[i] as int) by {
                assert(base[i] == c[c.len() - 1 - i].node);
            }
        } else {
            self.lemma_prune(c, Seq::empty(), m);
            if m > 0 {
                let x = c.last();
                assert(self.keeps(x, Seq::empty()));
                self.lemma_prune(c.drop_last(), seq![x.node], m);
                assert(distinct_nodes(c.drop_last())) by {
                    assert forall|i: int, j: int| 0 <= i < j < c.drop_last().len() implies #[trigger] c.drop_last()[i].node != #[trigger] c.drop_last()[j].node by {
                        assert(c.drop_last()[i] == c[i] && c.drop_last()[j] == c[j]);
                    }
                }
                assert forall|k: int| 0 <= k < seq![x.node].len() implies !in_closest(c.drop_last(), #[trigger] seq![x.node][k] as int) by {
                    if in_closest(c.drop_last(), x.node as int) {
                        let i = choose|i: int| 0 <= i < c.drop_last().len() && c.drop_last()[i].node == x.node;
                        assert(c[i] == c.drop_last()[i]);
                        assert(c[c.len() - 1] == x);
                    }
                }
                assert(Seq::<u32>::empty().push(x.node) =~= seq![x.node]);
                assert(base.subrange(0, 1)[0] == base[0]);
            }
        }
        assert forall|i: int| 0 <= i < base.len() implies (#[trigger] base[i] as int) < n by {
            if base.len() > 0 && c.len() >= m {
                if !Seq::<u32>::empty().contains(base[i]) {
                    assert(in_closest(c, base[i] as int));
                }
            }
            assert(in_closest(c, base[i] as int));
            let k = choose|k: int| 0 <= k < c.len() && c[k].node == base[i];
        }
        assert forall|j: int| 0 <= j < sel.len() implies sel[j] == NONE || (sel[j] as int) < n by {
            if j < base.len() {
                assert(sel[j] == base[j]);
            }
        }
        assert forall|j: int, k: int| 0 <= j < k < sel.len() && sel[j] != NONE implies #[trigger] sel[j] != #[trigger] sel[k] by {
            assert(sel[j] == base[j]);
            if k < base.len() {
                assert(sel[k] == base[k]);
            }
        }
        assert forall|j: int| 0 <= j < m && sel[j] != NONE implies in_closest(c, #[trigger] sel[j] as int) by {
            assert(sel[j] == base[j]);
        }
    }

    /// Chooses at most `max_nbrs` neighbors from `candidates` (see `selection`).
    fn select_neighbors(&self, candidates: ClosestQueue<u32>) -> (r: Vec<u32>)
        requires
            self.wf(),
            closest_sorted(candidates@),
            forall|i: int| 0 <= i < candidates@.len() ==> (#[trigger] candidates@[i].node as int) < self@.len(),
        ensures
            r@ == self.selection(candidates@, self.spec_max_nbrs()),
    {
        let ghost c0 = candidates@;
        let m = self.graph.max_nbrs();
        let mut candidates = candidates;
        let mut selected: Vec<u32> = Vec::new();
        if candidates.len() < m {
            while !candidates.is_empty()
                invariant
                    closest_sorted(candidates@),
                    candidates@.len() <= c0.len(),
                    candidates@ == c0.subrange(0, candidates@.len() as int),
                    selected@ =~= Seq::new((c0.len() - candidates@.len()) as nat, |i: int| c0[c0.len() - 1 - i].node),
                decreases candidates@.len(),
            {
                let ghost cur = candidates@;
                let x = candidates.pop().unwrap();
                selected.push(x.node);
                assert(candidates@ =~= c0.subrange(0, candidates@.len() as int));
            }
            assert(selected@ =~= pop_order(c0));
        } else {
            while candidates.len() > 0 && selected.len() < m
                invariant
                    self.wf(),
                    m == self.spec_max_nbrs(),
                    closest_sorted(candidates@),
                    candidates@.len() <= c0.len(),
                    selected@.len() <= m,
                    candidates@ == c0.subrange(0, candidates@.len() as int),
                    forall|i: int| 0 <= i < c0.len() ==> (#[trigger] c0[i].node as int) < self@.len(),
                    forall|k: int| 0 <= k < selected@.len() ==> (#[trigger] selected@[k] as int) < self@.len(),
                    self.prune(candidates@, selected@, m as nat) == self.prune(c0, Seq::empty(), m as nat),
                decreases candidates@.len(),
            {
                let ghost cur = candidates@;
                let best = candidates.pop().unwrap();
                proof {
                    assert(best == cur.last());
                    assert(cur.drop_last() =~= candidates@);
                    assert(cur[cur.len() - 1] == c0[cur.len() - 1]);
                    assert(candidates@ =~= c0.subrange(0, candidates@.len() as int));
                }
                let best_data = self.graph.data(best.node as usize);
                let mut keep = true;
                let mut k: usize = 0;
                while k < selected.len()
                    invariant
                        self.wf(),
                        (best.node as int) < self@.len(),
                        best_data@ == self@[best.node as int].data,
                        best_data@.len() == self.spec_data_dim(),
                        forall|kk: int| 0 <= kk < selected@.len() ==> (#[trigger] selected@[kk] as int) < self@.len(),
                        k <= selected@.len(),
                        keep == forall|kk: int|
                            0 <= kk < k ==> !(self.metric().spec_dist(self@[best.node as int].data, self@[#[trigger] selected@[kk] as int].data)
                                < best.dist),
                    decreases selected@.len() - k,
                {
                    let d = self.dist(best_data, self.graph.data(selected[k] as usize));
                    if d < best.dist {
                        keep = false;
                    }
                    k = k + 1;
                }
                assert(keep == self.keeps(best, selected@));
                if keep {
                    selected.push(best.node);
                }
            }
        }
        let ghost base = selected@;
        proof {
            if c0.len() >= m {
                assert(self.prune(candidates@, selected@, m as nat) == selected@);
            }
            assert(base.len() <= m);
        }
        while selected.len() < m
            invariant
                base.len() <= selected@.len(),
                selected@.len() <= m,
                base == (if c0.len() < m { pop_order(c0) } else { self.prune(c0, Seq::empty(), m as nat) }),
                selected@ =~= base + Seq::new((selected@.len() - base.len()) as nat, |i: int| NONE),
            decreases m - selected@.len(),
        {
            selected.push(NONE);
        }
        assert(selected@ =~= self.selection(c0, m as nat));
        selected
    }

    proof fn lemma_insert_distinct(c: Seq<Closest<u32>>, p: int, x: Closest<u32>)
        requires
            distinct_nodes(c),
            !in_closest(c, x.node as int),
            0 <= p <= c.len(),
        ensures
            distinct_nodes(c.insert(p, x)),
            forall|u: int| #[trigger] in_closest(c.insert(p, x), u) <==> in_closest(c, u) || u == x.node,
    {
        let c1 = c.insert(p, x);
        assert forall|i: int, j: int| 0 <= i < j < c1.len() implies #[trigger] c1[i].node != #[trigger] c1[j].node by {
            let i0 = if i < p { i } else { i - 1 };
            let j0 = if j < p { j } else { j - 1 };
            if i != p && j != p {
                assert(c1[i] == c[i0] && c1[j] == c[j0]);
            } else if i == p {
                assert(c1[j] == c[j0]);
            } else {
                assert(c1[i] == c[i0]);
            }
        }
        assert forall|u: int| #[trigger] in_closest(c1, u) <==> in_closest(c, u) || u == x.node by {
            if in_closest(c1, u) {
                let i = choose|i: int| 0 <= i < c1.len() && c1[i].node == u;
                if i < p {
                    assert(c1[i] == c[i]);
                } else if i > p {
                    assert(c1[i] == c[i - 1]);
                }
            }
            if in_closest(c, u) {
                let i = choose|i: int| 0 <= i < c.len() && c[i].node == u;
                if i < p {
                    assert(c1[i] == c[i]);
                } else {
                    assert(c1[i + 1] == c[i]);
                }
            }
            if u == x.node {
                assert(c1[p] == x);
            }
        }
    }

    /// The relative-distance rule reads only the vectors and the distance function.
    proof fn lemma_prune_same_data(&self, other: &Self, c: Seq<Closest<u32>>, kept: Seq<u32>, m: nat)
        requires
            self@.len() == other@.len(),
            self.metric() == other.metric(),
            forall|i: int| 0 <= i < self@.len() ==> (#[trigger] self@[i]).data == other@[i].data,
            forall|i: int| 0 <= i < c.len() ==> (#[trigger] c[i].node as int) < self@.len(),
            forall|k: int| 0 <= k < kept.len() ==> (#[trigger] kept[k] as int) < self@.len(),
        ensures
            self.prune(c, kept, m) == other.prune(c, kept, m),
        decreases c.len(),
    {
        if c.len() > 0 && kept.len() < m {
            let x = c.last();
            assert(x == c[c.len() - 1]);
            assert(self.keeps(x, kept) == other.keeps(x, kept)) by {
                assert(self@[x.node as int].data == other@[x.node as int].data);
                assert forall|k: int| 0 <= k < kept.len() implies self@[#[trigger] kept[k] as int].data == other@[kept[k] as int].data by {}
            }
            let k2 = if self.keeps(x, kept) { kept.push(x.node) } else { kept };
            assert forall|k: int| 0 <= k < k2.len() implies (#[trigger] k2[k] as int) < self@.len() by {
                if k < kept.len() {
                    assert(k2[k] == kept[k]);
                }
            }
            assert forall|i: int| 0 <= i < c.drop_last().len() implies (#[trigger] c.drop_last()[i].node as int) < self@.len() by {
                assert(c.drop_last()[i] == c[i]);
            }
            self.lemma_prune_same_data(other, c.drop_last(), k2, m);
        }
    }

    /// Links the new node `new_node` back from each node in `neighbors`: into a free slot when
    /// there is one, otherwise by choosing again among the old neighbors and the new node, with
    /// distances measured to the node being repaired.
    fn connect_neighbors(&mut self, neighbors: Vec<u32>, new_node: u32, new_data: &[T])
        requires
            old(self).wf(),
            new_node as int == old(self)@.len() - 1,
            new_data@ == old(self)@[new_node as int].data,
            neighbors@ == old(self)@[new_node as int].nbrs,
            forall|j: int| 0 <= j < neighbors@.len() ==> #[trigger] neighbors@[j] == NONE || neighbors@[j] < new_node,
            forall|i: int, j: int|
                0 <= i < old(self)@.len() && 0 <= j < old(self)@[i].nbrs.len() ==> #[trigger] old(self)@[i].nbrs[j] != new_node,
        ensures
            final(self).wf(),
            final(self)@.len() == old(self)@.len(),
            final(self).spec_max_nbrs() == old(self).spec_max_nbrs(),
            final(self).spec_data_dim() == old(self).spec_data_dim(),
            final(self).metric() == old(self).metric(),
            forall|i: int|
                0 <= i < old(self)@.len() ==> (#[trigger] final(self)@[i]).label == old(self)@[i].label
                    && final(self)@[i].data == old(self)@[i].data,
            forall|i: int|
                0 <= i < old(self)@.len() && !neighbors@.contains(i as u32) ==> (#[trigger] final(self)@[i]).nbrs
                    == old(self)@[i].nbrs,
            forall|j: int|
                0 <= j < neighbors@.len() && #[trigger] neighbors@[j] != NONE && list_contains(
                    old(self)@[neighbors@[j] as int].nbrs,
                    NONE,
                ) ==> list_contains(final(self)@[neighbors@[j] as int].nbrs, new_node)
                    && final(self)@[neighbors@[j] as int].nbrs == old(self)@[neighbors@[j] as int].nbrs.update(
                    first_free(old(self)@[neighbors@[j] as int].nbrs, 0),
                    new_node,
                ),
            forall|j: int|
                0 <= j < neighbors@.len() && #[trigger] neighbors@[j] != NONE && !list_contains(
                    old(self)@[neighbors@[j] as int].nbrs,
                    NONE,
                ) ==> final(self)@[neighbors@[j] as int].nbrs == old(self).selection(
                    repair_queue(old(self)@, old(self).metric(), neighbors@[j] as int, new_node, new_data@, old(self).spec_max_nbrs()),
                    old(self).spec_max_nbrs(),
                ),
    {
        let ghost pre = *self;
        let m = self.graph.max_nbrs();
        let mut t: usize = 0;
        while t < neighbors.len()
            invariant
                pre.wf(),
                self.wf(),
                new_node as int == pre@.len() - 1,
                new_data@ == pre@[new_node as int].data,
                neighbors@ == pre@[new_node as int].nbrs,
                m == self.spec_max_nbrs(),
                forall|j: int| 0 <= j < neighbors@.len() ==> #[trigger] neighbors@[j] == NONE || neighbors@[j] < new_node,
                t <= neighbors@.len(),
                self@.len() == pre@.len(),
                self.spec_max_nbrs() == pre.spec_max_nbrs(),
                self.spec_data_dim() == pre.spec_data_dim(),
                self.metric() == pre.metric(),
                forall|i: int|
                    0 <= i < pre@.len() ==> (#[trigger] self@[i]).label == pre@[i].label && self@[i].data
                        == pre@[i].data,
                forall|i: int|
                    0 <= i < pre@.len() && !neighbors@.subrange(0, t as int).contains(i as u32)
                        ==> (#[trigger] self@[i]).nbrs == pre@[i].nbrs,
                forall|i: int, j: int|
                    0 <= i < pre@.len() && 0 <= j < self@[i].nbrs.len() && #[trigger] self@[i].nbrs[j]
                        == new_node ==> neighbors@.subrange(0, t as int).contains(i as u32),
                forall|j: int|
                    0 <= j < t && #[trigger] neighbors@[j] != NONE && list_contains(
                        pre@[neighbors@[j] as int].nbrs,
                        NONE,
                    ) ==> list_contains(self@[neighbors@[j] as int].nbrs, new_node)
                        && self@[neighbors@[j] as int].nbrs == pre@[neighbors@[j] as int].nbrs.update(
                        first_free(pre@[neighbors@[j] as int].nbrs, 0),
                        new_node,
                    ),
                forall|j: int|
                    0 <= j < t && #[trigger] neighbors@[j] != NONE && !list_contains(
                        pre@[neighbors@[j] as int].nbrs,
                        NONE,
                    ) ==> self@[neighbors@[j] as int].nbrs == pre.selection(
                        repair_queue(pre@, pre.metric(), neighbors@[j] as int, new_node, new_data@, pre.spec_max_nbrs()),
                        pre.spec_max_nbrs(),
                    ),
            decreases neighbors@.len() - t,
        {
            let u = neighbors[t];
            let ghost before = *self;
            proof {
                assert(valid_list(pre@[new_node as int].nbrs, pre@.len() as int));
                assert(neighbors@.subrange(0, t + 1) =~= neighbors@.subrange(0, t as int).push(u));
                if u != NONE {
                    assert(!neighbors@.subrange(0, t as int).contains(u)) by {
                        if neighbors@.subrange(0, t as int).contains(u) {
                            let k = choose|k: int| 0 <= k < t && neighbors@.subrange(0, t as int)[k] == u;
                            assert(neighbors@[k] == u);
                        }
                    }
                    assert(u as u32 as int == u as int);
                    assert(self@[u as int].nbrs == pre@[u as int].nbrs);
                }
            }
            if u != NONE {
                let u_us = u as usize;
                let u_nbrs = self.graph.nbrs(u_us);
                let mut slot: usize = 0;
                while slot < m && u_nbrs[slot] != NONE
                    invariant
                        slot <= m,
                        u_nbrs@.len() == m,
                        forall|k: int| 0 <= k < slot ==> #[trigger] u_nbrs@[k] != NONE,
                        first_free(u_nbrs@, slot as int) == first_free(u_nbrs@, 0),
                    decreases m - slot,
                {
                    slot = slot + 1;
                }
                if slot < m {
                    self.graph.set_nbr(u_us, slot, new_node);
                    proof {
                        let l = self@[u as int].nbrs;
                        assert(l == before@[u as int].nbrs.update(slot as int, new_node));
                        assert(l[slot as int] == new_node);
                        assert(valid_list(before@[u as int].nbrs, pre@.len() as int));
                        assert forall|j: int, k: int| 0 <= j < k < l.len() && l[j] != NONE implies #[trigger] l[j] != #[trigger] l[k] by {
                            if j != slot && k != slot {
                                assert(l[j] == before@[u as int].nbrs[j]);
                                assert(l[k] == before@[u as int].nbrs[k]);
                            } else if j == slot {
                                assert(l[k] == before@[u as int].nbrs[k]);
                            } else {
                                assert(l[j] == before@[u as int].nbrs[j]);
                            }
                        }
                        assert(valid_list(l, pre@.len() as int));
                        assert forall|i: int| 0 <= i < self@.len() implies valid_list(#[trigger] self@[i].nbrs, self@.len() as int) by {
                            if i != u {
                                assert(self@[i] == before@[i]);
                            }
                        }
                    }
                } else {
                    let u_data = self.graph.data(u_us);
                    let mut cands: ClosestQueue<u32> = ClosestQueue::new();
                    let d_new = self.dist(new_data, u_data);
                    let ghost c_empty = cands@;
                    cands.push(Closest { node: new_node, dist: d_new });
                    proof {
                        assert(cands@ =~= seq![Closest { node: new_node, dist: d_new }]);
                        assert(self@[u as int].data == pre@[u as int].data);
                        assert forall|w: int| #[trigger] in_closest(cands@, w) <==> w == new_node by {
                            if w == new_node {
                                assert(cands@[0].node == new_node);
                            }
                        }
                        assert(valid_list(before@[u as int].nbrs, pre@.len() as int));
                    }
                    let mut k: usize = 0;
                    while k < m
                        invariant
                            self.wf(),
                            self@ == before@,
                            (u as int) < pre@.len() - 1,
                            new_node as int == pre@.len() - 1,
                            self@.len() == pre@.len(),
                            u_nbrs@ == self@[u as int].nbrs,
                            u_nbrs@.len() == m,
                            u_data@ == self@[u as int].data,
                            u_data@.len() == self.spec_data_dim(),
                            valid_list(u_nbrs@, pre@.len() as int),
                            forall|kk: int| 0 <= kk < m ==> #[trigger] u_nbrs@[kk] != NONE,
                            forall|kk: int| 0 <= kk < m ==> #[trigger] u_nbrs@[kk] != new_node,
                            k <= m,
                            closest_sorted(cands@),
                            distinct_nodes(cands@),
                            forall|i: int| 0 <= i < cands@.len() ==> (#[trigger] cands@[i].node as int) < self@.len(),
                            forall|w: int|
                                #[trigger] in_closest(cands@, w) <==> w == new_node || exists|kk: int|
                                    0 <= kk < k && u_nbrs@[kk] == w,
                            u_nbrs@ == pre@[u as int].nbrs,
                            new_data@ == pre@[new_node as int].data,
                            self.metric() == pre.metric(),
                            forall|i: int| 0 <= i < pre@.len() ==> (#[trigger] self@[i]).data == pre@[i].data,
                            cands@ == repair_queue(pre@, pre.metric(), u as int, new_node, new_data@, k as nat),
                            cands@.len() == k + 1,
                        decreases m - k,
                    {
                        let v = u_nbrs[k];
                        let d = self.dist(self.graph.data(v as usize), u_data);
                        proof {
                            assert(valid_list(u_nbrs@, pre@.len() as int));
                            assert(u_nbrs@[k as int] == v);
                            assert(self@[v as int].data == pre@[v as int].data);
                            assert(self@[u as int].data == pre@[u as int].data);
                        }
                        let ghost c_pre = cands@;
                        let x = Closest { node: v, dist: d };
                        proof {
                            if in_closest(c_pre, v as int) {
                                if v != new_node {
                                    let kk = choose|kk: int| 0 <= kk < k && u_nbrs@[kk] == v as int;
                                    assert(u_nbrs@[kk] == u_nbrs@[k as int]);
                                }
                            }
                        }
                        cands.push(x);
                        proof {
                            let p = choose|p: int| 0 <= p <= c_pre.len() && cands@ == c_pre.insert(p, x) && (forall|i: int| 0 <= i < p ==> c_pre[i].dist > x.dist) && (forall|i: int| p <= i < c_pre.len() ==> c_pre[i].dist <= x.dist);
                            Self::lemma_insert_distinct(c_pre, p, x);
                            assert forall|i: int| 0 <= i < cands@.len() implies (#[trigger] cands@[i].node as int) < self@.len() by {
                                if i < p {
                                    assert(cands@[i] == c_pre[i]);
                                } else if i > p {
                                    assert(cands@[i] == c_pre[i - 1]);
                                }
                            }
                            assert forall|w: int| #[trigger] in_closest(cands@, w) <==> w == new_node || exists|kk: int|
                                0 <= kk < k + 1 && u_nbrs@[kk] == w by {
                                if exists|kk: int| 0 <= kk < k + 1 && u_nbrs@[kk] == w {
                                    let kk = choose|kk: int| 0 <= kk < k + 1 && u_nbrs@[kk] == w;
                                    if kk < k {
                                        assert(in_closest(c_pre, w));
                                    }
                                }
                                if in_closest(c_pre, w) && w != new_node {
                                    let kk = choose|kk: int| 0 <= kk < k && u_nbrs@[kk] == w;
                                    assert(0 <= kk < k + 1 && u_nbrs@[kk] == w);
                                }
                            }
                        }
                        k = k + 1;
                    }
                    proof {
                        self.lemma_selection(cands@, m as nat);
                    }
                    proof {
                        assert forall|i: int| 0 <= i < self@.len() implies (#[trigger] self@[i]).data == pre@[i].data by {}
                        self.lemma_prune_same_data(&pre, cands@, Seq::empty(), m as nat);
                    }
                    let ghost cands_v = cands@;
                    let selected = self.select_neighbors(cands);
                    self.graph.set_nbrs(u_us, selected.as_slice());
                    proof {
                        assert(self@[u as int].nbrs == pre.selection(cands_v, m as nat));
                    }
                    proof {
                        assert forall|i: int| 0 <= i < self@.len() implies valid_list(#[trigger] self@[i].nbrs, self@.len() as int) by {
                            if i != u {
                                assert(self@[i] == before@[i]);
                            }
                        }
                    }
                }
                proof {
                    assert forall|i: int| 0 <= i < self@.len() implies #[trigger] self@[i].nbrs.len() == self.spec_max_nbrs()
                        && self@[i].data.len() == self.spec_data_dim() by {
                        if i != u {
                            assert(self@[i] == before@[i]);
                        }
                    }
                }
            }
            proof {
                let sub1 = neighbors@.subrange(0, t + 1);
                assert forall|i: int| 0 <= i < pre@.len() && !sub1.contains(i as u32) implies (#[trigger] self@[i]).nbrs == pre@[i].nbrs by {
                    assert(!neighbors@.subrange(0, t as int).contains(i as u32)) by {
                        if neighbors@.subrange(0, t as int).contains(i as u32) {
                            let k = choose|k: int| 0 <= k < t && neighbors@.subrange(0, t as int)[k] == i as u32;
                            assert(sub1[k] == i as u32);
                        }
                    }
                    if u != NONE {
                        assert(sub1[t as int] == u);
                        assert(i != u as int);
                        assert(self@[i] == before@[i]);
                    }
                }
                assert forall|i: int, j: int|
                    0 <= i < pre@.len() && 0 <= j < self@[i].nbrs.len() && #[trigger] self@[i].nbrs[j]
                        == new_node implies sub1.contains(i as u32) by {
                    if u != NONE && i == u as int {
                        assert(sub1[t as int] == u);
                    } else {
                        if u != NONE {
                            assert(self@[i] == before@[i]);
                        }
                        let k = choose|k: int| 0 <= k < t && neighbors@.subrange(0, t as int)[k] == i as u32;
                        assert(sub1[k] == i as u32);
                    }
                }
                assert forall|j: int|
                    0 <= j < t + 1 && #[trigger] neighbors@[j] != NONE && list_contains(
                        pre@[neighbors@[j] as int].nbrs,
                        NONE,
                    ) implies list_contains(self@[neighbors@[j] as int].nbrs, new_node) by {
                    if j < t {
                        let w = neighbors@[j];
                        assert(w != u) by {
                            assert(valid_list(pre@[new_node as int].nbrs, pre@.len() as int));
                        }
                        assert(self@[w as int] == before@[w as int]);
                    }
                }
            }
            t = t + 1;
        }
        proof {
            assert(neighbors@.subrange(0, neighbors@.len() as int) =~= neighbors@);
        }
    }

    /// `e` is the entry point the strided scan picks for `q` with `samples` samples: among the
    /// scanned ids, the first of those closest to `q`.
    pub open spec fn entry_point(&self, q: Seq<T>, e: int, samples: nat) -> bool {
        is_entry_point(self@, self.metric(), q, e, samples)
    }

    /// At most one node is the entry point of a scan.
    proof fn lemma_entry_point_unique(&self, q: Seq<T>, e1: int, e2: int, samples: nat)
        requires
            self.entry_point(q, e1, samples),
            self.entry_point(q, e2, samples),
        ensures
            e1 == e2,
    {
        if e1 < e2 {
            assert(self.dist_to(q, e2) < self.dist_to(q, e1));
        } else if e2 < e1 {
            assert(self.dist_to(q, e1) < self.dist_to(q, e2));
        }
    }

    /// What `query` returns for `q` on a vector of the right length: nothing on an empty index,
    /// otherwise the first `topk` results of the beam search of width `ef` from the scan's entry
    /// point, as labels and distances.
    pub open spec fn query_result(&self, q: Seq<T>, ef: nat, topk: nat) -> Seq<(LabelT, u128)> {
        if self@.len() == 0 {
            Seq::empty()
        } else {
            let e = choose|e: int| is_entry_point(self@, self.metric(), q, e, NUM_INITIALIZATIONS as nat);
            query_output(self@, self.beam_run(q, e, ef), topk)
        }
    }

    /// The neighbor list `insert` gives a vector `v` in a non-empty index: the selection from
    /// the beam search of width `ef` that starts at the scan's entry point.
    pub open spec fn insert_neighbors(&self, v: Seq<T>, ef: nat) -> Seq<u32> {
        let e = choose|e: int| is_entry_point(self@, self.metric(), v, e, NUM_INITIALIZATIONS as nat);
        self.selection(self.beam_run(v, e, ef), self.spec_max_nbrs())
    }

    /// Determinism: indexes holding the same nodes under the same distance function give the
    /// same answer to the same query, so repeating a query on an index repeats its result.
    pub proof fn lemma_query_deterministic(a: &Self, b: &Self, q: Seq<T>, ef: nat, topk: nat)
        requires
            a@ == b@,
            a.metric() == b.metric(),
        ensures
            a.query_result(q, ef, topk) == b.query_result(q, ef, topk),
    {

    }

    /// Adds a node with label `label` and vector `data`: the first node gets no neighbors;
    /// later ones get the neighbors chosen from a beam search of width `ef_construction`, and
    /// are linked back from them.
    pub fn insert(&mut self, label: LabelT, data: &[T], ef_construction: usize) -> (r: Result<(), IndexError>)
        requires
            old(self).wf(),
            old(self)@.len() + 1 < NONE,
        ensures
            final(self).wf(),
            final(self).spec_max_nbrs() == old(self).spec_max_nbrs(),
            final(self).spec_data_dim() == old(self).spec_data_dim(),
            final(self).metric() == old(self).metric(),
            data@.len() != old(self).spec_data_dim() ==> r == Err::<(), IndexError>(
                IndexError::DimensionMismatch(old(self).spec_data_dim() as usize, data@.len() as usize),
            ) && final(self)@ == old(self)@,
            data@.len() == old(self).spec_data_dim() ==> r is Ok && final(self)@.len() == old(self)@.len() + 1
                && final(self)@.last().label == label && final(self)@.last().data == data@
                && (forall|i: int|
                0 <= i < old(self)@.len() ==> (#[trigger] final(self)@[i]).label == old(self)@[i].label
                    && final(self)@[i].data == old(self)@[i].data),
            data@.len() == old(self).spec_data_dim() && old(self)@.len() == 0 ==> final(self)@.last().nbrs
                == Seq::new(old(self).spec_max_nbrs(), |j: int| NONE),
            data@.len() == old(self).spec_data_dim() && old(self)@.len() > 0 ==> exists|e: int, c: Seq<Closest<u32>>|
                old(self).entry_point(data@, e, NUM_INITIALIZATIONS as nat) && old(self).beam_result(data@, e, ef_construction as nat, c)
                    && #[trigger] final(self)@.last().nbrs == old(self).selection(c, old(self).spec_max_nbrs()),
            data@.len() == old(self).spec_data_dim() && old(self)@.len() > 0 ==> final(self)@.last().nbrs
                == old(self).insert_neighbors(data@, ef_construction as nat),
            data@.len() == old(self).spec_data_dim() ==> forall|i: int|
                0 <= i < old(self)@.len() && !final(self)@.last().nbrs.contains(i as u32) ==> (#[trigger] final(self)@[i]).nbrs
                    == old(self)@[i].nbrs,
            data@.len() == old(self).spec_data_dim() ==> forall|j: int|
                0 <= j < final(self)@.last().nbrs.len() && #[trigger] final(self)@.last().nbrs[j] != NONE && list_contains(
                    old(self)@[final(self)@.last().nbrs[j] as int].nbrs,
                    NONE,
                ) ==> list_contains(final(self)@[final(self)@.last().nbrs[j] as int].nbrs, old(self)@.len() as u32),
            data@.len() == old(self).spec_data_dim() ==> forall|j: int|
                0 <= j < final(self)@.last().nbrs.len() && #[trigger] final(self)@.last().nbrs[j] != NONE && list_contains(
                    old(self)@[final(self)@.last().nbrs[j] as int].nbrs,
                    NONE,
                ) ==> final(self)@[final(self)@.last().nbrs[j] as int].nbrs == old(self)@[final(self)@.last().nbrs[j] as int].nbrs.update(
                    first_free(old(self)@[final(self)@.last().nbrs[j] as int].nbrs, 0),
                    old(self)@.len() as u32,
                ),
            data@.len() == old(self).spec_data_dim() ==> forall|j: int|
                0 <= j < final(self)@.last().nbrs.len() && #[trigger] final(self)@.last().nbrs[j] != NONE && !list_contains(
                    old(self)@[final(self)@.last().nbrs[j] as int].nbrs,
                    NONE,
                ) ==> final(self)@[final(self)@.last().nbrs[j] as int].nbrs == final(self).selection(
                    repair_queue(old(self)@, old(self).metric(), final(self)@.last().nbrs[j] as int, old(self)@.len() as u32, data@, old(self).spec_max_nbrs()),
                    old(self).spec_max_nbrs(),
                ),
            data@.len() == old(self).spec_data_dim() && old(self)@.len() == 1 && old(self).spec_max_nbrs() > 0
                ==> list_contains(final(self)@[0].nbrs, 1),
    {
        let dim = self.graph.data_dim();
        if data.len() != dim {
            return Err(IndexError::DimensionMismatch(dim, data.len()));
        }
        let m = self.graph.max_nbrs();
        if self.graph.len() == 0 {
            let mut neighbors: Vec<u32> = Vec::new();
            while neighbors.len() < m
                invariant
                    neighbors@.len() <= m,
                    neighbors@ =~= Seq::new(neighbors@.len(), |j: int| NONE),
                decreases m - neighbors@.len(),
            {
                neighbors.push(NONE);
            }
            let ghost pre = *self;
            self.graph.add_node(label, neighbors.as_slice(), data);
            proof {
                assert(self@ == pre@.push(StoredNode { label, nbrs: neighbors@, data: data@ }));
                assert(self@[0].nbrs == neighbors@);
            }
            return Ok(());
        }
        let ghost pre = *self;
        let entry = self.search_initialization(data, NUM_INITIALIZATIONS);
        proof {
            let e = choose|e: int| is_entry_point(self@, self.metric(), data@, e, NUM_INITIALIZATIONS as nat);
            self.lemma_entry_point_unique(data@, e, entry as int, NUM_INITIALIZATIONS as nat);
        }
        let candidates = self.beam_search(data, entry as u32, ef_construction);
        proof {
            self.lemma_selection(candidates@, m as nat);
        }
        let ghost cands = candidates@;
        let neighbors = self.select_neighbors(candidates);
        let new_node = self.graph.add_node(label, neighbors.as_slice(), data);
        proof {
            let n = pre@.len() as int;
            assert(self@ == pre@.push(StoredNode { label, nbrs: neighbors@, data: data@ }));
            assert forall|i: int| 0 <= i < self@.len() implies valid_list(#[trigger] self@[i].nbrs, self@.len() as int) by {
                if i < n {
                    assert(self@[i] == pre@[i]);
                    assert(valid_list(pre@[i].nbrs, n));
                }
            }
            assert(neighbors@.len() == m);
            assert forall|i: int| 0 <= i < self@.len() implies #[trigger] self@[i].nbrs.len() == self.spec_max_nbrs()
                && self@[i].data.len() == self.spec_data_dim() by {
                if i < n {
                    assert(self@[i] == pre@[i]);
                } else {
                    assert(self@[i].nbrs == neighbors@);
                }
            }
            assert forall|j: int| 0 <= j < neighbors@.len() implies #[trigger] neighbors@[j] == NONE || neighbors@[j] < new_node by {
                if neighbors@[j] != NONE {
                    let i = choose|i: int| 0 <= i < cands.len() && cands[i].node == neighbors@[j];
                }
            }
            assert forall|i: int, j: int| 0 <= i < self@.len() && 0 <= j < self@[i].nbrs.len() implies #[trigger] self@[i].nbrs[j] != new_node by {
                if i < n {
                    assert(self@[i] == pre@[i]);
                    assert(valid_list(pre@[i].nbrs, n));
                } else {
                    if neighbors@[j] != NONE {
                        let k = choose|k: int| 0 <= k < cands.len() && cands[k].node == neighbors@[j];
                    }
                }
            }
        }
        let ghost mid = *self;
        self.connect_neighbors(neighbors, new_node as u32, data);
        proof {
            let n = pre@.len() as int;
            assert(self@.last() == self@[n]);
            assert(self@[n].nbrs == mid@[n].nbrs) by {
                if neighbors@.contains(n as u32) {
                    let j = choose|j: int| 0 <= j < neighbors@.len() && neighbors@[j] == n as u32;
                    let k = choose|k: int| 0 <= k < cands.len() && cands[k].node == neighbors@[j];
                }
            }
            assert(self@.last().nbrs == pre.selection(cands, pre.spec_max_nbrs()));
            assert forall|j: int|
                0 <= j < self@.last().nbrs.len() && #[trigger] self@.last().nbrs[j] != NONE && !list_contains(
                    pre@[self@.last().nbrs[j] as int].nbrs,
                    NONE,
                ) implies self@[self@.last().nbrs[j] as int].nbrs == self.selection(
                    repair_queue(pre@, pre.metric(), self@.last().nbrs[j] as int, n as u32, data@, pre.spec_max_nbrs()),
                    pre.spec_max_nbrs(),
                ) by {
                let u = self@.last().nbrs[j] as int;
                assert(neighbors@[j] == self@.last().nbrs[j]);
                assert(u < n);
                assert(mid@[u] == pre@[u]);
                assert(valid_list(pre@[u].nbrs, n));
                assert forall|x: int| 0 <= x < n implies #[trigger] mid@[x] == pre@[x] by {}
                lemma_repair_queue_prefix(pre@, mid@, pre.metric(), u, n as u32, data@, pre.spec_max_nbrs());
                let c = repair_queue(pre@, pre.metric(), u, n as u32, data@, pre.spec_max_nbrs());
                assert(c == repair_queue(mid@, mid.metric(), u, new_node as u32, data@, mid.spec_max_nbrs()));
                lemma_repair_queue_len(mid@, mid.metric(), u, new_node as u32, data@, mid.spec_max_nbrs());
                assert forall|i: int| 0 <= i < self@.len() implies (#[trigger] mid@[i]).data == self@[i].data by {}
                mid.lemma_prune_same_data(self, c, Seq::empty(), m as nat);
            }
            if n == 1 && m > 0 {
                assert(neighbors@[0] == 0);
                assert forall|j: int| 0 <= j < pre@[0].nbrs.len() implies pre@[0].nbrs[j] == NONE by {}
                assert(pre@[0].nbrs[0] == NONE);
                assert(list_contains(mid@[0].nbrs, NONE)) by {
                    assert(mid@[0] == pre@[0]);
                }
            }
        }
        Ok(())
    }

    /// The labels and distances of up to `topk` nodes close to `query`, closest first, found by a
    /// beam search of width `ef_search`; nothing for an empty index.
    pub fn query(&self, query: &[T], ef_search: usize, topk: usize) -> (r: Result<Vec<(LabelT, u128)>, IndexError>)
        requires
            self.wf(),
        ensures
            query@.len() != self.spec_data_dim() ==> r == Err::<Vec<(LabelT, u128)>, IndexError>(
                IndexError::DimensionMismatch(self.spec_data_dim() as usize, query@.len() as usize),
            ),
            query@.len() == self.spec_data_dim() ==> r is Ok && r->Ok_0@ == self.query_result(query@, ef_search as nat, topk as nat),
            query@.len() == self.spec_data_dim() && self@.len() == 0 ==> r is Ok && r->Ok_0@.len() == 0,
            query@.len() == self.spec_data_dim() && self@.len() > 0 ==> r is Ok && exists|e: int, c: Seq<Closest<u32>>|
                self.entry_point(query@, e, NUM_INITIALIZATIONS as nat) && self.beam_result(query@, e, ef_search as nat, c)
                    && #[trigger] r->Ok_0@ == query_output(self@, c, topk as nat),
    {
        let dim = self.graph.data_dim();
        if query.len() != dim {
            return Err(IndexError::DimensionMismatch(dim, query.len()));
        }
        if self.graph.len() == 0 {
            let r: Vec<(LabelT, u128)> = Vec::new();
            assert(r@ =~= self.query_result(query@, ef_search as nat, topk as nat));
            return Ok(r);
        }
        let entry = self.search_initialization(query, NUM_INITIALIZATIONS);
        proof {
            let e = choose|e: int| is_entry_point(self@, self.metric(), query@, e, NUM_INITIALIZATIONS as nat);
            self.lemma_entry_point_unique(query@, e, entry as int, NUM_INITIALIZATIONS as nat);
        }
        let mut results = self.beam_search(query, entry as u32, ef_search);
        let ghost c = results@;
        let mut output: Vec<(LabelT, u128)> = Vec::new();
        while output.len() < topk && !results.is_empty()
            invariant
                self.wf(),
                closest_sorted(results@),
                results@.len() <= c.len(),
                results@ == c.subrange(0, results@.len() as int),
                output@.len() + results@.len() == c.len(),
                output@.len() <= topk,
                forall|i: int| 0 <= i < c.len() ==> (#[trigger] c[i].node as int) < self@.len(),
                output@ =~= query_output(self@, c, output@.len()),
            decreases results@.len(),
        {
            let ghost cur = results@;
            let best = results.pop().unwrap();
            proof {
                assert(best == c[cur.len() - 1]);
                assert(results@ =~= c.subrange(0, results@.len() as int));
            }
            output.push((self.graph.label(best.node as usize), best.dist));
        }
        Ok(output)
    }

    /// The non-`NONE` neighbors of every node, as lists of positions.
    pub fn out_adjacency(&self) -> (r: Vec<Vec<usize>>)
        requires
            self.wf(),
        ensures
            r@.len() == self@.len(),
            valid_adjacency(r@),
            forall|v: int| 0 <= v < self@.len() ==> (#[trigger] r@[v])@ == self@[v].nbrs.filter(|x: u32| x != NONE).map_values(|x: u32| x as usize),
    {
        let n = self.graph.len();
        let mut out: Vec<Vec<usize>> = Vec::new();
        let mut v: usize = 0;
        while v < n
            invariant
                self.wf(),
                n == self@.len(),
                v <= n,
                out@.len() == v,
                forall|w: int| 0 <= w < v ==> (#[trigger] out@[w])@ == self@[w].nbrs.filter(|x: u32| x != NONE).map_values(|x: u32| x as usize),
                forall|w: int, k: int| 0 <= w < out@.len() && 0 <= k < out@[w]@.len() ==> (#[trigger] out@[w]@[k] as int) < n,
            decreases n - v,
        {
            let nbrs = self.graph.nbrs(v);
            let mut list: Vec<usize> = Vec::new();
            let mut j: usize = 0;
            proof {
                assert(valid_list(self@[v as int].nbrs, n as int));
            }
            while j < nbrs.len()
                invariant
                    nbrs@ == self@[v as int].nbrs,
                    valid_list(nbrs@, n as int),
                    j <= nbrs@.len(),
                    list@ == nbrs@.subrange(0, j as int).filter(|x: u32| x != NONE).map_values(|x: u32| x as usize),
                    forall|k: int| 0 <= k < list@.len() ==> (#[trigger] list@[k] as int) < n,
                decreases nbrs@.len() - j,
            {
                let x = nbrs[j];
                proof {
                    let s0 = nbrs@.subrange(0, j as int);
                    assert(nbrs@.subrange(0, j + 1) =~= s0.push(x));
                    reveal(Seq::filter);
                    assert(s0.push(x).drop_last() =~= s0);
                    assert(s0.push(x).last() == x);
                }
                if x != NONE {
                    list.push(x as usize);
                    proof {
                        let f = nbrs@.subrange(0, j as int).filter(|y: u32| y != NONE);
                        assert(f.push(x).map_values(|y: u32| y as usize) =~= f.map_values(|y: u32| y as usize).push(x as usize));
                    }
                }
                j = j + 1;
            }
            proof {
                assert(nbrs@.subrange(0, nbrs@.len() as int) =~= nbrs@);
            }
            out.push(list);
            v = v + 1;
        }
        out
    }

    /// Renumbers the nodes in the order a reordering strategy computes: node `v` moves to
    /// position `perm_inv[v]` and every neighbor id is renumbered the same way. The index is left
    /// as it was when the strategy's answer is not a permutation of the node ids.
    pub fn reorder<R: Reordering>(&mut self, strategy: &R) -> (r: Result<(), IndexError>)
        requires
            old(self).wf(),
        ensures
            final(self).wf(),
            final(self).spec_max_nbrs() == old(self).spec_max_nbrs(),
            final(self).spec_data_dim() == old(self).spec_data_dim(),
            final(self).metric() == old(self).metric(),
            r is Err ==> r == Err::<(), IndexError>(IndexError::InvalidPermutation) && final(self)@ == old(self)@,
            r is Ok ==> exists|perm_inv: Seq<usize>|
                is_permutation(perm_inv, old(self)@.len()) && #[trigger] renumbered(old(self)@, final(self)@, perm_inv),
    {
        let out = self.out_adjacency();
        let perm_inv = strategy.reorder(&out);
        let n = self.graph.len();
        if !check_permutation(&perm_inv, n) {
            return Err(IndexError::InvalidPermutation);
        }
        self.apply_permutation(&perm_inv);
        Ok(())
    }

    /// Moves node `v` to position `perm_inv[v]` and renumbers every neighbor id the same way.
    pub fn apply_permutation(&mut self, perm_inv: &Vec<usize>)
        requires
            old(self).wf(),
            is_permutation(perm_inv@, old(self)@.len()),
        ensures
            final(self).wf(),
            final(self).spec_max_nbrs() == old(self).spec_max_nbrs(),
            final(self).spec_data_dim() == old(self).spec_data_dim(),
            final(self).metric() == old(self).metric(),
            renumbered(old(self)@, final(self)@, perm_inv@),
    {
        let n = self.graph.len();
        let m = self.graph.max_nbrs();
        let dim = self.graph.data_dim();
        // fwd[p] is the node that moves to position p.
        let mut fwd: Vec<usize> = Vec::new();
        let mut k: usize = 0;
        while k < n
            invariant
                k <= n,
                fwd@.len() == k,
            decreases n - k,
        {
            fwd.push(0);
            k = k + 1;
        }
        let mut v: usize = 0;
        while v < n
            invariant
                n == perm_inv@.len(),
                is_permutation(perm_inv@, n as nat),
                fwd@.len() == n,
                v <= n,
                forall|w: int| 0 <= w < v ==> fwd@[#[trigger] perm_inv@[w] as int] == w,
            decreases n - v,
        {
            fwd.set(perm_inv[v], v);
            proof {
                assert forall|w: int| 0 <= w < v + 1 implies fwd@[#[trigger] perm_inv@[w] as int] == w by {
                    if w < v {
                        assert(perm_inv@[w] != perm_inv@[v as int]);
                    }
                }
            }
            v = v + 1;
        }
        proof {
            // Every position is reached by some node.
            let s = perm_inv@.map_values(|x: usize| x as int);
            assert(s.no_duplicates()) by {
                assert forall|i: int, j: int| 0 <= i < s.len() && 0 <= j < s.len() && i != j implies s[i] != s[j] by {
                    if i < j {
                        assert(perm_inv@[i] != perm_inv@[j]);
                    } else {
                        assert(perm_inv@[j] != perm_inv@[i]);
                    }
                }
            }
            s.unique_seq_to_set();
            vstd::seq_lib::seq_to_set_is_finite(s);
            vstd::set_lib::lemma_int_range(0, n as int);
            let range = vstd::set_lib::set_int_range(0, n as int);
            assert(s.to_set().subset_of(range)) by {
                assert forall|x: int| s.to_set().contains(x) implies range.contains(x) by {
                    let i = choose|i: int| 0 <= i < s.len() && s[i] == x;
                }
            }
            vstd::set_lib::lemma_subset_equality(s.to_set(), range);
            assert forall|p: int| 0 <= p < n implies (#[trigger] fwd@[p] as int) < n && perm_inv@[fwd@[p] as int] == p by {
                assert(range.contains(p));
                assert(s.to_set().contains(p));
                let w = choose|w: int| 0 <= w < s.len() && s[w] == p;
                assert(fwd@[perm_inv@[w] as int] == w);
            }
        }
        proof {
            self.graph.lemma_layout_fits();
        }
        let mut graph = InMemStorage::<u32, T>::new(m, dim, n);
        let mut pos: usize = 0;
        while pos < n
            invariant
                self.wf(),
                n == self@.len(),
                m == self.spec_max_nbrs(),
                dim == self.spec_data_dim(),
                n == perm_inv@.len(),
                is_permutation(perm_inv@, n as nat),
                fwd@.len() == n,
                forall|p: int| 0 <= p < n ==> (#[trigger] fwd@[p] as int) < n && perm_inv@[fwd@[p] as int] == p,
                graph.wf(),
                graph.spec_max_nbrs() == m,
                graph.spec_data_dim() == dim,
                pos <= n,
                graph@.len() == pos,
                forall|p: int|
                    0 <= p < pos ==> #[trigger] graph@[p] == renumbered_node(self@[fwd@[p] as int], perm_inv@),
            decreases n - pos,
        {
            let v = fwd[pos];
            let nbrs = self.graph.nbrs(v);
            let mut mapped: Vec<u32> = Vec::new();
            let mut j: usize = 0;
            proof {
                assert(valid_list(self@[v as int].nbrs, n as int));
            }
            while j < nbrs.len()
                invariant
                    nbrs@ == self@[v as int].nbrs,
                    valid_list(nbrs@, n as int),
                    n == perm_inv@.len(),
                    is_permutation(perm_inv@, n as nat),
                    (n as int) < NONE,
                    j <= nbrs@.len(),
                    mapped@ =~= remap(nbrs@, perm_inv@).subrange(0, j as int),
                decreases nbrs@.len() - j,
            {
                let x = nbrs[j];
                if x == NONE {
                    mapped.push(NONE);
                } else {
                    mapped.push(perm_inv[x as usize] as u32);
                }
                j = j + 1;
            }
            proof {
                assert(remap(nbrs@, perm_inv@).subrange(0, nbrs@.len() as int) =~= remap(nbrs@, perm_inv@));
            }
            let ghost pre = graph@;
            graph.add_node(self.graph.label(v), mapped.as_slice(), self.graph.data(v));
            proof {
                assert forall|p: int|
                    0 <= p < pos + 1 implies #[trigger] graph@[p] == renumbered_node(self@[fwd@[p] as int], perm_inv@) by {
                    if p < pos {
                        assert(graph@[p] == pre[p]);
                    }
                }
            }
            pos = pos + 1;
        }
        let ghost g0 = self@;
        proof {
            assert forall|v: int| 0 <= v < g0.len() implies #[trigger] graph@[perm_inv@[v] as int] == renumbered_node(g0[v], perm_inv@) by {
                let p = perm_inv@[v] as int;
                assert((fwd@[p] as int) < n && perm_inv@[fwd@[p] as int] == p);
                assert(fwd@[p] as int == v) by {
                    if fwd@[p] as int != v {
                        assert(perm_inv@[fwd@[p] as int] != perm_inv@[v]);
                    }
                }
            }
            assert forall|i: int| 0 <= i < graph@.len() implies valid_list(#[trigger] graph@[i].nbrs, graph@.len() as int) by {
                let w = fwd@[i] as int;
                let l = g0[w].nbrs;
                assert(valid_list(l, n as int));
                let r = graph@[i].nbrs;
                assert(r == remap(l, perm_inv@));
                assert forall|a: int, b: int| 0 <= a < b < r.len() && r[a] != NONE implies #[trigger] r[a] != #[trigger] r[b] by {
                    if l[b] != NONE {
                        assert(l[a] != l[b]);
                        assert(perm_inv@[l[a] as int] != perm_inv@[l[b] as int]);
                        assert(perm_inv@[l[a] as int] as u32 as int == perm_inv@[l[a] as int] as int);
                        assert(perm_inv@[l[b] as int] as u32 as int == perm_inv@[l[b] as int] as int);
                    }
                }
            }
            assert forall|i: int| 0 <= i < graph@.len() implies #[trigger] graph@[i].nbrs.len() == graph.spec_max_nbrs()
                && graph@[i].data.len() == graph.spec_data_dim() by {
                let w = fwd@[i] as int;
                assert(g0[w].nbrs.len() == m);
            }
            if n == 1 {
                assert(fwd@[0] == 0);
            }
        }
        self.graph = graph;
    }

    /// The node that is scanned first among those closest to `query`, where the scan visits the
    /// ids `0, step, 2 * step, ...` below the node count and `step` is the node count divided by
    /// `num_initializations`, or 1 if that is 0.
    pub fn search_initialization(&self, query: &[T], num_initializations: usize) -> (r: usize)
        requires
            self.wf(),
            self@.len() > 0,
            num_initializations > 0,
            query@.len() == self.spec_data_dim(),
        ensures
            self.entry_point(query@, r as int, num_initializations as nat),
            r < self@.len(),
            (r as int) % init_step(self@.len(), num_initializations as nat) == 0,
            forall|k: int|
                0 <= k < self@.len() && k % init_step(self@.len(), num_initializations as nat) == 0
                    ==> self.dist_to(query@, r as int) <= self.dist_to(query@, k),
            forall|k: int|
                0 <= k < r && k % init_step(self@.len(), num_initializations as nat) == 0
                    ==> self.dist_to(query@, r as int) < self.dist_to(query@, k),
    {
        let n = self.graph.len();
        let mut step_size = n / num_initializations;
        if step_size < 1 {
            step_size = 1;
        }
        let ghost step = step_size as int;
        let mut min_dist: u128 = 0;
        let mut entry_node: usize = 0;
        let mut node: usize = 0;
        while node < n
            invariant
                self.wf(),
                n == self@.len(),
                n > 0,
                step_size == init_step(n as nat, num_initializations as nat),
                query@.len() == self.spec_data_dim(),
                node < n ==> node % step_size == 0,
                node <= n,
                step == step_size as int,
                step_size >= 1,
                node > 0 ==> entry_node < node && entry_node % step_size == 0 && min_dist
                    == self.dist_to(query@, entry_node as int),
                node == 0 ==> entry_node == 0,
                forall|k: int|
                    0 <= k < node && k % step == 0 ==> min_dist <= self.dist_to(query@, k),
                forall|k: int|
                    0 <= k < entry_node && k % step == 0 ==> min_dist < self.dist_to(query@, k),
            decreases n - node,
        {
            let dist = self.dist(query, self.graph.data(node));
            if node == 0 || dist < min_dist {
                min_dist = dist;
                entry_node = node;
            }
            if n - node <= step_size {
                proof {
                    assert forall|k: int| node < k < n implies #[trigger] (k % step) != 0 by {
                        if k % step == 0 {
                            assert(k >= node + step) by (nonlinear_arith)
                                requires (node as int) % step == 0, k % step == 0, node < k, step > 0;
                        }
                    }
                }
                node = n;
            } else {
                proof {
                    assert((node + step) % step == 0) by (nonlinear_arith)
                        requires (node as int) % step == 0, step > 0;
                    assert forall|k: int| node < k < node + step implies #[trigger] (k % step) != 0 by {
                        if k % step == 0 {
                            assert(k >= node + step) by (nonlinear_arith)
                                requires (node as int) % step == 0, k % step == 0, node < k, step > 0;
                        }
                    }
                }
                node = node + step_size;
            }
        }
        proof {
            let st = init_step(n as nat, num_initializations as nat);
            let g = self@;
            let m = self.metric();
            let de = m.spec_dist(query@, g[entry_node as int].data);
            assert forall|k: int| 0 <= k < n && k % st == 0 implies de <= #[trigger] m.spec_dist(query@, g[k].data) by {
                assert(self.dist_to(query@, k) == m.spec_dist(query@, g[k].data));
            }
            assert forall|k: int| 0 <= k < entry_node && k % st == 0 implies de < #[trigger] m.spec_dist(query@, g[k].data) by {
                assert(self.dist_to(query@, k) == m.spec_dist(query@, g[k].data));
            }
        }
        entry_node
    }
}

/// Whether `p` is a permutation of `0..n`.
pub fn check_permutation(p: &Vec<usize>, n: usize) -> (r: bool)
    ensures
        r == is_permutation(p@, n as nat),
{
    if p.len() != n {
        return false;
    }
    let mut seen: Vec<bool> = Vec::new();
    let mut k: usize = 0;
    while k < n
        invariant
            k <= n,
            seen@.len() == k,
            forall|x: int| 0 <= x < k ==> !seen@[x],
        decreases n - k,
    {
        seen.push(false);
        k = k + 1;
    }
    let mut i: usize = 0;
    while i < n
        invariant
            p@.len() == n,
            seen@.len() == n,
            i <= n,
            forall|j: int| 0 <= j < i ==> (#[trigger] p@[j] as int) < n,
            forall|a: int, b: int| 0 <= a < b < i ==> #[trigger] p@[a] != #[trigger] p@[b],
            forall|x: int| 0 <= x < n ==> (seen@[x] <==> exists|j: int| 0 <= j < i && #[trigger] p@[j] == x),
        decreases n - i,
    {
        let x = p[i];
        if x >= n {
            return false;
        }
        if seen[x] {
            proof {
                let j = choose|j: int| 0 <= j < i && #[trigger] p@[j] == x;
                assert(p@[j] == p@[i as int]);
            }
            return false;
        }
        seen.set(x, true);
        proof {
            assert forall|y: int| 0 <= y < n implies (seen@[y] <==> exists|j: int| 0 <= j < i + 1 && #[trigger] p@[j] == y) by {
                if y == x {
                    assert(p@[i as int] == y);
                } else if exists|j: int| 0 <= j < i + 1 && #[trigger] p@[j] == y {
                    let j = choose|j: int| 0 <= j < i + 1 && #[trigger] p@[j] == y;
                    assert(j < i);
                }
            }
            assert forall|a: int, b: int| 0 <= a < b < i + 1 implies #[trigger] p@[a] != #[trigger] p@[b] by {
                if b == i && p@[a] == p@[b] {
                    assert(seen@[x as int]);
                }
            }
        }
        i = i + 1;
    }
    true
}

} // verus!
