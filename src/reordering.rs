use vstd::prelude::*;

verus! {

/// `p` maps each of the ids `0..n` to a distinct position in `0..n`.
pub open spec fn is_permutation(p: Seq<usize>, n: nat) -> bool {
    &&& p.len() == n
    &&& forall|i: int| 0 <= i < n ==> (#[trigger] p[i] as int) < n
    &&& forall|i: int, j: int| 0 <= i < j < n ==> #[trigger] p[i] != #[trigger] p[j]
}

/// Every neighbor id in the adjacency `out` is a node id.
pub open spec fn valid_adjacency(out: Seq<Vec<usize>>) -> bool {
    forall|v: int, k: int| 0 <= v < out.len() && 0 <= k < out[v]@.len() ==> (#[trigger] out[v]@[k] as int) < out.len()
}

/// A strategy that computes a new order of the nodes of a graph from its out-neighbor lists:
/// the result gives, for each node, its new position.
pub trait Reordering {
    fn reorder(&self, out_nodes: &Vec<Vec<usize>>) -> Vec<usize>
        requires
            valid_adjacency(out_nodes@),
    ;
}

/// `x + d`, held to the range of `i64`.
pub open spec fn clamped_sum(x: i64, d: i32) -> i64 {
    if x + d > i64::MAX {
        i64::MAX
    } else if x + d < i64::MIN {
        i64::MIN
    } else {
        (x + d) as i64
    }
}

/// The state of a G-order queue: the score of each id, and whether it is still in the queue.
pub struct QState {
    pub scores: Seq<i64>,
    pub live: Seq<bool>,
}

/// A fresh queue of `n` ids, all in it with score 0.
pub open spec fn q_fresh(n: nat) -> QState {
    QState { scores: Seq::new(n, |i: int| 0i64), live: Seq::new(n, |i: int| true) }
}

/// The state after adding `delta` to the score of `node`, when it is in the queue.
pub open spec fn q_update(st: QState, node: int, delta: i32) -> QState {
    if 0 <= node < st.scores.len() && st.live[node] {
        QState { scores: st.scores.update(node, clamped_sum(st.scores[node], delta)), live: st.live }
    } else {
        st
    }
}

/// `r` is the id `pop` takes: in the queue, of highest score, and the smallest such id.
pub open spec fn is_top(st: QState, r: int) -> bool {
    &&& 0 <= r < st.scores.len()
    &&& st.live[r]
    &&& forall|i: int| 0 <= i < st.scores.len() && #[trigger] st.live[i] ==> st.scores[i] <= st.scores[r]
    &&& forall|i: int| 0 <= i < r && #[trigger] st.live[i] ==> st.scores[i] < st.scores[r]
}

/// The id `pop` takes from state `st`.
pub open spec fn q_top(st: QState) -> int {
    choose|r: int| is_top(st, r)
}

/// At most one id is the one `pop` takes.
pub proof fn lemma_top_unique(st: QState, a: int, b: int)
    requires
        is_top(st, a),
        is_top(st, b),
    ensures
        a == b,
{
    if a < b {
        assert(st.scores[a] < st.scores[b]);
        assert(st.scores[b] <= st.scores[a]);
    } else if b < a {
        assert(st.scores[b] < st.scores[a]);
        assert(st.scores[a] <= st.scores[b]);
    }
}

/// A max-priority queue of node ids with integer scores that can be changed while the node is
/// in the queue. Popping takes a node of highest score, the smallest id among equals.
pub struct PriorityQueue {
    scores: Vec<i64>,
    live: Vec<bool>,
    n_live: usize,
    live_set: Ghost<Set<int>>,
}

impl PriorityQueue {
    /// The number of ids the queue was made with.
    pub closed spec fn size(&self) -> nat {
        self.scores@.len()
    }

    /// The score of node `i`.
    pub closed spec fn score(&self, i: int) -> i64 {
        self.scores@[i]
    }

    /// The scores and membership of all ids.
    pub closed spec fn qstate(&self) -> QState {
        QState { scores: self.scores@, live: self.live@ }
    }

    /// Whether node `i` is still in the queue.
    pub closed spec fn is_live(&self, i: int) -> bool {
        0 <= i < self.size() && self.live@[i]
    }

    /// The ids still in the queue.
    pub closed spec fn live_ids(&self) -> Set<int> {
        self.live_set@
    }

    pub closed spec fn wf(&self) -> bool {
        &&& self.live@.len() == self.scores@.len()
        &&& self.live_set@.finite()
        &&& self.live_set@.len() == self.n_live
        &&& forall|i: int| #[trigger] self.live_set@.contains(i) <==> 0 <= i < self.scores@.len() && self.live@[i]
    }

    /// The state view agrees with `score` and `is_live`.
    pub proof fn lemma_qstate(&self)
        requires
            self.wf(),
        ensures
            self.qstate().scores.len() == self.size(),
            self.qstate().live.len() == self.size(),
            forall|i: int| 0 <= i < self.size() ==> #[trigger] self.qstate().scores[i] == self.score(i),
            forall|i: int| 0 <= i < self.size() ==> #[trigger] self.qstate().live[i] == self.is_live(i),
    {
    }

    /// Only the ids the queue was made with can be in it.
    pub proof fn lemma_live_in_range(&self)
        requires
            self.wf(),
        ensures
            forall|i: int| #[trigger] self.is_live(i) ==> 0 <= i < self.size(),
            forall|i: int| #[trigger] self.live_ids().contains(i) <==> self.is_live(i),
            self.live_ids().finite(),
    {
    }

    /// A queue holding the ids `0..n_nodes`, all of score 0.
    pub fn new(n_nodes: usize) -> (r: Self)
        ensures
            r.wf(),
            r.size() == n_nodes,
            forall|i: int| 0 <= i < n_nodes ==> r.score(i) == 0,
            forall|i: int| #[trigger] r.is_live(i) <==> 0 <= i < n_nodes,
            r.live_ids().len() == n_nodes,
            r.qstate() == q_fresh(n_nodes as nat),
    {
        let mut scores: Vec<i64> = Vec::new();
        let mut live: Vec<bool> = Vec::new();
        let mut k: usize = 0;
        while k < n_nodes
            invariant
                k <= n_nodes,
                scores@.len() == k,
                live@.len() == k,
                forall|i: int| 0 <= i < k ==> scores@[i] == 0 && live@[i],
            decreases n_nodes - k,
        {
            scores.push(0);
            live.push(true);
            k = k + 1;
        }
        let ghost s = vstd::set_lib::set_int_range(0, n_nodes as int);
        proof {
            vstd::set_lib::lemma_int_range(0, n_nodes as int);
        }
        assert(scores@ =~= q_fresh(n_nodes as nat).scores);
        assert(live@ =~= q_fresh(n_nodes as nat).live);
        PriorityQueue { scores, live, n_live: n_nodes, live_set: Ghost(s) }
    }

    /// The number of ids still in the queue.
    pub fn len(&self) -> (r: usize)
        requires
            self.wf(),
        ensures
            r == self.live_ids().len(),
    {
        self.n_live
    }

    /// Adds `delta` to the score of `node`, held to the range of `i64`; does nothing when
    /// `node` is not in the queue.
    pub fn update(&mut self, node: usize, delta: i32)
        requires
            old(self).wf(),
        ensures
            final(self).wf(),
            final(self).size() == old(self).size(),
            final(self).live_ids() == old(self).live_ids(),
            forall|i: int| #[trigger] final(self).is_live(i) == old(self).is_live(i),
            forall|i: int|
                0 <= i < old(self).size() && i != node ==> #[trigger] final(self).score(i) == old(self).score(i),
            old(self).is_live(node as int) ==> final(self).score(node as int) == clamped_sum(old(self).score(node as int), delta),
            !old(self).is_live(node as int) && node < old(self).size() ==> final(self).score(node as int) == old(self).score(node as int),
            final(self).qstate() == q_update(old(self).qstate(), node as int, delta),
    {
        if node >= self.scores.len() || !self.live[node] {
            return;
        }
        let s = self.scores[node];
        let new_score: i64 = if delta >= 0 {
            if s > i64::MAX - delta as i64 {
                i64::MAX
            } else {
                s + delta as i64
            }
        } else {
            if s < i64::MIN - delta as i64 {
                i64::MIN
            } else {
                s + delta as i64
            }
        };
        let ghost pre = self.scores@;
        self.scores.set(node, new_score);
        assert(self.scores@ =~= pre.update(node as int, clamped_sum(pre[node as int], delta)));
    }

    /// Removes and returns a node of highest score, the smallest id among equals.
    pub fn pop(&mut self) -> (r: usize)
        requires
            old(self).wf(),
            old(self).live_ids().len() > 0,
        ensures
            final(self).wf(),
            final(self).size() == old(self).size(),
            old(self).is_live(r as int),
            final(self).live_ids() == old(self).live_ids().remove(r as int),
            final(self).live_ids().len() == old(self).live_ids().len() - 1,
            forall|i: int| 0 <= i < old(self).size() ==> #[trigger] final(self).score(i) == old(self).score(i),
            forall|i: int| #[trigger] final(self).is_live(i) == (old(self).is_live(i) && i != r),
            forall|i: int| #[trigger] old(self).is_live(i) ==> old(self).score(i) <= old(self).score(r as int),
            forall|i: int| 0 <= i < r && #[trigger] old(self).is_live(i) ==> old(self).score(i) < old(self).score(r as int),
            r == q_top(old(self).qstate()),
            final(self).qstate() == (QState { live: old(self).qstate().live.update(r as int, false), ..old(self).qstate() }),
    {
        proof {
            if forall|i: int| 0 <= i < self.scores@.len() ==> !self.live@[i] {
                assert(self.live_set@ =~= Set::empty());
            }
        }
        let n = self.scores.len();
        let mut best: usize = n;
        let mut k: usize = 0;
        while k < n
            invariant
                self.wf(),
                n == self.scores@.len(),
                k <= n,
                best == n || (best < k && self.live@[best as int]),
                best == n ==> forall|i: int| 0 <= i < k ==> !self.live@[i],
                best < n ==> forall|i: int| 0 <= i < k && self.live@[i] ==> self.scores@[i] <= self.scores@[best as int],
                best < n ==> forall|i: int| 0 <= i < best && self.live@[i] ==> self.scores@[i] < self.scores@[best as int],
            decreases n - k,
        {
            if self.live[k] && (best == n || self.scores[k] > self.scores[best]) {
                best = k;
            }
            k = k + 1;
        }
        proof {
            let st = self.qstate();
            assert(is_top(st, best as int));
            lemma_top_unique(st, q_top(st), best as int);
        }
        self.live.set(best, false);
        self.n_live = self.n_live - 1;
        proof {
            self.live_set@ = self.live_set@.remove(best as int);
        }
        best
    }

    /// The ids still in the queue, by increasing score and, among equal scores, by increasing id.
    #[verifier::rlimit(40)]
    pub fn nodes(&self) -> (r: Vec<usize>)
        requires
            self.wf(),
        ensures
            forall|k: int| 0 <= k < r@.len() ==> self.is_live(#[trigger] r@[k] as int),
            forall|i: int| #[trigger] self.is_live(i) ==> r@.contains(i as usize),
            forall|a: int, b: int|
                0 <= a < b < r@.len() ==> self.score(#[trigger] r@[a] as int) < self.score(#[trigger] r@[b] as int)
                    || (self.score(r@[a] as int) == self.score(r@[b] as int) && r@[a] < r@[b]),
    {
        let n = self.scores.len();
        let mut out: Vec<usize> = Vec::new();
        let mut k: usize = 0;
        while k < n
            invariant
                self.wf(),
                n == self.scores@.len(),
                k <= n,
                forall|j: int| 0 <= j < out@.len() ==> (#[trigger] out@[j] as int) < k && self.live@[out@[j] as int],
                forall|i: int| 0 <= i < k && self.live@[i] ==> out@.contains(i as usize),
                forall|a: int, b: int|
                    0 <= a < b < out@.len() ==> self.scores@[#[trigger] out@[a] as int] < self.scores@[#[trigger] out@[b] as int]
                        || (self.scores@[out@[a] as int] == self.scores@[out@[b] as int] && out@[a] < out@[b]),
            decreases n - k,
        {
            if self.live[k] {
                let sk = self.scores[k];
                let mut p: usize = out.len();
                while p > 0 && self.scores[out[p - 1]] > sk
                    invariant
                        self.wf(),
                        n == self.scores@.len(),
                        k < n,
                        sk == self.scores@[k as int],
                        p <= out@.len(),
                        forall|j: int| 0 <= j < out@.len() ==> (#[trigger] out@[j] as int) < k && self.live@[out@[j] as int],
                        forall|j: int| p <= j < out@.len() ==> self.scores@[#[trigger] out@[j] as int] > sk,
                    decreases p,
                {
                    p = p - 1;
                }
                let ghost pre = out@;
                out.insert(p, k);
                proof {
                    assert forall|i: int| 0 <= i <= k && self.live@[i] implies out@.contains(i as usize) by {
                        if i == k {
                            assert(out@[p as int] == k);
                        } else {
                            let j = choose|j: int| 0 <= j < pre.len() && pre[j] == i as usize;
                            if j < p {
                                assert(out@[j] == pre[j]);
                            } else {
                                assert(out@[j + 1] == pre[j]);
                            }
                        }
                    }
                    assert forall|a: int, b: int|
                        0 <= a < b < out@.len() implies self.scores@[#[trigger] out@[a] as int] < self.scores@[#[trigger] out@[b] as int]
                            || (self.scores@[out@[a] as int] == self.scores@[out@[b] as int] && out@[a] < out@[b]) by {
                        if a < p && b < p {
                            assert(out@[a] == pre[a] && out@[b] == pre[b]);
                        } else if a < p && b == p {
                            assert(out@[a] == pre[a]);
                            if p > 0 {
                                assert(pre[p - 1] == out@[p - 1]);
                                if a < p - 1 {
                                    assert(out@[p - 1] == pre[p - 1]);
                                }
                            }
                        } else if a < p && b > p {
                            assert(out@[a] == pre[a] && out@[b] == pre[b - 1]);
                        } else if a == p {
                            assert(out@[b] == pre[b - 1]);
                        } else {
                            assert(out@[a] == pre[a - 1] && out@[b] == pre[b - 1]);
                        }
                    }
                }
            }
            k = k + 1;
        }
        out
    }
}

/// The out-neighbor lists as sequences.
pub open spec fn adj(out: Seq<Vec<usize>>) -> Seq<Seq<usize>> {
    out.map_values(|v: Vec<usize>| v@)
}

/// The state after adding `delta` to the score of each of `nodes[k..]`, in order.
pub open spec fn q_update_from(st: QState, nodes: Seq<usize>, k: int, delta: i32) -> QState
    decreases nodes.len() - k,
{
    if k < 0 || k >= nodes.len() {
        st
    } else {
        q_update_from(q_update(st, nodes[k] as int, delta), nodes, k + 1, delta)
    }
}

/// The state after, for each in-neighbor `u` of `ins[k..]` in order, adding `delta` to the score
/// of `u` and then of each out-neighbor of `u`.
pub open spec fn q_around_from(st: QState, out: Seq<Seq<usize>>, ins: Seq<usize>, k: int, delta: i32) -> QState
    decreases ins.len() - k,
{
    if k < 0 || k >= ins.len() {
        st
    } else {
        let u = ins[k] as int;
        q_around_from(q_update_from(q_update(st, u, delta), out[u], 0, delta), out, ins, k + 1, delta)
    }
}

/// The state after rewarding the neighborhood of `x` with `delta`: its out-neighbors, then each
/// in-neighbor `u` with the out-neighbors of `u`.
pub open spec fn q_bump_around(st: QState, out: Seq<Seq<usize>>, inn: Seq<Seq<usize>>, x: int, delta: i32) -> QState {
    q_around_from(q_update_from(st, out[x], 0, delta), out, inn[x], 0, delta)
}

/// The in-neighbor lists after the first `k` out-edges of node `a` are added to `inl`.
pub open spec fn add_in_edges(inl: Seq<Seq<usize>>, a: int, l: Seq<usize>, k: int) -> Seq<Seq<usize>>
    decreases k,
{
    if k <= 0 {
        inl
    } else {
        let t = add_in_edges(inl, a, l, k - 1);
        let v = l[k - 1] as int;
        t.update(v, t[v].push(a as usize))
    }
}

/// The in-neighbor lists of the out-edges of the nodes `0..a`: each lists its in-neighbors in
/// increasing order, once per edge.
pub open spec fn in_lists(out: Seq<Seq<usize>>, a: int) -> Seq<Seq<usize>>
    decreases a,
{
    if a <= 0 {
        Seq::new(out.len(), |i: int| Seq::<usize>::empty())
    } else {
        add_in_edges(in_lists(out, a - 1), a - 1, out[a - 1], out[a - 1].len() as int)
    }
}

/// G-order's placements from state `st`, with `perm` placed so far, until `n` are placed: each
/// step places the top of the queue, rewards its neighborhood, and withdraws the reward of the
/// node that leaves the window of the last `w` placed.
pub open spec fn gorder_rounds(out: Seq<Seq<usize>>, inn: Seq<Seq<usize>>, w: nat, st: QState, perm: Seq<usize>, n: nat) -> Seq<usize>
    decreases n - perm.len(),
{
    if perm.len() >= n {
        perm
    } else {
        let i = perm.len() as int;
        let r = q_top(st);
        let st1 = QState { live: st.live.update(r, false), ..st };
        let perm1 = perm.push(r as usize);
        let st2 = q_bump_around(st1, out, inn, r, 1i32);
        let st3 = if i >= w { q_bump_around(st2, out, inn, perm1[i - w] as int, -1i32) } else { st2 };
        gorder_rounds(out, inn, w, st3, perm1, n)
    }
}

/// The order in which G-order with window `w` places the nodes of the graph `out`: node 0
/// starts with score 1, every other node with 0.
pub open spec fn gorder_order(out: Seq<Seq<usize>>, w: nat) -> Seq<usize> {
    let n = out.len();
    gorder_rounds(out, in_lists(out, n as int), w, q_update(q_fresh(n), 0, 1i32), Seq::empty(), n)
}

/// Adds `delta` to the score of each node of `nodes`.
fn bump_all(queue: &mut PriorityQueue, nodes: &Vec<usize>, delta: i32)
    requires
        old(queue).wf(),
    ensures
        final(queue).wf(),
        final(queue).size() == old(queue).size(),
        final(queue).live_ids() == old(queue).live_ids(),
        forall|i: int| 0 <= i < old(queue).size() ==> #[trigger] final(queue).is_live(i) == old(queue).is_live(i),
        final(queue).qstate() == q_update_from(old(queue).qstate(), nodes@, 0, delta),
{
    let mut k: usize = 0;
    while k < nodes.len()
        invariant
            q_update_from(queue.qstate(), nodes@, k as int, delta) == q_update_from(old(queue).qstate(), nodes@, 0, delta),
            queue.wf(),
            queue.size() == old(queue).size(),
            queue.live_ids() == old(queue).live_ids(),
            forall|i: int| 0 <= i < old(queue).size() ==> #[trigger] queue.is_live(i) == old(queue).is_live(i),
        decreases nodes@.len() - k,
    {
        queue.update(nodes[k], delta);
        k = k + 1;
    }
}

/// Adds `delta` to the score of each out-neighbor of `x`, of each in-neighbor `u` of `x`, and of
/// each out-neighbor of such a `u`.
fn bump_around(
    queue: &mut PriorityQueue,
    out_nodes: &Vec<Vec<usize>>,
    in_nodes: &Vec<Vec<usize>>,
    x: usize,
    delta: i32,
)
    requires
        old(queue).wf(),
        x < out_nodes@.len(),
        x < in_nodes@.len(),
        in_nodes@.len() == out_nodes@.len(),
        forall|v: int, k: int| 0 <= v < in_nodes@.len() && 0 <= k < in_nodes@[v]@.len() ==> (#[trigger] in_nodes@[v]@[k] as int) < out_nodes@.len(),
    ensures
        final(queue).wf(),
        final(queue).size() == old(queue).size(),
        final(queue).live_ids() == old(queue).live_ids(),
        forall|i: int| 0 <= i < old(queue).size() ==> #[trigger] final(queue).is_live(i) == old(queue).is_live(i),
        final(queue).qstate() == q_bump_around(old(queue).qstate(), adj(out_nodes@), adj(in_nodes@), x as int, delta),
{
    bump_all(queue, &out_nodes[x], delta);
    let ghost st1 = queue.qstate();
    let ins = &in_nodes[x];
    let mut k: usize = 0;
    while k < ins.len()
        invariant
            q_around_from(queue.qstate(), adj(out_nodes@), ins@, k as int, delta)
                == q_around_from(st1, adj(out_nodes@), ins@, 0, delta),
            st1 == q_update_from(old(queue).qstate(), adj(out_nodes@)[x as int], 0, delta),
            ins@ == adj(in_nodes@)[x as int],
            queue.wf(),
            x < in_nodes@.len(),
            ins == in_nodes@[x as int],
            forall|v: int, kk: int| 0 <= v < in_nodes@.len() && 0 <= kk < in_nodes@[v]@.len() ==> (#[trigger] in_nodes@[v]@[kk] as int) < out_nodes@.len(),
            queue.size() == old(queue).size(),
            queue.live_ids() == old(queue).live_ids(),
            forall|i: int| 0 <= i < old(queue).size() ==> #[trigger] queue.is_live(i) == old(queue).is_live(i),
        decreases ins@.len() - k,
    {
        let u = ins[k];
        queue.update(u, delta);
        assert(out_nodes@[u as int]@ == adj(out_nodes@)[u as int]);
        bump_all(queue, &out_nodes[u], delta);
        k = k + 1;
    }
}

/// The G-order strategy: nodes are placed one at a time, each time the one with the most links
/// (direct, or through a common in-neighbor) to the nodes placed in the last `w` positions.
pub struct GOrder {
    w: usize,
}

impl GOrder {
    /// The window size.
    pub closed spec fn window(&self) -> usize {
        self.w
    }

    /// The strategy with window `w`.
    pub fn new(w: usize) -> (r: Self)
        ensures
            r.window() == w,
    {
        GOrder { w }
    }

    /// The position G-order gives each node of the graph with out-neighbor lists `out_nodes`.
    pub fn permutation(&self, out_nodes: &Vec<Vec<usize>>) -> (r: Vec<usize>)
        requires
            valid_adjacency(out_nodes@),
        ensures
            is_permutation(r@, out_nodes@.len()),
            forall|i: int|
                0 <= i < out_nodes@.len() ==> r@[#[trigger] gorder_order(adj(out_nodes@), self.window() as nat)[i] as int] == i,
            out_nodes@.len() >= 1 ==> r@[0] == 0,
    {
        let n = out_nodes.len();
        let ghost out_m = adj(out_nodes@);
        let mut in_nodes: Vec<Vec<usize>> = Vec::new();
        let mut k: usize = 0;
        while k < n
            invariant
                k <= n,
                in_nodes@.len() == k,
                forall|v: int| 0 <= v < k ==> (#[trigger] in_nodes@[v])@ == Seq::<usize>::empty(),
                forall|v: int, kk: int| 0 <= v < in_nodes@.len() && 0 <= kk < in_nodes@[v]@.len() ==> (#[trigger] in_nodes@[v]@[kk] as int) < n,
            decreases n - k,
        {
            in_nodes.push(Vec::new());
            k = k + 1;
        }
        assert(adj(in_nodes@) =~= in_lists(out_m, 0));
        let mut node: usize = 0;
        while node < n
            invariant
                n == out_nodes@.len(),
                valid_adjacency(out_nodes@),
                node <= n,
                in_nodes@.len() == n,
                out_m == adj(out_nodes@),
                adj(in_nodes@) == in_lists(out_m, node as int),
                forall|v: int, kk: int| 0 <= v < in_nodes@.len() && 0 <= kk < in_nodes@[v]@.len() ==> (#[trigger] in_nodes@[v]@[kk] as int) < n,
            decreases n - node,
        {
            let nbrs = &out_nodes[node];
            let mut j: usize = 0;
            while j < nbrs.len()
                invariant
                    n == out_nodes@.len(),
                    valid_adjacency(out_nodes@),
                    node < n,
                    nbrs == out_nodes@[node as int],
                    in_nodes@.len() == n,
                    out_m == adj(out_nodes@),
                    j <= nbrs@.len(),
                    adj(in_nodes@) == add_in_edges(in_lists(out_m, node as int), node as int, out_m[node as int], j as int),
                    forall|v: int, kk: int| 0 <= v < in_nodes@.len() && 0 <= kk < in_nodes@[v]@.len() ==> (#[trigger] in_nodes@[v]@[kk] as int) < n,
                decreases nbrs@.len() - j,
            {
                let nbr = nbrs[j];
                assert(out_nodes@[node as int]@[j as int] == nbr);
                let ghost pre = in_nodes@;
                in_nodes[nbr].push(node);
                proof {
                    assert(out_m[node as int] == nbrs@);
                    assert(adj(in_nodes@) =~= adj(pre).update(nbr as int, adj(pre)[nbr as int].push(node)));
                }
                j = j + 1;
            }
            proof {
                assert(out_m[node as int] == nbrs@);
            }
            node = node + 1;
        }
        let mut perm: Vec<usize> = Vec::new();
        let mut queue = PriorityQueue::new(n);
        queue.update(0, 1);
        let ghost in_m = adj(in_nodes@);
        let ghost w = self.window() as nat;
        let ghost order = gorder_order(out_m, w);
        let mut i: usize = 0;
        while i < n
            invariant
                out_m == adj(out_nodes@),
                in_m == adj(in_nodes@),
                in_m == in_lists(out_m, n as int),
                w == self.window(),
                order == gorder_order(out_m, w),
                gorder_rounds(out_m, in_m, w, queue.qstate(), perm@, n as nat) == order,
                n >= 1 && i >= 1 ==> perm@[0] == 0,
                i == 0 ==> queue.qstate() == q_update(q_fresh(n as nat), 0, 1i32),
                n == out_nodes@.len(),
                valid_adjacency(out_nodes@),
                in_nodes@.len() == n,
                forall|v: int, kk: int| 0 <= v < in_nodes@.len() && 0 <= kk < in_nodes@[v]@.len() ==> (#[trigger] in_nodes@[v]@[kk] as int) < n,
                queue.wf(),
                queue.size() == n,
                i <= n,
                perm@.len() == i,
                queue.live_ids().len() == n - i,
                forall|j: int| 0 <= j < i ==> (#[trigger] perm@[j] as int) < n,
                forall|a: int, b: int| 0 <= a < b < i ==> #[trigger] perm@[a] != #[trigger] perm@[b],
                forall|v: int| 0 <= v < n ==> (#[trigger] queue.is_live(v) <==> !perm@.contains(v as usize)),
            decreases n - i,
        {
            let ghost st = queue.qstate();
            let next = queue.pop();
            proof {
                if i == 0 {
                    queue.lemma_qstate();
                    assert(is_top(st, 0));
                    lemma_top_unique(st, 0, next as int);
                }
            }
            let ghost pre = perm@;
            perm.push(next);
            proof {
                assert forall|v: int| 0 <= v < n implies (#[trigger] queue.is_live(v) <==> !perm@.contains(v as usize)) by {
                    if perm@.contains(v as usize) && v != next {
                        let j = choose|j: int| 0 <= j < perm@.len() && perm@[j] == v as usize;
                        assert(pre[j] == v as usize);
                    }
                    if pre.contains(v as usize) {
                        let j = choose|j: int| 0 <= j < pre.len() && pre[j] == v as usize;
                        assert(perm@[j] == v as usize);
                    }
                    if v == next {
                        assert(perm@[i as int] == next);
                    }
                }
                assert forall|a: int, b: int| 0 <= a < b < i + 1 implies #[trigger] perm@[a] != #[trigger] perm@[b] by {
                    if b == i {
                        assert(pre.contains(perm@[a])) by {
                            assert(pre[a] == perm@[a]);
                        }
                    }
                }
            }
            bump_around(&mut queue, out_nodes, &in_nodes, next, 1);
            if i >= self.w {
                let last = perm[i - self.w];
                bump_around(&mut queue, out_nodes, &in_nodes, last, -1);
            }
            i = i + 1;
        }
        proof {
            assert(perm@ == order);
            assert forall|v: usize| v < n implies #[trigger] perm@.contains(v) by {
                if !perm@.contains(v) {
                    assert(queue.is_live(v as int));
                    assert(queue.live_ids().contains(v as int));
                    queue.live_ids().lemma_len0_is_empty();
                }
            }
        }
        let mut perm_inv: Vec<usize> = Vec::new();
        let mut k: usize = 0;
        while k < n
            invariant
                k <= n,
                perm_inv@.len() == k,
                forall|j: int| 0 <= j < k ==> perm_inv@[j] == 0,
            decreases n - k,
        {
            perm_inv.push(0);
            k = k + 1;
        }
        let mut pos: usize = 0;
        while pos < n
            invariant
                n == perm@.len(),
                perm_inv@.len() == n,
                pos <= n,
                forall|j: int| 0 <= j < n ==> (#[trigger] perm@[j] as int) < n,
                forall|a: int, b: int| 0 <= a < n && 0 <= b < n && a != b ==> #[trigger] perm@[a] != #[trigger] perm@[b],
                forall|j: int| 0 <= j < n ==> (#[trigger] perm_inv@[j] as int) < n,
                forall|j: int| 0 <= j < pos ==> perm_inv@[#[trigger] perm@[j] as int] == j,
            decreases n - pos,
        {
            perm_inv.set(perm[pos], pos);
            pos = pos + 1;
        }
        proof {
            assert forall|a: int, b: int| 0 <= a < b < n implies #[trigger] perm_inv@[a] != #[trigger] perm_inv@[b] by {
                assert(perm@.contains(a as usize));
                assert(perm@.contains(b as usize));
                let ia = choose|j: int| 0 <= j < perm@.len() && perm@[j] == a as usize;
                let ib = choose|j: int| 0 <= j < perm@.len() && perm@[j] == b as usize;
                assert(perm_inv@[perm@[ia] as int] == ia);
                assert(perm_inv@[perm@[ib] as int] == ib);
            }
        }
        proof {
            if n >= 1 {
                assert(perm_inv@[perm@[0] as int] == 0);
            }
        }
        perm_inv
    }
}

impl Reordering for GOrder {
    fn reorder(&self, out_nodes: &Vec<Vec<usize>>) -> (r: Vec<usize>)
        ensures
            is_permutation(r@, out_nodes@.len()),
            forall|i: int|
                0 <= i < out_nodes@.len() ==> r@[#[trigger] gorder_order(adj(out_nodes@), self.window() as nat)[i] as int] == i,
    {
        self.permutation(out_nodes)
    }
}

} // verus!
