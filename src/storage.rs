use vstd::layout::{align_of, layout_for_type_is_valid, size_of};
use vstd::prelude::*;

verus! {

broadcast use vstd::layout::layout_of_primitives;

/// The caller-chosen identifier stored with each node.
pub type LabelT = u64;

/// Rounds `n` up to the next multiple of `align`.
pub open spec fn padded(n: int, align: int) -> int {
    if n % align == 0 {
        n
    } else {
        n + align - n % align
    }
}

/// Byte offset of the neighbor list inside a node slot.
pub open spec fn nbr_offset_of<N>() -> int {
    padded(size_of::<LabelT>() as int, align_of::<N>() as int)
}

/// Byte offset of the vector inside a node slot.
pub open spec fn data_offset_of<N, D>(max_nbrs: int) -> int {
    padded(nbr_offset_of::<N>() + max_nbrs * size_of::<N>(), align_of::<D>() as int)
}

/// Size in bytes of one node slot: label, then neighbors, then vector, each naturally aligned,
/// and the whole slot a multiple of the label's alignment.
pub open spec fn node_size_of<N, D>(max_nbrs: int, data_dim: int) -> int {
    padded(data_offset_of::<N, D>(max_nbrs) + data_dim * size_of::<D>(), align_of::<LabelT>() as int)
}

proof fn lemma_padded(n: int, align: int)
    requires
        n >= 0,
        align > 0,
    ensures
        n <= padded(n, align) < n + align,
        padded(n, align) % align == 0,
{
    if n % align != 0 {
        assert((n + align - n % align) % align == 0) by (nonlinear_arith)
            requires align > 0, n >= 0;
    }
}

/// Rounds `n` up to the next multiple of `align`.
pub fn pad_to(n: usize, align: usize) -> (r: usize)
    requires
        align > 0,
        padded(n as int, align as int) <= usize::MAX,
    ensures
        r as int == padded(n as int, align as int),
        r >= n,
        r % align == 0,
{
    proof {
        lemma_padded(n as int, align as int);
    }
    let rem = n % align;
    if rem == 0 {
        return n;
    }
    n + (align - rem)
}

/// Storage round trip: if each state of a storage is the one before it with one more node
/// appended (as `add_node` leaves it), starting from an empty storage, then node `i` of the
/// last state holds exactly the label, neighbor list and vector of the `i`-th node appended.
pub proof fn lemma_round_trip<N, D>(states: Seq<Seq<StoredNode<N, D>>>, added: Seq<StoredNode<N, D>>)
    requires
        states.len() == added.len() + 1,
        states[0] == Seq::<StoredNode<N, D>>::empty(),
        forall|k: int| 0 <= k < added.len() ==> #[trigger] states[k + 1] == states[k].push(added[k]),
    ensures
        states.last().len() == added.len(),
        forall|i: int|
            0 <= i < added.len() ==> #[trigger] states.last()[i].label == added[i].label
                && states.last()[i].nbrs == added[i].nbrs && states.last()[i].data == added[i].data,
    decreases added.len(),
{
    if added.len() > 0 {
        let k = added.len() - 1;
        lemma_round_trip(states.drop_last(), added.drop_last());
        assert(states.drop_last().last() == states[k]);
        assert(states.last() == states[k].push(added[k]));
        assert forall|i: int| 0 <= i < added.len() implies #[trigger] states.last()[i].label == added[i].label
            && states.last()[i].nbrs == added[i].nbrs && states.last()[i].data == added[i].data by {
            if i < k {
                assert(states.last()[i] == states[k][i]);
                assert(added.drop_last()[i] == added[i]);
            }
        }
    } else {
        assert(states.last() == states[0]);
    }
}

/// What one node holds: its label, its neighbor list and its vector.
pub struct StoredNode<N, D> {
    pub label: LabelT,
    pub nbrs: Seq<N>,
    pub data: Seq<D>,
}

/// Fixed-slot node storage. Node `i` owns the records at positions `i * max_nbrs ..` of the
/// neighbor array and `i * data_dim ..` of the vector array, so every slot has the same shape and
/// is found in constant time from its id. The byte layout of a slot is recorded in
/// `nbr_offset`, `data_offset` and `node_size`.
pub struct InMemStorage<N, D> {
    n_nodes: usize,
    nbr_offset: usize,
    max_nbrs: usize,
    data_offset: usize,
    data_dim: usize,
    node_size: usize,
    labels: Vec<LabelT>,
    nbrs: Vec<N>,
    data: Vec<D>,
}

proof fn lemma_slot_bounds(i: int, n: int, k: int)
    requires
        0 <= i < n,
        k >= 0,
    ensures
        0 <= i * k,
        i * k + k <= n * k,
{
    assert(0 <= i * k) by (nonlinear_arith)
        requires 0 <= i, k >= 0;
    assert(i * k + k <= n * k) by (nonlinear_arith)
        requires i < n, k >= 0;
}

proof fn lemma_slots_disjoint(i: int, j: int, k: int)
    requires
        0 <= i < j,
        k >= 0,
    ensures
        i * k + k <= j * k,
{
    assert(i * k + k <= j * k) by (nonlinear_arith)
        requires i < j, k >= 0;
}

impl<N, D> View for InMemStorage<N, D> {
    type V = Seq<StoredNode<N, D>>;

    closed spec fn view(&self) -> Seq<StoredNode<N, D>> {
        Seq::new(
            self.n_nodes as nat,
            |i: int|
                StoredNode {
                    label: self.labels@[i],
                    nbrs: self.nbrs@.subrange(i * self.max_nbrs, i * self.max_nbrs + self.max_nbrs),
                    data: self.data@.subrange(i * self.data_dim, i * self.data_dim + self.data_dim),
                },
        )
    }
}

impl<N: Copy, D: Copy> InMemStorage<N, D> {
    /// The out-degree cap: every neighbor list has exactly this many slots.
    pub closed spec fn spec_max_nbrs(&self) -> nat {
        self.max_nbrs as nat
    }

    /// The length of every stored vector.
    pub closed spec fn spec_data_dim(&self) -> nat {
        self.data_dim as nat
    }

    /// Every node's neighbor list and vector have the configured lengths, and the recorded byte
    /// layout is the one computed from the element types.
    pub closed spec fn wf(&self) -> bool {
        &&& self.labels@.len() == self.n_nodes
        &&& self.nbrs@.len() == self.n_nodes * self.max_nbrs
        &&& self.data@.len() == self.n_nodes * self.data_dim
        &&& self.nbr_offset == nbr_offset_of::<N>()
        &&& self.data_offset == data_offset_of::<N, D>(self.max_nbrs as int)
        &&& self.node_size == node_size_of::<N, D>(self.max_nbrs as int, self.data_dim as int)
    }

    /// Lengths of every slot as seen through the view.
    pub proof fn lemma_view_shape(&self)
        requires
            self.wf(),
        ensures
            forall|i: int|
                0 <= i < self@.len() ==> #[trigger] self@[i].nbrs.len() == self.spec_max_nbrs()
                    && self@[i].data.len() == self.spec_data_dim(),
    {
        assert forall|i: int| 0 <= i < self@.len() implies #[trigger] self@[i].nbrs.len()
            == self.spec_max_nbrs() && self@[i].data.len() == self.spec_data_dim() by {
            lemma_slot_bounds(i, self.n_nodes as int, self.max_nbrs as int);
            lemma_slot_bounds(i, self.n_nodes as int, self.data_dim as int);
        }
    }

    /// A well-formed storage's slot size fits in a `usize`.
    pub proof fn lemma_layout_fits(&self)
        requires
            self.wf(),
        ensures
            node_size_of::<N, D>(self.spec_max_nbrs() as int, self.spec_data_dim() as int) <= usize::MAX,
    {
    }

    fn nbr_offset() -> (r: usize)
        requires
            nbr_offset_of::<N>() <= usize::MAX,
        ensures
            r == nbr_offset_of::<N>(),
    {
        layout_for_type_is_valid::<N>();
        pad_to(core::mem::size_of::<LabelT>(), core::mem::align_of::<N>())
    }

    fn data_offset(max_nbrs: usize) -> (r: usize)
        requires
            data_offset_of::<N, D>(max_nbrs as int) <= usize::MAX,
        ensures
            r == data_offset_of::<N, D>(max_nbrs as int),
    {
        layout_for_type_is_valid::<N>();
        layout_for_type_is_valid::<D>();
        proof {
            lemma_padded(size_of::<LabelT>() as int, align_of::<N>() as int);
            let raw = nbr_offset_of::<N>() + max_nbrs * size_of::<N>();
            assert(raw >= nbr_offset_of::<N>()) by (nonlinear_arith)
                requires raw == nbr_offset_of::<N>() + max_nbrs * size_of::<N>();
            lemma_padded(raw, align_of::<D>() as int);
        }
        let base = Self::nbr_offset();
        let sz = core::mem::size_of::<N>();
        assert(max_nbrs * sz <= base + max_nbrs * sz) by (nonlinear_arith)
            requires base >= 0;
        pad_to(base + max_nbrs * sz, core::mem::align_of::<D>())
    }

    fn node_size(max_nbrs: usize, data_dim: usize) -> (r: usize)
        requires
            node_size_of::<N, D>(max_nbrs as int, data_dim as int) <= usize::MAX,
        ensures
            r == node_size_of::<N, D>(max_nbrs as int, data_dim as int),
            data_offset_of::<N, D>(max_nbrs as int) <= r,
            nbr_offset_of::<N>() <= r,
    {
        layout_for_type_is_valid::<N>();
        layout_for_type_is_valid::<D>();
        layout_for_type_is_valid::<LabelT>();
        proof {
            lemma_padded(size_of::<LabelT>() as int, align_of::<N>() as int);
            let raw = nbr_offset_of::<N>() + max_nbrs * size_of::<N>();
            assert(raw >= nbr_offset_of::<N>()) by (nonlinear_arith)
                requires raw == nbr_offset_of::<N>() + max_nbrs * size_of::<N>();
            lemma_padded(raw, align_of::<D>() as int);
            let raw2 = data_offset_of::<N, D>(max_nbrs as int) + data_dim * size_of::<D>();
            assert(raw2 >= data_offset_of::<N, D>(max_nbrs as int)) by (nonlinear_arith)
                requires raw2 == data_offset_of::<N, D>(max_nbrs as int) + data_dim * size_of::<D>();
            lemma_padded(raw2, align_of::<LabelT>() as int);
        }
        let base = Self::data_offset(max_nbrs);
        let sz = core::mem::size_of::<D>();
        assert(data_dim * sz <= base + data_dim * sz) by (nonlinear_arith)
            requires base >= 0;
        pad_to(base + data_dim * sz, core::mem::align_of::<LabelT>())
    }

    /// An empty storage whose slots hold `max_nbrs` neighbor ids and `data_dim` scalars;
    /// room for `capacity` nodes is reserved up front.
    pub fn new(max_nbrs: usize, data_dim: usize, capacity: usize) -> (r: Self)
        requires
            node_size_of::<N, D>(max_nbrs as int, data_dim as int) <= usize::MAX,
        ensures
            r.wf(),
            r@ == Seq::<StoredNode<N, D>>::empty(),
            r.spec_max_nbrs() == max_nbrs,
            r.spec_data_dim() == data_dim,
    {
        let node_size = Self::node_size(max_nbrs, data_dim);
        let nbr_cap = match capacity.checked_mul(max_nbrs) {
            Some(c) => c,
            None => 0,
        };
        let data_cap = match capacity.checked_mul(data_dim) {
            Some(c) => c,
            None => 0,
        };
        let r = InMemStorage {
            n_nodes: 0,
            nbr_offset: Self::nbr_offset(),
            max_nbrs,
            data_offset: Self::data_offset(max_nbrs),
            data_dim,
            node_size,
            labels: Vec::with_capacity(capacity),
            nbrs: Vec::with_capacity(nbr_cap),
            data: Vec::with_capacity(data_cap),
        };
        assert(r@ =~= Seq::<StoredNode<N, D>>::empty());
        r
    }

    /// The number of nodes stored.
    pub fn len(&self) -> (r: usize)
        ensures
            r == self@.len(),
    {
        self.n_nodes
    }

    /// The out-degree cap.
    pub fn max_nbrs(&self) -> (r: usize)
        ensures
            r == self.spec_max_nbrs(),
    {
        self.max_nbrs
    }

    /// The vector length.
    pub fn data_dim(&self) -> (r: usize)
        ensures
            r == self.spec_data_dim(),
    {
        self.data_dim
    }

    /// Size in bytes of one node slot.
    pub fn node_size_bytes(&self) -> (r: usize)
        requires
            self.wf(),
        ensures
            r == node_size_of::<N, D>(self.spec_max_nbrs() as int, self.spec_data_dim() as int),
    {
        self.node_size
    }

    /// The label of node `node`.
    pub fn label(&self, node: usize) -> (r: LabelT)
        requires
            self.wf(),
            node < self@.len(),
        ensures
            r == self@[node as int].label,
    {
        self.labels[node]
    }

    /// The neighbor list of node `node`.
    pub fn nbrs(&self, node: usize) -> (r: &[N])
        requires
            self.wf(),
            node < self@.len(),
        ensures
            r@ == self@[node as int].nbrs,
            r@.len() == self.spec_max_nbrs(),
    {
        let _total = self.nbrs.len();
        proof {
            lemma_slot_bounds(node as int, self.n_nodes as int, self.max_nbrs as int);
        }
        let start = node * self.max_nbrs;
        &self.nbrs.as_slice()[start..start + self.max_nbrs]
    }

    /// The vector of node `node`.
    pub fn data(&self, node: usize) -> (r: &[D])
        requires
            self.wf(),
            node < self@.len(),
        ensures
            r@ == self@[node as int].data,
            r@.len() == self.spec_data_dim(),
    {
        let _total = self.data.len();
        proof {
            lemma_slot_bounds(node as int, self.n_nodes as int, self.data_dim as int);
        }
        let start = node * self.data_dim;
        &self.data.as_slice()[start..start + self.data_dim]
    }
    /// Appends a node and returns its id, which is the number of nodes before the call.
    pub fn add_node(&mut self, label: LabelT, nbrs: &[N], data: &[D]) -> (new_id: usize)
        requires
            old(self).wf(),
            nbrs@.len() == old(self).spec_max_nbrs(),
            data@.len() == old(self).spec_data_dim(),
        ensures
            final(self).wf(),
            new_id == old(self)@.len(),
            final(self)@ == old(self)@.push(StoredNode { label, nbrs: nbrs@, data: data@ }),
            final(self).spec_max_nbrs() == old(self).spec_max_nbrs(),
            final(self).spec_data_dim() == old(self).spec_data_dim(),
    {
        let ghost pre = *self;
        let new_id = self.n_nodes;
        let mut k: usize = 0;
        while k < nbrs.len()
            invariant
                k <= nbrs@.len(),
                self.nbrs@ == pre.nbrs@ + nbrs@.subrange(0, k as int),
                self.labels == pre.labels,
                self.data == pre.data,
                self.n_nodes == pre.n_nodes,
                self.max_nbrs == pre.max_nbrs,
                self.data_dim == pre.data_dim,
                self.nbr_offset == pre.nbr_offset,
                self.data_offset == pre.data_offset,
                self.node_size == pre.node_size,
            decreases nbrs@.len() - k,
        {
            self.nbrs.push(nbrs[k]);
            assert(nbrs@.subrange(0, k + 1) =~= nbrs@.subrange(0, k as int).push(nbrs@[k as int]));
            k = k + 1;
        }
        let mut k: usize = 0;
        while k < data.len()
            invariant
                k <= data@.len(),
                self.data@ == pre.data@ + data@.subrange(0, k as int),
                self.nbrs@ == pre.nbrs@ + nbrs@,
                self.labels == pre.labels,
                self.n_nodes == pre.n_nodes,
                self.max_nbrs == pre.max_nbrs,
                self.data_dim == pre.data_dim,
                self.nbr_offset == pre.nbr_offset,
                self.data_offset == pre.data_offset,
                self.node_size == pre.node_size,
            decreases data@.len() - k,
        {
            self.data.push(data[k]);
            assert(data@.subrange(0, k + 1) =~= data@.subrange(0, k as int).push(data@[k as int]));
            k = k + 1;
        }
        self.labels.push(label);
        let _count = self.labels.len();
        self.n_nodes = new_id + 1;
        proof {
            assert(nbrs@.subrange(0, nbrs@.len() as int) =~= nbrs@);
            assert(data@.subrange(0, data@.len() as int) =~= data@);
            let m = self.max_nbrs as int;
            let d = self.data_dim as int;
            let n = pre.n_nodes as int;
            assert((n + 1) * m == n * m + m) by (nonlinear_arith);
            assert((n + 1) * d == n * d + d) by (nonlinear_arith);
            let node = StoredNode { label, nbrs: nbrs@, data: data@ };
            assert forall|i: int| 0 <= i < n + 1 implies #[trigger] self@[i] == pre@.push(node)[i] by {
                if i < n {
                    lemma_slot_bounds(i, n, m);
                    lemma_slot_bounds(i, n, d);
                    assert(self.nbrs@.subrange(i * m, i * m + m) =~= pre.nbrs@.subrange(i * m, i * m + m));
                    assert(self.data@.subrange(i * d, i * d + d) =~= pre.data@.subrange(i * d, i * d + d));
                } else {
                    assert(self.nbrs@.subrange(i * m, i * m + m) =~= nbrs@);
                    assert(self.data@.subrange(i * d, i * d + d) =~= data@);
                }
            }
            assert(self@ =~= pre@.push(node));
        }
        new_id
    }

    /// Writes `value` into slot `slot` of node `node`'s neighbor list.
    pub fn set_nbr(&mut self, node: usize, slot: usize, value: N)
        requires
            old(self).wf(),
            node < old(self)@.len(),
            slot < old(self).spec_max_nbrs(),
        ensures
            final(self).wf(),
            final(self)@ == old(self)@.update(
                node as int,
                StoredNode { nbrs: old(self)@[node as int].nbrs.update(slot as int, value), ..old(self)@[node as int] },
            ),
            final(self).spec_max_nbrs() == old(self).spec_max_nbrs(),
            final(self).spec_data_dim() == old(self).spec_data_dim(),
    {
        let ghost pre = *self;
        let _total = self.nbrs.len();
        proof {
            lemma_slot_bounds(node as int, self.n_nodes as int, self.max_nbrs as int);
        }
        let pos = node * self.max_nbrs + slot;
        self.nbrs.set(pos, value);
        proof {
            let m = self.max_nbrs as int;
            let n = self.n_nodes as int;
            let target = StoredNode { nbrs: pre@[node as int].nbrs.update(slot as int, value), ..pre@[node as int] };
            assert forall|i: int| 0 <= i < n implies #[trigger] self@[i] == pre@.update(node as int, target)[i] by {
                lemma_slot_bounds(i, n, m);
                if i < node {
                    lemma_slots_disjoint(i, node as int, m);
                    assert(self.nbrs@.subrange(i * m, i * m + m) =~= pre.nbrs@.subrange(i * m, i * m + m));
                } else if i > node {
                    lemma_slots_disjoint(node as int, i, m);
                    assert(self.nbrs@.subrange(i * m, i * m + m) =~= pre.nbrs@.subrange(i * m, i * m + m));
                } else {
                    assert(self.nbrs@.subrange(i * m, i * m + m) =~= pre.nbrs@.subrange(i * m, i * m + m).update(slot as int, value));
                }
            }
            assert(self@ =~= pre@.update(node as int, target));
        }
    }

    /// Overwrites node `node`'s whole neighbor list.
    pub fn set_nbrs(&mut self, node: usize, nbrs: &[N])
        requires
            old(self).wf(),
            node < old(self)@.len(),
            nbrs@.len() == old(self).spec_max_nbrs(),
        ensures
            final(self).wf(),
            final(self)@ == old(self)@.update(node as int, StoredNode { nbrs: nbrs@, ..old(self)@[node as int] }),
            final(self).spec_max_nbrs() == old(self).spec_max_nbrs(),
            final(self).spec_data_dim() == old(self).spec_data_dim(),
    {
        let ghost pre = *self;
        proof {
            pre.lemma_view_shape();
            let cur = pre@[node as int];
            assert(nbrs@.subrange(0, 0) + cur.nbrs.subrange(0, nbrs@.len() as int) =~= cur.nbrs);
            assert(pre@ =~= pre@.update(node as int, StoredNode { nbrs: cur.nbrs, ..cur }));
        }
        let mut k: usize = 0;
        while k < nbrs.len()
            invariant
                pre.wf(),
                node < pre@.len(),
                pre@[node as int].nbrs.len() == nbrs@.len(),
                self.wf(),
                k <= nbrs@.len(),
                node < self@.len(),
                nbrs@.len() == self.spec_max_nbrs(),
                self.spec_max_nbrs() == pre.spec_max_nbrs(),
                self.spec_data_dim() == pre.spec_data_dim(),
                self@ == pre@.update(
                    node as int,
                    StoredNode { nbrs: nbrs@.subrange(0, k as int) + pre@[node as int].nbrs.subrange(k as int, nbrs@.len() as int), ..pre@[node as int] },
                ),
            decreases nbrs@.len() - k,
        {
            let ghost prev = self@;
            self.set_nbr(node, k, nbrs[k]);
            proof {
                assert(prev[node as int].nbrs == nbrs@.subrange(0, k as int) + pre@[node as int].nbrs.subrange(k as int, nbrs@.len() as int));
                let a = nbrs@.subrange(0, k as int) + pre@[node as int].nbrs.subrange(k as int, nbrs@.len() as int);
                let b = nbrs@.subrange(0, k + 1) + pre@[node as int].nbrs.subrange(k + 1, nbrs@.len() as int);
                assert(a.update(k as int, nbrs@[k as int]) =~= b);
                assert(self@ =~= pre@.update(node as int, StoredNode { nbrs: b, ..pre@[node as int] }));
            }
            k = k + 1;
        }
        proof {
            pre.lemma_view_shape();
            assert(nbrs@.subrange(0, nbrs@.len() as int) + pre@[node as int].nbrs.subrange(nbrs@.len() as int, nbrs@.len() as int) =~= nbrs@);
        }
    }
}

} // verus!
