//! The tree: one buffer of nodes in postfix order and a count of elements.
use vstd::prelude::*;
use vstd::arithmetic::power2::{pow2, lemma_pow2_pos, lemma_pow2_unfold, lemma2_to64};
use crate::bits::{
    trailing_ones,
    aligned,
    lemma_aligned_iff_trailing_ones,
    lemma_aligned_weaken,
    lemma_aligned_add,
    lemma_aligned_gap,
    lemma_aligned_carry,
    lemma_pow2_aligned,
};
use crate::node_id::{
    MAX_LEN,
    NodeId,
    LeafNodeId,
    nodes_len_for,
    node_index_of,
    span_start,
    get_nodes_len_for,
    lemma_nodes_len_step,
    lemma_nodes_len_monotonic,
    lemma_node_index_injective,
    lemma_valid_node_span,
    lemma_child_valid,
};
use crate::skipping_iterator::{SkippingIterator, IncreasingSkippingIterator};
use crate::summable::{
    Summable,
    range_sum,
    lemma_range_sum_split,
    lemma_range_sum_single,
    lemma_range_sum_same,
};

verus! {

/// A variant of a segment tree whose `push` takes amortized constant time.
///
/// The node of `level` that ends at leaf `index` sums the `2^level` elements
/// ending at `index` and is stored at `nodes_len_for(index) + level`, so an
/// appended element adds nodes at the end of the buffer and moves none.
pub struct PostfixSegmentTree<T> {
    nodes: Vec<T>,
    len: usize,
    /// A lower bound on the node buffer's capacity. Only the capacity
    /// wrappers below change it; `Vec` lowers its capacity only in
    /// `shrink_to` and `shrink_to_fit`, so other operations keep it true.
    capacity_floor: Ghost<nat>,
}

impl<T> View for PostfixSegmentTree<T> {
    type V = Seq<T>;

    /// The elements, read from the leaves.
    closed spec fn view(&self) -> Seq<T> {
        leaves_of(self.nodes@, self.len as nat)
    }
}

/// The elements stored at the leaves of a buffer that holds `len` leaves.
pub open spec fn leaves_of<T>(nodes: Seq<T>, len: nat) -> Seq<T> {
    Seq::new(len, |i: int| nodes[nodes_len_for(i as nat) as int])
}

/// The node `(i, l)` of a buffer that holds `len` leaves stores the sum of the
/// leaves it covers.
pub open spec fn node_holds_sum<T: Summable>(nodes: Seq<T>, len: nat, i: nat, l: nat) -> bool {
    nodes[node_index_of(i, l) as int] == range_sum(leaves_of(nodes, len), span_start(i, l), i + 1 as int)
}

/// The node `(index, level)` covers leaf `x`.
pub open spec fn covers(index: nat, level: nat, x: nat) -> bool {
    span_start(index, level) <= x <= index
}

/// Two nodes of the same level that cover the same leaf are the same node.
proof fn lemma_same_level_cover(i: nat, j: nat, l: nat, x: nat)
    requires
        aligned(i + 1, l),
        aligned(j + 1, l),
        covers(i, l, x),
        covers(j, l, x),
    ensures
        i == j,
{
    if i < j {
        lemma_aligned_gap(i + 1, j + 1, l);
    } else if j < i {
        lemma_aligned_gap(j + 1, i + 1, l);
    }
}

impl<T> PostfixSegmentTree<T> {
    /// The node buffer.
    pub closed spec fn nodes_view(&self) -> Seq<T> {
        self.nodes@
    }

    /// The elements are the leaves of the node buffer.
    pub proof fn lemma_view_is_leaves(&self)
        ensures
            self@ == leaves_of(self.nodes_view(), self@.len()),
    {
    }

    /// A number of nodes the buffer can hold without reallocating.
    pub closed spec fn nodes_capacity_bound(&self) -> nat {
        if self.capacity_floor@ >= self.nodes@.len() {
            self.capacity_floor@
        } else {
            self.nodes@.len()
        }
    }

    /// The buffer holds exactly the nodes of `len` leaves.
    pub closed spec fn wf(&self) -> bool {
        &&& self.len <= MAX_LEN
        &&& self.nodes@.len() == nodes_len_for(self.len as nat)
    }

    /// Every node of a leaf lies inside the buffer.
    proof fn lemma_node_slot(&self, i: nat, l: nat)
        requires
            self.wf(),
            i < self.len,
            l <= trailing_ones(i),
        ensures
            node_index_of(i, l) < self.nodes@.len(),
            self@[i as int] == self.nodes@[nodes_len_for(i) as int],
    {
        lemma_nodes_len_step(i);
        if i + 1 < self.len {
            lemma_nodes_len_monotonic(i + 1, self.len as nat);
        }
    }

    /// Writing a node of positive level leaves the elements unchanged.
    proof fn lemma_view_after_node_write(&self, other: &Self, i: nat, l: nat)
        requires
            self.wf(),
            other.len == self.len,
            i < self.len,
            1 <= l <= trailing_ones(i),
            other.nodes@.len() == self.nodes@.len(),
            forall|k: int|
                0 <= k < self.nodes@.len() && k != node_index_of(i, l) ==> other.nodes@[k]
                    == self.nodes@[k],
        ensures
            other.wf(),
            other@ == self@,
    {
        assert forall|k: int| 0 <= k < self.len implies other@[k] == self@[k] by {
            self.lemma_node_slot(k as nat, 0);
            if nodes_len_for(k as nat) == node_index_of(i, l) {
                lemma_node_index_injective(k as nat, 0, i, l);
            }
        }
        assert(other@ =~= self@);
    }

    /// Returns an empty tree.
    pub fn new() -> (r: Self)
        ensures
            r.wf(),
            r@ == Seq::<T>::empty(),
            r.nodes_view().len() == 0,
    {
        let r = PostfixSegmentTree { nodes: Vec::new(), len: 0, capacity_floor: Ghost(0) };
        assert(r@ =~= Seq::<T>::empty());
        r
    }

    /// Returns the total number of nodes, `2 * len - popcount(len)`.
    pub fn nodes_len(&self) -> (r: usize)
        requires
            self.wf(),
        ensures
            r == nodes_len_for(self@.len()),
            r == self.nodes_view().len(),
    {
        self.nodes.len()
    }

    /// Returns the number of elements.
    pub fn len(&self) -> (r: usize)
        ensures
            r == self@.len(),
    {
        self.len
    }

    /// Returns the number of nodes the buffer can hold without reallocating.
    pub fn nodes_capacity(&self) -> (r: usize)
        ensures
            r >= self.nodes_view().len(),
            r >= self.nodes_capacity_bound(),
    {
        nodes_capacity_of(self)
    }

    /// Reserves capacity for at least `additional` more nodes. The buffer may
    /// grow to twice the requested size, which must fit in `isize::MAX` bytes.
    pub fn reserve_nodes(&mut self, additional: usize)
        requires
            old(self).wf(),
            old(self).nodes_view().len() + additional <= usize::MAX,
            2 * (old(self).nodes_view().len() + additional) * vstd::layout::size_of::<T>()
                <= isize::MAX,
        ensures
            final(self).wf(),
            final(self)@ == old(self)@,
            final(self).nodes_view() == old(self).nodes_view(),
            final(self).nodes_capacity_bound() >= old(self).nodes_view().len() + additional,
    {
        reserve_nodes_of(self, additional);
    }

    /// Reserves capacity for at least `additional` more elements. The buffer
    /// may grow to twice the nodes needed, which must fit in `isize::MAX` bytes.
    pub fn reserve(&mut self, additional: usize)
        requires
            old(self).wf(),
            old(self)@.len() + additional <= MAX_LEN,
            2 * nodes_len_for((old(self)@.len() + additional) as nat) * vstd::layout::size_of::<
                T,
            >() <= isize::MAX,
        ensures
            final(self).wf(),
            final(self)@ == old(self)@,
            final(self).nodes_view() == old(self).nodes_view(),
            final(self).nodes_capacity_bound() >= nodes_len_for(
                (old(self)@.len() + additional) as nat,
            ),
    {
        let new_capacity = self.len() + additional;
        let new_nodes_capacity = get_nodes_len_for(new_capacity);
        let nodes_len = self.nodes_len();
        if new_nodes_capacity > nodes_len {
            let additional_nodes = new_nodes_capacity - nodes_len;
            self.reserve_nodes(additional_nodes)
        }
    }

    /// Reserves capacity for exactly `additional` more nodes.
    pub fn reserve_nodes_exact(&mut self, additional: usize)
        requires
            old(self).wf(),
            old(self).nodes_view().len() + additional <= usize::MAX,
            (old(self).nodes_view().len() + additional) * vstd::layout::size_of::<T>() <= isize::MAX,
        ensures
            final(self).wf(),
            final(self)@ == old(self)@,
            final(self).nodes_view() == old(self).nodes_view(),
            final(self).nodes_capacity_bound() >= old(self).nodes_view().len() + additional,
    {
        reserve_nodes_exact_of(self, additional);
    }

    /// Reserves capacity for exactly `additional` more elements.
    pub fn reserve_exact(&mut self, additional: usize)
        requires
            old(self).wf(),
            old(self)@.len() + additional <= MAX_LEN,
            nodes_len_for((old(self)@.len() + additional) as nat) * vstd::layout::size_of::<T>()
                <= isize::MAX,
        ensures
            final(self).wf(),
            final(self)@ == old(self)@,
            final(self).nodes_view() == old(self).nodes_view(),
            final(self).nodes_capacity_bound() >= nodes_len_for(
                (old(self)@.len() + additional) as nat,
            ),
    {
        let new_capacity = self.len() + additional;
        let new_nodes_capacity = get_nodes_len_for(new_capacity);
        let nodes_len = self.nodes_len();
        if new_nodes_capacity > nodes_len {
            let additional_nodes = new_nodes_capacity - nodes_len;
            self.reserve_nodes_exact(additional_nodes)
        }
    }

    /// Shrinks the node buffer's capacity as much as possible.
    pub fn shrink_to_fit(&mut self)
        requires
            old(self).wf(),
        ensures
            final(self).wf(),
            final(self)@ == old(self)@,
            final(self).nodes_view() == old(self).nodes_view(),
    {
        shrink_to_fit_of(self)
    }

    /// Shrinks the node buffer's capacity, keeping room for at least
    /// `min_nodes_capacity` nodes.
    pub fn shrink_nodes_to(&mut self, min_nodes_capacity: usize)
        requires
            old(self).wf(),
        ensures
            final(self).wf(),
            final(self)@ == old(self)@,
            final(self).nodes_view() == old(self).nodes_view(),
            final(self).nodes_capacity_bound() >= min_nodes_capacity || final(self).nodes_capacity_bound() >= old(self).nodes_capacity_bound(),
    {
        shrink_nodes_to_of(self, min_nodes_capacity)
    }

    /// Shrinks the capacity, keeping room for at least `min_capacity` elements.
    pub fn shrink_to(&mut self, min_capacity: usize)
        requires
            old(self).wf(),
            min_capacity <= MAX_LEN,
        ensures
            final(self).wf(),
            final(self)@ == old(self)@,
            final(self).nodes_view() == old(self).nodes_view(),
            final(self).nodes_capacity_bound() >= nodes_len_for(min_capacity as nat) || final(self).nodes_capacity_bound() >= old(self).nodes_capacity_bound(),
    {
        let min_nodes_capacity = get_nodes_len_for(min_capacity);
        self.shrink_nodes_to(min_nodes_capacity)
    }

    /// Keeps the first `len` elements and drops the rest; does nothing when
    /// `len >= self.len()`.
    pub fn truncate(&mut self, len: usize)
        requires
            old(self).wf(),
        ensures
            final(self).wf(),
            len >= old(self)@.len() ==> final(self)@ == old(self)@ && final(self).nodes_view()
                == old(self).nodes_view(),
            len < old(self)@.len() ==> final(self)@ == old(self)@.subrange(0, len as int)
                && final(self).nodes_view() == old(self).nodes_view().subrange(
                0,
                nodes_len_for(len as nat) as int,
            ),
    {
        if len >= self.len() {
            return;
        }
        let nodes_len = get_nodes_len_for(len);
        proof {
            lemma_nodes_len_step(len as nat);
            if len + 1 < self.len {
                lemma_nodes_len_monotonic(len as nat + 1, self.len as nat);
            }
        }
        let ghost before = *self;
        self.nodes.truncate(nodes_len);
        self.len = len;
        proof {
            assert forall|k: int| 0 <= k < len implies self@[k] == before@[k] by {
                self.lemma_node_slot(k as nat, 0);
                before.lemma_node_slot(k as nat, 0);
            }
            assert(self@ =~= before@.subrange(0, len as int));
        }
    }

    /// Returns the element at `index`, or `None` when `index >= len()`.
    pub fn get(&self, index: usize) -> (r: Option<&T>)
        requires
            self.wf(),
        ensures
            index < self@.len() ==> r == Some(&self@[index as int]),
            index >= self@.len() ==> r.is_none(),
    {
        if index >= self.len() {
            return None;
        }
        let id = LeafNodeId::new(index);
        Some(self.get_leaf_node(id))
    }

    /// Returns the element at `index`.
    pub fn index(&self, index: usize) -> (r: &T)
        requires
            self.wf(),
            index < self@.len(),
        ensures
            *r == self@[index as int],
    {
        let id = LeafNodeId::new(index);
        self.get_leaf_node(id)
    }

    /// Returns the value stored in leaf `id`.
    fn get_leaf_node(&self, id: LeafNodeId) -> (r: &T)
        requires
            self.wf(),
            id.index() < self.len,
        ensures
            *r == self@[id.index() as int],
    {
        let node_index = id.node_index();
        proof {
            self.lemma_node_slot(id.index() as nat, 0);
        }
        &self.nodes[node_index]
    }

    /// Removes the last leaf and the nodes that end at it, and returns the
    /// removed element.
    fn truncate_by_one(&mut self) -> (r: T)
        requires
            old(self).wf(),
            old(self).len > 0,
        ensures
            final(self).wf(),
            final(self).len == old(self).len - 1,
            r == old(self)@.last(),
            final(self)@ == old(self)@.drop_last(),
            final(self).nodes@ == old(self).nodes@.subrange(
                0,
                nodes_len_for((old(self).len - 1) as nat) as int,
            ),
    {
        let len = self.len;
        let leaf = get_nodes_len_for(len - 1);
        proof {
            self.lemma_node_slot((len - 1) as nat, 0);
            crate::bits::lemma_popcount_le(len as nat);
        }
        let ghost before = *self;
        self.nodes.truncate(leaf + 1);
        let value = self.nodes.pop().unwrap();
        self.len = len - 1;
        proof {
            assert forall|k: int| 0 <= k < len - 1 implies self@[k] == before@[k] by {
                before.lemma_node_slot(k as nat, 0);
                lemma_nodes_len_monotonic(k as nat, (len - 1) as nat);
            }
            assert(self@ =~= before@.drop_last());
            assert(self.nodes@ =~= before.nodes@.subrange(0, leaf as int));
        }
        value
    }

    /// Overwrites the leaf `id`; the nodes above it become stale.
    fn set_leaf(&mut self, id: LeafNodeId, value: T)
        requires
            old(self).wf(),
            id.index() < old(self).len,
        ensures
            final(self).wf(),
            final(self).len == old(self).len,
            final(self).nodes@ == old(self).nodes@.update(
                nodes_len_for(id.index() as nat) as int,
                value,
            ),
            final(self)@ == old(self)@.update(id.index() as int, value),
    {
        let node_index = id.node_index();
        proof {
            self.lemma_node_slot(id.index() as nat, 0);
        }
        let ghost before = *self;
        self.nodes[node_index] = value;
        proof {
            assert forall|k: int| 0 <= k < self.len implies self@[k] == before@.update(
                id.index() as int,
                value,
            )[k] by {
                before.lemma_node_slot(k as nat, 0);
                if nodes_len_for(k as nat) == nodes_len_for(id.index() as nat) {
                    lemma_node_index_injective(k as nat, 0, id.index() as nat, 0);
                }
            }
            assert(self@ =~= before@.update(id.index() as int, value));
        }
    }

    /// Returns the value stored in node `id`.
    fn get_node(&self, id: NodeId) -> (r: &T)
        requires
            self.wf(),
            id.wf(),
            id.index() < self.len,
        ensures
            *r == self.nodes@[node_index_of(id.index() as nat, id.level() as nat) as int],
    {
        let node_index = id.node_index();
        proof {
            self.lemma_node_slot(id.index() as nat, id.level() as nat);
        }
        &self.nodes[node_index]
    }
}

impl<T: Summable> PostfixSegmentTree<T> {
    /// The node `(i, l)` holds the sum of the elements it covers.
    pub open spec fn node_clean(&self, i: nat, l: nat) -> bool {
        node_holds_sum(self.nodes_view(), self@.len(), i, l)
    }

    /// Every node above the leaves holds the sum of the elements it covers.
    pub open spec fn sums_ok(&self) -> bool {
        forall|i: nat, l: nat|
            i < self@.len() && 1 <= l <= trailing_ones(i) ==> #[trigger] node_holds_sum(
                self.nodes_view(),
                self@.len(),
                i,
                l,
            )
    }

    /// The tree's invariant: the buffer's shape and every stored sum.
    pub open spec fn inv(&self) -> bool {
        self.wf() && self.sums_ok()
    }

    /// Clean nodes above every leaf make `sums_ok`.
    proof fn lemma_sums_ok_from_clean(&self)
        requires
            self.wf(),
            forall|i: nat, l: nat|
                i < self.len && 1 <= l <= trailing_ones(i) ==> #[trigger] self.node_clean(i, l),
        ensures
            self.sums_ok(),
    {
        assert forall|i: nat, l: nat|
            i < self@.len() && 1 <= l <= trailing_ones(i) implies #[trigger] node_holds_sum(
            self.nodes_view(),
            self@.len(),
            i,
            l,
        ) by {
            assert(self.node_clean(i, l));
        }
    }

    /// A leaf holds the one element it covers.
    proof fn lemma_leaf_clean(&self, i: nat)
        requires
            self.wf(),
            i < self.len,
        ensures
            self.node_clean(i, 0),
    {
        lemma2_to64();
        self.lemma_node_slot(i, 0);
        lemma_range_sum_single(self@, i as int);
    }

    /// Whether a node is clean depends only on its slot and on the elements it
    /// covers.
    proof fn lemma_clean_transfer(&self, other: &Self, i: nat, l: nat)
        requires
            self.wf(),
            other.wf(),
            i < self.len,
            i < other.len,
            l <= trailing_ones(i),
            other.nodes@[node_index_of(i, l) as int] == self.nodes@[node_index_of(i, l) as int],
            forall|k: int| span_start(i, l) <= k <= i ==> other@[k] == self@[k],
        ensures
            other.node_clean(i, l) == self.node_clean(i, l),
    {
        lemma_valid_node_span(i, l);
        lemma_range_sum_same(self@, other@, span_start(i, l), i + 1 as int);
    }

    /// Stores in node `id` the sum of its two children.
    fn recalculate_node(&mut self, id: NodeId)
        requires
            old(self).wf(),
            id.wf(),
            id.level() >= 1,
            id.index() < old(self).len,
            id.level() > 1 ==> old(self).node_clean(
                (id.index() - pow2((id.level() - 1) as nat)) as nat,
                (id.level() - 1) as nat,
            ),
            id.level() > 1 ==> old(self).node_clean(id.index() as nat, (id.level() - 1) as nat),
        ensures
            final(self).wf(),
            final(self).len == old(self).len,
            final(self)@ == old(self)@,
            final(self).nodes@.len() == old(self).nodes@.len(),
            final(self).node_clean(id.index() as nat, id.level() as nat),
            forall|k: int|
                0 <= k < old(self).nodes@.len() && k != node_index_of(
                    id.index() as nat,
                    id.level() as nat,
                ) ==> final(self).nodes@[k] == old(self).nodes@[k],
            forall|i: nat, l: nat|
                i < old(self).len && 1 <= l <= trailing_ones(i) && (i != id.index() || l
                    != id.level()) ==> (#[trigger] final(self).node_clean(i, l) == old(self).node_clean(i, l)),
    {
        let ghost i = id.index() as nat;
        let ghost l = id.level() as nat;
        let left = id.left_child();
        let right = id.right_child();
        proof {
            lemma_child_valid(i, l);
            lemma_pow2_unfold(l);
            if l == 1 {
                self.lemma_leaf_clean(left.index() as nat);
                self.lemma_leaf_clean(i);
                lemma2_to64();
            }
            lemma_valid_node_span(i, l);
        }
        let mut sum = T::zero();
        sum.accumulate(self.get_node(left));
        sum.accumulate(self.get_node(right));
        proof {
            let a = span_start(i, l);
            let m = span_start(i, (l - 1) as nat);
            T::lemma_zero_identity(self.nodes@[node_index_of(left.index() as nat, (l - 1) as nat) as int]);
            lemma_range_sum_split(self@, a, m, i + 1 as int);
            self.lemma_node_slot(i, l);
        }
        let ghost before = *self;
        let node_index = id.node_index();
        self.nodes[node_index] = sum;
        proof {
            before.lemma_view_after_node_write(self, i, l);
            assert forall|j: nat, m: nat|
                j < before.len && 1 <= m <= trailing_ones(j) && (j != i || m != l) implies (
            #[trigger] self.node_clean(j, m) == before.node_clean(j, m)) by {
                before.lemma_node_slot(j, m);
                if node_index_of(j, m) == node_index_of(i, l) {
                    lemma_node_index_injective(j, m, i, l);
                }
            }
        }
    }

    /// Nodes that do not cover leaf `x` stay clean when only leaf `x` changes.
    proof fn lemma_clean_after_leaf_write(&self, other: &Self, x: nat)
        requires
            self.wf(),
            other.wf(),
            other.len == self.len,
            x < self.len,
            other.nodes@.len() == self.nodes@.len(),
            forall|k: int|
                0 <= k < self.nodes@.len() && k != nodes_len_for(x) ==> other.nodes@[k]
                    == self.nodes@[k],
            forall|k: int| 0 <= k < self.len && k != x ==> other@[k] == self@[k],
        ensures
            forall|i: nat, l: nat|
                i < self.len && 1 <= l <= trailing_ones(i) && !covers(i, l, x) ==> (
                #[trigger] other.node_clean(i, l) == self.node_clean(i, l)),
    {
        assert forall|i: nat, l: nat|
            i < self.len && 1 <= l <= trailing_ones(i) && !covers(i, l, x) implies (
        #[trigger] other.node_clean(i, l) == self.node_clean(i, l)) by {
            self.lemma_node_slot(i, l);
            lemma_valid_node_span(i, l);
            if node_index_of(i, l) == nodes_len_for(x) {
                lemma_node_index_injective(i, l, x, 0);
            }
            self.lemma_clean_transfer(other, i, l);
        }
    }

    /// Appends a leaf holding the identity value and the nodes that end at
    /// it, and returns the new leaf; the new nodes are stale.
    fn resize_by_one(&mut self) -> (r: LeafNodeId)
        requires
            old(self).wf(),
            old(self).len < MAX_LEN,
        ensures
            final(self).wf(),
            final(self).len == old(self).len + 1,
            r.index() == old(self).len,
            final(self)@ == old(self)@.push(T::zero_spec()),
            final(self).nodes@.subrange(0, old(self).nodes@.len() as int) == old(self).nodes@,
            forall|i: nat, l: nat|
                i < old(self).len && 1 <= l <= trailing_ones(i) ==> (#[trigger] final(self).node_clean(i, l) == old(self).node_clean(i, l)),
    {
        let len = self.len;
        let nodes_len = get_nodes_len_for(len + 1);
        proof {
            lemma_nodes_len_step(len as nat);
        }
        let ghost before = *self;
        while self.nodes.len() < nodes_len
            invariant
                nodes_len == nodes_len_for(len as nat + 1),
                self.len == len,
                len < MAX_LEN,
                before.wf(),
                before.len == len,
                before.nodes@.len() <= self.nodes@.len() <= nodes_len,
                self.nodes@.subrange(0, before.nodes@.len() as int) == before.nodes@,
                forall|k: int|
                    before.nodes@.len() <= k < self.nodes@.len() ==> self.nodes@[k]
                        == T::zero_spec(),
            decreases nodes_len - self.nodes@.len(),
        {
            let zero = T::zero();
            self.nodes.push(zero);
            proof {
                assert(self.nodes@.subrange(0, before.nodes@.len() as int) =~= before.nodes@);
            }
        }
        self.len = len + 1;
        proof {
            assert forall|k: int| 0 <= k < len implies self@[k] == before@[k] by {
                before.lemma_node_slot(k as nat, 0);
                assert(self.nodes@[nodes_len_for(k as nat) as int] == self.nodes@.subrange(
                    0,
                    before.nodes@.len() as int,
                )[nodes_len_for(k as nat) as int]);
            }
            assert(self@ =~= before@.push(T::zero_spec()));
            assert forall|i: nat, l: nat|
                i < len && 1 <= l <= trailing_ones(i) implies (#[trigger] self.node_clean(i, l)
                == before.node_clean(i, l)) by {
                before.lemma_node_slot(i, l);
                assert(self.nodes@[node_index_of(i, l) as int] == self.nodes@.subrange(
                    0,
                    before.nodes@.len() as int,
                )[node_index_of(i, l) as int]);
                lemma_valid_node_span(i, l);
                before.lemma_clean_transfer(self, i, l);
            }
        }
        LeafNodeId::new(len)
    }

    /// Restores the sums of the nodes above leaf `id` after that leaf changed:
    /// walks up its ancestors and, where an ancestor chain closes, continues
    /// with the chain of the next leaf that covers `id`.
    fn recalculate_nodes_after_update(&mut self, id: LeafNodeId)
        requires
            old(self).wf(),
            id.index() < old(self).len,
            forall|i: nat, l: nat|
                i < old(self).len && 1 <= l <= trailing_ones(i) && !covers(
                    i,
                    l,
                    id.index() as nat,
                ) ==> #[trigger] old(self).node_clean(i, l),
        ensures
            final(self).inv(),
            final(self).len == old(self).len,
            final(self)@ == old(self)@,
            final(self).nodes@.len() == old(self).nodes@.len(),
            forall|k: int|
                0 <= k < nodes_len_for(id.index() as nat) ==> final(self).nodes@[k] == old(self).nodes@[k],
    {
        let x = id.index();
        let len = self.len;
        let mut current_index: usize = x;
        let mut current_level: u32 = 1;
        proof {
            lemma2_to64();
        }
        while current_index < len
            invariant
                self.wf(),
                self.len == len,
                self@ == old(self)@,
                self.nodes@.len() == old(self).nodes@.len(),
                x < len <= MAX_LEN,
                forall|k: int|
                    0 <= k < nodes_len_for(x as nat) ==> self.nodes@[k] == old(self).nodes@[k],
                1 <= current_level,
                x <= current_index,
                aligned((current_index + 1) as nat, (current_level - 1) as nat),
                current_index + 1 - pow2(current_level as nat) <= x,
                (current_index == x && current_level == 1) || aligned(
                    (current_index + 1) as nat,
                    current_level as nat,
                ),
                forall|i: nat, l: nat|
                    i < len && 1 <= l <= trailing_ones(i) && (l < current_level || !covers(
                        i,
                        l,
                        x as nat,
                    )) ==> #[trigger] self.node_clean(i, l),
            decreases usize::MAX - current_index,
        {
            let leaf_node_id = LeafNodeId::new(current_index);
            let max_level = leaf_node_id.max_level();
            let ghost ci = current_index as nat;
            let ghost start_level = current_level;
            proof {
                crate::bits::lemma_bit_counts_fit(ci);
                lemma_aligned_iff_trailing_ones(ci, (current_level - 1) as nat);
                if current_index != x || current_level != 1 {
                    lemma_aligned_iff_trailing_ones(ci, current_level as nat);
                }
            }
            while current_level <= max_level
                invariant
                    self.wf(),
                    self.len == len,
                    self@ == old(self)@,
                    self.nodes@.len() == old(self).nodes@.len(),
                    x < len <= MAX_LEN,
                    forall|k: int|
                        0 <= k < nodes_len_for(x as nat) ==> self.nodes@[k] == old(self).nodes@[k],
                    ci == current_index,
                    x <= current_index < len,
                    leaf_node_id.index() == current_index,
                    max_level == trailing_ones(ci),
                    max_level <= usize::BITS,
                    1 <= current_level <= max_level + 1,
                    current_index + 1 - pow2(current_level as nat) <= x,
                    current_index == x || current_index + 1 - pow2((current_level - 1) as nat)
                        <= x || current_level <= max_level,
                    forall|i: nat, l: nat|
                        i < len && 1 <= l <= trailing_ones(i) && (l < current_level || !covers(
                            i,
                            l,
                            x as nat,
                        )) ==> #[trigger] self.node_clean(i, l),
                decreases max_level + 1 - current_level,
            {
                let node_id = leaf_node_id.with_level(current_level);
                let ghost cl = current_level as nat;
                proof {
                    lemma_child_valid(ci, cl);
                    if cl > 1 {
                        assert(self.node_clean((ci - pow2((cl - 1) as nat)) as nat, (cl - 1) as nat));
                        assert(self.node_clean(ci, (cl - 1) as nat));
                    }
                    self.lemma_node_slot(ci, cl);
                    lemma_nodes_len_step(x as nat);
                    if ci > x {
                        lemma_nodes_len_monotonic(x as nat, ci);
                    }
                }
                let ghost before = *self;
                self.recalculate_node(node_id);
                proof {
                    lemma_pow2_unfold(cl + 1);
                    lemma_valid_node_span(ci, cl);
                    assert forall|i: nat, l: nat|
                        i < len && 1 <= l <= trailing_ones(i) && (l < cl + 1 || !covers(
                            i,
                            l,
                            x as nat,
                        )) implies #[trigger] self.node_clean(i, l) by {
                        if i != ci || l != cl {
                            if l == cl && covers(i, l, x as nat) {
                                lemma_valid_node_span(i, l);
                                lemma_same_level_cover(i, ci, cl, x as nat);
                            }
                        }
                    }
                }
                current_level = current_level + 1;
            }
            let ghost t = max_level as nat;
            proof {
                lemma_pow2_pos(t);
                lemma_pow2_unfold(t + 1);
                assert(current_level == t + 1);
                lemma_valid_node_span(ci, t);
                lemma_aligned_iff_trailing_ones(ci, t + 1);
                lemma_aligned_carry(ci + 1, t);
                lemma_pow2_aligned(t, t);
                lemma_aligned_add(ci + 1, pow2(t), t);
                assert(ci + pow2(t) <= usize::MAX);
            }
            let width = crate::bits::pow2_of(current_level - 1);
            current_index = current_index + width;
        }
        proof {
            let cl = current_level as nat;
            let ci = current_index as nat;
            assert forall|i: nat, l: nat| i < len && 1 <= l <= trailing_ones(i) implies #[trigger] self.node_clean(i, l) by {
                if l >= cl && covers(i, l, x as nat) {
                    lemma_valid_node_span(i, l);
                    lemma_aligned_weaken(i + 1, l, cl);
                    lemma_aligned_gap(i + 1, ci + 1, cl);
                }
            }
            self.lemma_sums_ok_from_clean();
        }
    }

    /// Replaces the element at `index`.
    pub fn update(&mut self, index: usize, element: T)
        requires
            old(self).inv(),
            index < old(self)@.len(),
        ensures
            final(self).inv(),
            final(self)@ == old(self)@.update(index as int, element),
    {
        let id = LeafNodeId::new(index);
        let ghost before = *self;
        self.set_leaf(id, element);
        proof {
            before.lemma_node_slot(index as nat, 0);
            assert forall|k: int|
                0 <= k < before.nodes@.len() && k != nodes_len_for(index as nat) implies self.nodes@[k]
                == before.nodes@[k] by {}
            before.lemma_clean_after_leaf_write(self, index as nat);
        }
        self.recalculate_nodes_after_update(id);
    }

    /// Appends an element. Nodes already stored keep their offsets and values.
    pub fn push(&mut self, element: T)
        requires
            old(self).inv(),
            old(self)@.len() < MAX_LEN,
        ensures
            final(self).inv(),
            final(self)@ == old(self)@.push(element),
            final(self).nodes_view().subrange(0, old(self).nodes_view().len() as int) == old(self).nodes_view(),
    {
        let ghost before = *self;
        let new_leaf = self.resize_by_one();
        let ghost resized = *self;
        self.set_leaf(new_leaf, element);
        proof {
            let x = before.len as nat;
            resized.lemma_node_slot(x, 0);
            assert forall|k: int|
                0 <= k < resized.nodes@.len() && k != nodes_len_for(x) implies self.nodes@[k]
                == resized.nodes@[k] by {}
            resized.lemma_clean_after_leaf_write(self, x);
            assert(self@ =~= before@.push(element));
            assert forall|i: nat, l: nat|
                i < self.len && 1 <= l <= trailing_ones(i) && !covers(i, l, x) implies #[trigger] self.node_clean(i, l) by {
                lemma_valid_node_span(i, l);
                lemma_pow2_pos(l);
                assert(before.node_clean(i, l));
                assert(resized.node_clean(i, l));
            }
        }
        self.recalculate_nodes_after_update(new_leaf);
        proof {
            assert(self.nodes@.subrange(0, before.nodes@.len() as int) =~= before.nodes@) by {
                assert forall|k: int| 0 <= k < before.nodes@.len() implies self.nodes@[k]
                    == before.nodes@[k] by {
                    assert(resized.nodes@[k] == resized.nodes@.subrange(
                        0,
                        before.nodes@.len() as int,
                    )[k]);
                }
            }
        }
    }

    /// Every node above the leaves of `self` holds the same value in `other`.
    spec fn same_internal_nodes(&self, other: &Self) -> bool {
        forall|i: nat, l: nat|
            i < self.len && 1 <= l <= trailing_ones(i) ==> #[trigger] other.nodes@[node_index_of(
                i,
                l,
            ) as int] == self.nodes@[node_index_of(i, l) as int]
    }

    /// Exchanges the values of two leaves; the nodes above them become stale.
    fn swap_leaf_nodes(&mut self, left: LeafNodeId, right: LeafNodeId)
        requires
            old(self).wf(),
            left.index() < old(self).len,
            right.index() < old(self).len,
            left.index() != right.index(),
        ensures
            final(self).wf(),
            final(self).len == old(self).len,
            final(self)@ == old(self)@.update(left.index() as int, old(self)@[right.index() as int]).update(
                right.index() as int,
                old(self)@[left.index() as int],
            ),
            forall|k: int|
                0 <= k < old(self).nodes@.len() && k != nodes_len_for(left.index() as nat) && k
                    != nodes_len_for(right.index() as nat) ==> final(self).nodes@[k] == old(self).nodes@[k],
            old(self).same_internal_nodes(final(self)),
    {
        let a = left.node_index();
        let b = right.node_index();
        proof {
            self.lemma_node_slot(left.index() as nat, 0);
            self.lemma_node_slot(right.index() as nat, 0);
        }
        let ghost before = *self;
        let mut held = T::zero();
        std::mem::swap(&mut self.nodes[a], &mut held);
        std::mem::swap(&mut self.nodes[b], &mut held);
        std::mem::swap(&mut self.nodes[a], &mut held);
        proof {
            let x = left.index() as int;
            let y = right.index() as int;
            if a == b {
                lemma_node_index_injective(x as nat, 0, y as nat, 0);
            }
            let expected = before@.update(x, before@[y]).update(y, before@[x]);
            assert forall|k: int| 0 <= k < self.len implies self@[k] == expected[k] by {
                before.lemma_node_slot(k as nat, 0);
                if nodes_len_for(k as nat) == a {
                    lemma_node_index_injective(k as nat, 0, x as nat, 0);
                }
                if nodes_len_for(k as nat) == b {
                    lemma_node_index_injective(k as nat, 0, y as nat, 0);
                }
            }
            assert(self@ =~= expected);
            assert forall|i: nat, l: nat|
                i < before.len && 1 <= l <= trailing_ones(i) implies #[trigger] self.nodes@[node_index_of(
                i,
                l,
            ) as int] == before.nodes@[node_index_of(i, l) as int] by {
                before.lemma_node_slot(i, l);
                if node_index_of(i, l) == a {
                    lemma_node_index_injective(i, l, x as nat, 0);
                }
                if node_index_of(i, l) == b {
                    lemma_node_index_injective(i, l, y as nat, 0);
                }
            }
        }
    }

    /// Moves the last element to `index`, shifting the elements from `index`
    /// one place to the right; the nodes above them keep their values and
    /// become stale. Does nothing on an empty tree.
    fn shift_nodes_right_by_one(&mut self, index: usize)
        requires
            old(self).wf(),
            old(self).len == 0 || index < old(self).len,
        ensures
            old(self).same_internal_nodes(final(self)),
            old(self).len == 0 ==> final(self)@ == old(self)@,
            final(self).wf(),
            final(self).len == old(self).len,
            forall|k: int|
                0 <= k < old(self).len ==> #[trigger] final(self)@[k] == if k < index {
                    old(self)@[k]
                } else if k == index {
                    old(self)@[old(self).len - 1]
                } else {
                    old(self)@[k - 1]
                },
            forall|k: int|
                0 <= k < nodes_len_for(index as nat) ==> final(self).nodes@[k] == old(self).nodes@[k],
    {
        let len = self.len;
        if len == 0 {
            return;
        }
        let mut i: usize = len - 1;
        while i > index
            invariant
                old(self).same_internal_nodes(self),
                self.wf(),
                self.len == len,
                old(self).len == len,
                old(self).wf(),
                index <= i < len,
                forall|k: int|
                    0 <= k < len ==> #[trigger] self@[k] == if k < i {
                        old(self)@[k]
                    } else if k == i {
                        old(self)@[len - 1]
                    } else {
                        old(self)@[k - 1]
                    },
                forall|k: int|
                    0 <= k < nodes_len_for(index as nat) ==> self.nodes@[k] == old(self).nodes@[k],
            decreases i,
        {
            let left = LeafNodeId::new(i - 1);
            let right = LeafNodeId::new(i);
            proof {
                self.lemma_node_slot(index as nat, 0);
                lemma_nodes_len_step(index as nat);
                if index < i - 1 {
                    lemma_nodes_len_monotonic(index as nat, (i - 1) as nat);
                }
                lemma_nodes_len_monotonic((i - 1) as nat, i as nat);
            }
            self.swap_leaf_nodes(left, right);
            i = i - 1;
        }
    }

    /// Moves the element at `index` to the end, shifting the elements after it
    /// one place to the left; the nodes above them keep their values and
    /// become stale. Does nothing on an empty tree.
    fn shift_nodes_left_by_one(&mut self, index: usize)
        requires
            old(self).wf(),
            old(self).len == 0 || index < old(self).len,
        ensures
            old(self).same_internal_nodes(final(self)),
            old(self).len == 0 ==> final(self)@ == old(self)@,
            final(self).wf(),
            final(self).len == old(self).len,
            forall|k: int|
                0 <= k < old(self).len ==> #[trigger] final(self)@[k] == if k < index {
                    old(self)@[k]
                } else if k < old(self).len - 1 {
                    old(self)@[k + 1]
                } else {
                    old(self)@[index as int]
                },
            forall|k: int|
                0 <= k < nodes_len_for(index as nat) ==> final(self).nodes@[k] == old(self).nodes@[k],
    {
        let len = self.len;
        if len == 0 {
            return;
        }
        let mut i: usize = index;
        while i < len - 1
            invariant
                old(self).same_internal_nodes(self),
                self.wf(),
                self.len == len,
                old(self).len == len,
                old(self).wf(),
                index <= i < len,
                forall|k: int|
                    0 <= k < len ==> #[trigger] self@[k] == if k < index {
                        old(self)@[k]
                    } else if k < i {
                        old(self)@[k + 1]
                    } else if k == i {
                        old(self)@[index as int]
                    } else {
                        old(self)@[k]
                    },
                forall|k: int|
                    0 <= k < nodes_len_for(index as nat) ==> self.nodes@[k] == old(self).nodes@[k],
            decreases len - i,
        {
            let left = LeafNodeId::new(i);
            let right = LeafNodeId::new(i + 1);
            proof {
                self.lemma_node_slot(index as nat, 0);
                lemma_nodes_len_step(index as nat);
                if index < i {
                    lemma_nodes_len_monotonic(index as nat, i as nat);
                }
                lemma_nodes_len_monotonic(i as nat, i as nat + 1);
            }
            self.swap_leaf_nodes(left, right);
            i = i + 1;
        }
    }

    /// Restores the sums of every node that ends at or after leaf `id`, given
    /// that all nodes ending before it are clean.
    fn recalculate_nodes_after_bulk_update(&mut self, id: LeafNodeId)
        requires
            old(self).wf(),
            id.index() <= old(self).len,
            forall|i: nat, l: nat|
                i < id.index() && 1 <= l <= trailing_ones(i) ==> #[trigger] old(self).node_clean(i, l),
        ensures
            final(self).inv(),
            final(self).len == old(self).len,
            final(self)@ == old(self)@,
    {
        let len = self.len;
        let mut i: usize = id.index();
        while i < len
            invariant
                self.wf(),
                self.len == len,
                self@ == old(self)@,
                id.index() <= i <= len,
                forall|j: nat, l: nat|
                    j < i && 1 <= l <= trailing_ones(j) ==> #[trigger] self.node_clean(j, l),
            decreases len - i,
        {
            let leaf_node_id = LeafNodeId::new(i);
            let max_level = leaf_node_id.max_level();
            let mut level: u32 = 1;
            proof {
                crate::bits::lemma_bit_counts_fit(i as nat);
            }
            while level <= max_level
                invariant
                    self.wf(),
                    self.len == len,
                    self@ == old(self)@,
                    i < len,
                    leaf_node_id.index() == i,
                    max_level == trailing_ones(i as nat),
                    max_level <= usize::BITS,
                    1 <= level <= max_level + 1,
                    forall|j: nat, l: nat|
                        j < i && 1 <= l <= trailing_ones(j) ==> #[trigger] self.node_clean(j, l),
                    forall|l: nat| 1 <= l < level ==> #[trigger] self.node_clean(i as nat, l),
                decreases max_level + 1 - level,
            {
                let node_id = leaf_node_id.with_level(level);
                proof {
                    lemma_child_valid(i as nat, level as nat);
                    if level > 1 {
                        lemma_pow2_pos((level - 1) as nat);
                        assert(self.node_clean((i - pow2((level - 1) as nat)) as nat, (level - 1) as nat));
                        assert(self.node_clean(i as nat, (level - 1) as nat));
                    }
                }
                self.recalculate_node(node_id);
                level = level + 1;
            }
            i = i + 1;
        }
        proof {
            self.lemma_sums_ok_from_clean();
        }
    }

    /// Removes and returns the last element.
    pub fn pop(&mut self) -> (r: T)
        requires
            old(self).inv(),
            old(self)@.len() > 0,
        ensures
            final(self).inv(),
            r == old(self)@.last(),
            final(self)@ == old(self)@.drop_last(),
    {
        let ghost before = *self;
        let r = self.truncate_by_one();
        proof {
            before.lemma_truncate_keeps_sums(self);
        }
        r
    }

    /// Keeping a prefix of the node buffer keeps the sums of the elements
    /// that remain.
    pub proof fn lemma_truncate_keeps_sums(&self, other: &Self)
        requires
            self.inv(),
            other.wf(),
            other@.len() <= self@.len(),
            other.nodes_view() == self.nodes_view().subrange(
                0,
                nodes_len_for(other@.len()) as int,
            ),
        ensures
            other.inv(),
    {
        assert forall|i: nat, l: nat|
            i < other.len && 1 <= l <= trailing_ones(i) implies #[trigger] other.node_clean(i, l) by {
            self.lemma_node_slot(i, l);
            lemma_nodes_len_step(i);
            if i + 1 < other.len {
                lemma_nodes_len_monotonic(i + 1, other.len as nat);
            }
            if other.len < self.len {
                lemma_nodes_len_monotonic(other.len as nat, self.len as nat);
            }
            lemma_valid_node_span(i, l);
            assert(self.node_clean(i, l));
            assert(other.nodes@[node_index_of(i, l) as int] == self.nodes@.subrange(
                0,
                nodes_len_for(other.len as nat) as int,
            )[node_index_of(i, l) as int]);
            assert forall|k: int| span_start(i, l) <= k <= i implies other@[k] == self@[k] by {
                other.lemma_node_slot(k as nat, 0);
                self.lemma_node_slot(k as nat, 0);
                lemma_nodes_len_monotonic(k as nat, other.len as nat);
            }
            self.lemma_clean_transfer(other, i, l);
        }
        other.lemma_sums_ok_from_clean();
    }

    /// Inserts `element` at `index`, shifting the elements after it to the right.
    pub fn insert(&mut self, index: usize, element: T)
        requires
            old(self).inv(),
            index <= old(self)@.len(),
            old(self)@.len() < MAX_LEN,
        ensures
            final(self).inv(),
            final(self)@ == old(self)@.insert(index as int, element),
    {
        let ghost before = *self;
        let new_leaf = self.resize_by_one();
        let ghost resized = *self;
        self.set_leaf(new_leaf, element);
        let ghost placed = *self;
        proof {
            let x = before.len as nat;
            resized.lemma_node_slot(x, 0);
            assert forall|k: int|
                0 <= k < resized.nodes@.len() && k != nodes_len_for(x) implies self.nodes@[k]
                == resized.nodes@[k] by {}
            resized.lemma_clean_after_leaf_write(self, x);
        }
        let id = LeafNodeId::new(index);
        self.shift_nodes_right_by_one(index);
        proof {
            assert forall|i: nat, l: nat|
                i < index && 1 <= l <= trailing_ones(i) implies #[trigger] self.node_clean(i, l) by {
                lemma_valid_node_span(i, l);
                lemma_pow2_pos(l);
                assert(before.node_clean(i, l));
                assert(resized.node_clean(i, l));
                assert(placed.node_clean(i, l));
                placed.lemma_node_slot(i, l);
                lemma_nodes_len_step(i);
                if i + 1 < index {
                    lemma_nodes_len_monotonic(i + 1, index as nat);
                }
                placed.lemma_clean_transfer(self, i, l);
            }
        }
        self.recalculate_nodes_after_bulk_update(id);
        proof {
            before@.insert_ensures(index as int, element);
            assert(self@ =~= before@.insert(index as int, element));
        }
    }

    /// Removes and returns the element at `index`, shifting the elements after
    /// it to the left.
    pub fn remove(&mut self, index: usize) -> (r: T)
        requires
            old(self).inv(),
            index < old(self)@.len(),
        ensures
            final(self).inv(),
            r == old(self)@[index as int],
            final(self)@ == old(self)@.remove(index as int),
    {
        let ghost before = *self;
        let id = LeafNodeId::new(index);
        self.shift_nodes_left_by_one(index);
        let ghost shifted = *self;
        let popped = self.truncate_by_one();
        proof {
            assert forall|i: nat, l: nat|
                i < index && 1 <= l <= trailing_ones(i) implies #[trigger] self.node_clean(i, l) by {
                lemma_valid_node_span(i, l);
                assert(before.node_clean(i, l));
                before.lemma_node_slot(i, l);
                lemma_nodes_len_step(i);
                if i + 1 < index {
                    lemma_nodes_len_monotonic(i + 1, index as nat);
                }
                before.lemma_clean_transfer(&shifted, i, l);
                if index < self.len {
                    lemma_nodes_len_monotonic(index as nat, self.len as nat);
                }
                lemma_nodes_len_step(self.len as nat);
                assert(self.nodes@[node_index_of(i, l) as int] == shifted.nodes@.subrange(
                    0,
                    nodes_len_for(self.len as nat) as int,
                )[node_index_of(i, l) as int]);
                shifted.lemma_clean_transfer(self, i, l);
            }
        }
        self.recalculate_nodes_after_bulk_update(id);
        proof {
            before@.remove_ensures(index as int);
            assert(self@ =~= before@.remove(index as int));
        }
        popped
    }

    /// Builds a tree holding `elements` in order, by pushing them one by one.
    pub fn from_vec(elements: Vec<T>) -> (r: Self)
        requires
            elements@.len() <= MAX_LEN,
        ensures
            r.inv(),
            r@ == elements@,
    {
        let mut tree = Self::new();
        let ghost all = elements@;
        for element in it: elements
            invariant
                all.len() <= MAX_LEN,
                it.seq() == all,
                tree.inv(),
                tree@ == all.take(it.index() as int),
        {
            proof {
                assert(all.take(it.index() as int).push(element) =~= all.take(it.index() + 1));
            }
            tree.push(element);
        }
        proof {
            assert(all.take(all.len() as int) =~= all);
        }
        tree
    }

    /// Returns the sum of the first `index` elements.
    pub fn prefix_sum(&self, index: usize) -> (r: T)
        requires
            self.inv(),
            index <= self@.len(),
        ensures
            r == range_sum(self@, 0, index as int),
    {
        let mut sum = T::zero();
        let mut iter = SkippingIterator::new(index);
        loop
            invariant
                self.inv(),
                index <= self@.len(),
                iter.wf(),
                iter.end() == index,
                sum == range_sum(self@, 0, iter.position() as int),
            ensures
                sum == range_sum(self@, 0, index as int),
            decreases index - iter.position(),
        {
            let ghost position = iter.position();
            match iter.next() {
                Some(id) => {
                    proof {
                        self.lemma_add_node(sum, id, 0, position);
                    }
                    sum.accumulate(self.get_node(id));
                },
                None => {
                    break ;
                },
            }
        }
        sum
    }

    /// Returns the sum of the elements from `index` to the end.
    pub fn postfix_sum(&self, index: usize) -> (r: T)
        requires
            self.inv(),
            index <= self@.len(),
        ensures
            r == range_sum(self@, index as int, self@.len() as int),
    {
        self.sum(index, self.len() - index)
    }

    /// Returns the sum of the `len` elements that start at `index`.
    pub fn sum(&self, index: usize, len: usize) -> (r: T)
        requires
            self.inv(),
            index <= self@.len(),
            len <= self@.len() - index,
        ensures
            r == range_sum(self@, index as int, index + len),
    {
        let mut sum = T::zero();
        let mut iter = SkippingIterator::new(index + len);
        let pivot = iter.skip_to_pivot(index);
        proof {
            T::lemma_zero_identity(T::zero_spec());
        }
        // the elements `index..pivot`
        let mut increasing = IncreasingSkippingIterator::new(index, pivot);
        loop
            invariant
                self.inv(),
                index <= pivot <= self@.len(),
                increasing.wf(),
                increasing.end() == pivot,
                index <= increasing.position() <= pivot,
                sum == range_sum(self@, index as int, increasing.position() as int),
            ensures
                sum == range_sum(self@, index as int, pivot as int),
            decreases pivot - increasing.position(),
        {
            let ghost position = increasing.position();
            match increasing.next() {
                Some(id) => {
                    proof {
                        self.lemma_add_node(sum, id, index as nat, position);
                    }
                    sum.accumulate(self.get_node(id));
                },
                None => {
                    break ;
                },
            }
        }
        // the elements `pivot..index + len`
        loop
            invariant
                self.inv(),
                index <= pivot <= iter.position(),
                iter.wf(),
                iter.end() == index + len,
                index + len <= self@.len(),
                sum == range_sum(self@, index as int, iter.position() as int),
            ensures
                sum == range_sum(self@, index as int, index + len),
            decreases index + len - iter.position(),
        {
            let ghost position = iter.position();
            match iter.next() {
                Some(id) => {
                    proof {
                        self.lemma_add_node(sum, id, index as nat, position);
                    }
                    sum.accumulate(self.get_node(id));
                },
                None => {
                    break ;
                },
            }
        }
        sum
    }

    /// Accumulating a clean node that starts at `position` extends a range sum
    /// from `start` to `position`.
    proof fn lemma_add_node(&self, sum: T, id: NodeId, start: nat, position: nat)
        requires
            self.inv(),
            id.wf(),
            id.index() < self.len,
            start <= position,
            span_start(id.index() as nat, id.level() as nat) == position,
            sum == range_sum(self@, start as int, position as int),
        ensures
            sum.combine(self.nodes@[node_index_of(id.index() as nat, id.level() as nat) as int])
                == range_sum(self@, start as int, id.index() + 1),
            position < id.index() + 1,
    {
        lemma_pow2_pos(id.level() as nat);
        let i = id.index() as nat;
        let l = id.level() as nat;
        if l == 0 {
            self.lemma_leaf_clean(i);
        }
        assert(self.node_clean(i, l));
        lemma_valid_node_span(i, l);
        lemma_range_sum_split(self@, start as int, position as int, i + 1 as int);
    }
}

/// The sum of `count` elements from `index` is what the prefix sum up to
/// `index + count` adds to the prefix sum up to `index`.
pub proof fn lemma_sum_between_prefix_sums<T: Summable>(
    tree: PostfixSegmentTree<T>,
    index: nat,
    count: nat,
)
    requires
        index + count <= tree@.len(),
    ensures
        range_sum(tree@, 0, (index + count) as int) == range_sum(tree@, 0, index as int).combine(
            range_sum(tree@, index as int, (index + count) as int),
        ),
{
    lemma_range_sum_split(tree@, 0, index as int, (index + count) as int);
}

/// Two's complement subtraction on 64 bits, wrapping as `i64::wrapping_sub`
/// does.
pub open spec fn i64_wrapping_difference(a: i64, b: i64) -> i64 {
    if a - b > i64::MAX {
        (a - b - 0x1_0000_0000_0000_0000) as i64
    } else if a - b < i64::MIN {
        (a - b + 0x1_0000_0000_0000_0000) as i64
    } else {
        (a - b) as i64
    }
}

/// On `i64` elements, the sum of `count` elements from `index` is the prefix
/// sum up to `index + count` minus the prefix sum up to `index`.
pub proof fn lemma_sum_is_prefix_difference(tree: PostfixSegmentTree<i64>, index: nat, count: nat)
    requires
        index + count <= tree@.len(),
    ensures
        range_sum(tree@, index as int, (index + count) as int) == i64_wrapping_difference(
            range_sum(tree@, 0, (index + count) as int),
            range_sum(tree@, 0, index as int),
        ),
{
    lemma_sum_between_prefix_sums(tree, index, count);
}

/// Inserting `element` at `index` and then removing the element at `index`
/// gives back the same elements, and so the same prefix sums.
pub proof fn lemma_insert_then_remove<T: Summable>(
    tree: PostfixSegmentTree<T>,
    index: nat,
    element: T,
)
    requires
        index <= tree@.len(),
    ensures
        tree@.insert(index as int, element)[index as int] == element,
        tree@.insert(index as int, element).remove(index as int) == tree@,
        forall|k: int|
            0 <= k <= tree@.len() ==> #[trigger] range_sum(
                tree@.insert(index as int, element).remove(index as int),
                0,
                k,
            ) == range_sum(tree@, 0, k),
{
    let s = tree@;
    s.insert_ensures(index as int, element);
    s.insert(index as int, element).remove_ensures(index as int);
    assert(s.insert(index as int, element).remove(index as int) =~= s);
}

/// Relies on `Vec::capacity`: the number of elements the vector can hold
/// without reallocating, never fewer than it holds. The recorded floor is a
/// capacity the wrappers below obtained and that nothing has lowered since.
#[verifier::external_body]
fn nodes_capacity_of<T>(tree: &PostfixSegmentTree<T>) -> (r: usize)
    ensures
        r >= tree.nodes@.len(),
        r >= tree.capacity_floor@,
{
    tree.nodes.capacity()
}

/// Relies on `Vec::reserve`: afterwards the vector can hold at least
/// `len + additional` elements, its capacity never shrinks, and the contents
/// stay as they are. It panics when `len + additional` overflows `usize` or
/// the grown buffer, at most twice that size, exceeds `isize::MAX` bytes,
/// which `requires` rules out.
#[verifier::external_body]
fn reserve_nodes_of<T>(tree: &mut PostfixSegmentTree<T>, additional: usize)
    requires
        old(tree).nodes@.len() + additional <= usize::MAX,
        2 * (old(tree).nodes@.len() + additional) * vstd::layout::size_of::<T>() <= isize::MAX,
    ensures
        final(tree).nodes@ == old(tree).nodes@,
        final(tree).len == old(tree).len,
        final(tree).capacity_floor@ == if old(tree).capacity_floor@ >= old(tree).nodes@.len()
            + additional {
            old(tree).capacity_floor@
        } else {
            (old(tree).nodes@.len() + additional) as nat
        },
{
    tree.nodes.reserve(additional)
}

/// Relies on `Vec::reserve_exact`: afterwards the vector can hold at least
/// `len + additional` elements, its capacity never shrinks, and the contents
/// stay as they are. It panics when the new capacity overflows `usize` or
/// exceeds `isize::MAX` bytes, which `requires` rules out.
#[verifier::external_body]
fn reserve_nodes_exact_of<T>(tree: &mut PostfixSegmentTree<T>, additional: usize)
    requires
        old(tree).nodes@.len() + additional <= usize::MAX,
        (old(tree).nodes@.len() + additional) * vstd::layout::size_of::<T>() <= isize::MAX,
    ensures
        final(tree).nodes@ == old(tree).nodes@,
        final(tree).len == old(tree).len,
        final(tree).capacity_floor@ == if old(tree).capacity_floor@ >= old(tree).nodes@.len()
            + additional {
            old(tree).capacity_floor@
        } else {
            (old(tree).nodes@.len() + additional) as nat
        },
{
    tree.nodes.reserve_exact(additional)
}

/// Relies on `Vec::shrink_to_fit`: it may shrink the allocation, but never
/// below the length, and leaves the contents as they are.
#[verifier::external_body]
fn shrink_to_fit_of<T>(tree: &mut PostfixSegmentTree<T>)
    ensures
        final(tree).nodes@ == old(tree).nodes@,
        final(tree).len == old(tree).len,
        final(tree).capacity_floor@ == old(tree).nodes@.len(),
{
    tree.nodes.shrink_to_fit()
}

/// Relies on `Vec::shrink_to`: it leaves a capacity below `min_capacity`
/// alone and otherwise shrinks it to no less than the length and
/// `min_capacity`; the contents stay as they are.
#[verifier::external_body]
fn shrink_nodes_to_of<T>(tree: &mut PostfixSegmentTree<T>, min_capacity: usize)
    ensures
        final(tree).nodes@ == old(tree).nodes@,
        final(tree).len == old(tree).len,
        final(tree).capacity_floor@ == if old(tree).capacity_floor@ <= min_capacity {
            old(tree).capacity_floor@
        } else {
            min_capacity as nat
        },
{
    tree.nodes.shrink_to(min_capacity)
}

} // verus!
