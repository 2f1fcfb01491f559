//! Addressing of tree nodes in postfix order.
//!
//! The node that sums the `2^level` leaves ending at leaf `index` is stored at
//! offset `nodes_len_for(index) + level`, where `nodes_len_for(n) = 2n - popcount(n)`
//! is the number of nodes that `n` leaves need. A leaf `index` is the right end
//! of `trailing_ones(index) + 1` nodes, one per level.
use vstd::prelude::*;
use vstd::arithmetic::power2::{pow2, lemma_pow2_pos, lemma_pow2_unfold};
use crate::bits::{
    popcount,
    trailing_ones,
    ilog2,
    aligned,
    lemma_popcount_le,
    lemma_aligned_iff_trailing_ones,
    lemma_aligned_ge,
    lemma_ilog2_bounds,
    count_ones_of,
    trailing_ones_of,
    pow2_of,
};

verus! {

/// The largest number of elements a tree may hold; it keeps every node
/// offset within `usize`.
pub const MAX_LEN: usize = usize::MAX / 2;

/// Number of nodes needed to store `n` leaves.
pub open spec fn nodes_len_for(n: nat) -> nat {
    (2 * n - popcount(n)) as nat
}

/// Storage offset of the node of `level` that ends at leaf `index`.
pub open spec fn node_index_of(index: nat, level: nat) -> nat {
    nodes_len_for(index) + level
}

/// The node `(index, level)` exists once leaf `index` exists.
pub open spec fn valid_node(index: nat, level: nat) -> bool {
    index <= MAX_LEN && level <= trailing_ones(index)
}

/// First leaf covered by the node `(index, level)`; it covers the leaves
/// `span_start(index, level) ..= index`.
pub open spec fn span_start(index: nat, level: nat) -> int {
    index + 1 - pow2(level)
}

/// The number of nodes for `n` leaves by the layout itself: the largest full
/// binary tree, of `2p - 1` nodes for its `p` leaves, followed by the nodes for
/// the remaining leaves.
pub open spec fn nodes_len_recursive(n: nat) -> nat
    decreases n,
    via nodes_len_recursive_decreases
{
    if n == 0 {
        0
    } else {
        let p = pow2(ilog2(n));
        ((2 * p - 1) + nodes_len_recursive((n - p) as nat)) as nat
    }
}

#[via_fn]
proof fn nodes_len_recursive_decreases(n: nat) {
    if n != 0 {
        lemma_pow2_pos(ilog2(n));
        lemma_ilog2_bounds(n);
    }
}

proof fn lemma_popcount_succ(n: nat)
    ensures
        popcount(n + 1) + trailing_ones(n) == popcount(n) + 1,
    decreases n,
{
    assert((n + 1) / 2 == if n % 2 == 1 { n / 2 + 1 } else { n / 2 });
    if n % 2 == 1 {
        lemma_popcount_succ(n / 2);
    }
}

/// Appending leaf `n` adds the leaf and its `trailing_ones(n)` ancestors.
pub proof fn lemma_nodes_len_step(n: nat)
    ensures
        nodes_len_for(n + 1) == nodes_len_for(n) + trailing_ones(n) + 1,
{
    lemma_popcount_succ(n);
    lemma_popcount_le(n);
    lemma_popcount_le(n + 1);
}

/// The nodes of leaf `i` all come before those of any later leaf.
pub proof fn lemma_nodes_len_monotonic(i: nat, j: nat)
    requires
        i < j,
    ensures
        nodes_len_for(i) + trailing_ones(i) < nodes_len_for(j),
    decreases j - i,
{
    lemma_nodes_len_step(i);
    if i + 1 < j {
        lemma_nodes_len_monotonic(i + 1, j);
        lemma_nodes_len_step(i + 1);
    }
}

/// Distinct valid nodes have distinct storage offsets.
pub proof fn lemma_node_index_injective(i1: nat, l1: nat, i2: nat, l2: nat)
    requires
        valid_node(i1, l1),
        valid_node(i2, l2),
        node_index_of(i1, l1) == node_index_of(i2, l2),
    ensures
        i1 == i2,
        l1 == l2,
{
    if i1 < i2 {
        lemma_nodes_len_monotonic(i1, i2);
    } else if i2 < i1 {
        lemma_nodes_len_monotonic(i2, i1);
    }
}

/// A valid node covers `2^level` leaves, all of them at or before `index`, and
/// `index + 1` is a multiple of `2^level`.
pub proof fn lemma_valid_node_span(index: nat, level: nat)
    requires
        level <= trailing_ones(index),
    ensures
        aligned(index + 1, level),
        pow2(level) <= index + 1,
        span_start(index, level) >= 0,
{
    lemma_aligned_iff_trailing_ones(index, level);
    lemma_aligned_ge(index + 1, level);
}

proof fn lemma_popcount_high_bit(k: nat, m: nat)
    requires
        m < pow2(k),
    ensures
        popcount(pow2(k) + m) == 1 + popcount(m),
    decreases k,
{
    if k == 0 {
        vstd::arithmetic::power2::lemma2_to64();
    } else {
        lemma_pow2_unfold(k);
        lemma_pow2_pos((k - 1) as nat);
        assert((pow2(k) + m) / 2 == pow2((k - 1) as nat) + m / 2);
        assert((pow2(k) + m) % 2 == m % 2);
        lemma_popcount_high_bit((k - 1) as nat, m / 2);
    }
}

/// The closed form `2n - popcount(n)` agrees with the recursive count.
pub proof fn lemma_nodes_len_closed_form(n: nat)
    ensures
        nodes_len_for(n) == nodes_len_recursive(n),
    decreases n,
{
    if n > 0 {
        let k = ilog2(n);
        let p = pow2(k);
        lemma_ilog2_bounds(n);
        lemma_pow2_unfold(k + 1);
        lemma_popcount_high_bit(k, (n - p) as nat);
        lemma_popcount_le((n - p) as nat);
        lemma_nodes_len_closed_form((n - p) as nat);
    }
}

/// Returns the number of nodes needed to store `len` leaves.
pub fn get_nodes_len_for(len: usize) -> (r: usize)
    requires
        len <= MAX_LEN,
    ensures
        r == nodes_len_for(len as nat),
{
    let ones = count_ones_of(len);
    proof {
        lemma_popcount_le(len as nat);
    }
    len * 2 - ones
}

/// Returns how many ancestor nodes follow the leaf `index` in storage.
pub fn get_max_level_from_index(index: usize) -> (r: u32)
    ensures
        r == trailing_ones(index as nat),
{
    trailing_ones_of(index)
}

/// Identifies the node of `level` whose leaves end at leaf `index`.
#[derive(Clone, Copy, PartialEq, Eq, Structural, Debug)]
pub struct NodeId {
    index: usize,
    level: u32,
}

impl NodeId {
    pub closed spec fn spec_index(&self) -> usize {
        self.index
    }

    pub closed spec fn spec_level(&self) -> u32 {
        self.level
    }

    pub open spec fn wf(&self) -> bool {
        valid_node(self.spec_index() as nat, self.spec_level() as nat)
    }

    pub fn new(index: usize, level: u32) -> (r: NodeId)
        requires
            valid_node(index as nat, level as nat),
        ensures
            r.spec_index() == index,
            r.spec_level() == level,
            r.wf(),
    {
        NodeId { index, level }
    }

    #[verifier::when_used_as_spec(spec_index)]
    pub fn index(&self) -> (r: usize)
        ensures
            r == self.spec_index(),
    {
        self.index
    }

    #[verifier::when_used_as_spec(spec_level)]
    pub fn level(&self) -> (r: u32)
        ensures
            r == self.spec_level(),
    {
        self.level
    }

    /// The child covering the first half of this node's leaves.
    pub fn left_child(&self) -> (r: NodeId)
        requires
            self.wf(),
            self.level() > 0,
        ensures
            r.wf(),
            r.index() == self.index() - pow2((self.level() - 1) as nat),
            r.level() == self.level() - 1,
    {
        let child_level = self.level - 1;
        proof {
            lemma_valid_node_span(self.index as nat, self.level as nat);
            lemma_pow2_unfold(self.level as nat);
            lemma_child_valid(self.index as nat, self.level as nat);
        }
        let width = pow2_of(child_level);
        NodeId { index: self.index - width, level: child_level }
    }

    /// The child covering the second half of this node's leaves.
    pub fn right_child(&self) -> (r: NodeId)
        requires
            self.wf(),
            self.level() > 0,
        ensures
            r.wf(),
            r.index() == self.index(),
            r.level() == self.level() - 1,
    {
        let child_level = self.level - 1;
        NodeId { index: self.index, level: child_level }
    }

    /// Storage offset of this node.
    pub fn node_index(&self) -> (r: usize)
        requires
            self.wf(),
        ensures
            r == node_index_of(self.index() as nat, self.level() as nat),
            r < nodes_len_for(self.index() as nat + 1),
    {
        let nodes_len = get_nodes_len_for(self.index);
        proof {
            lemma_nodes_len_step(self.index as nat);
            lemma_popcount_le(self.index as nat + 1);
            assert(popcount(self.index as nat + 1) >= 1) by {
                lemma_popcount_positive(self.index as nat + 1);
            }
        }
        nodes_len + self.level as usize
    }
}

proof fn lemma_popcount_positive(n: nat)
    requires
        n > 0,
    ensures
        popcount(n) >= 1,
    decreases n,
{
    if n % 2 == 0 {
        lemma_popcount_positive(n / 2);
    }
}

/// Both children of a valid node of positive level are valid.
pub proof fn lemma_child_valid(index: nat, level: nat)
    requires
        valid_node(index, level),
        level > 0,
    ensures
        pow2((level - 1) as nat) <= index,
        valid_node((index - pow2((level - 1) as nat)) as nat, (level - 1) as nat),
{
    let half = pow2((level - 1) as nat);
    lemma_valid_node_span(index, level);
    lemma_pow2_unfold(level);
    crate::bits::lemma_aligned_weaken(index + 1, level, (level - 1) as nat);
    crate::bits::lemma_pow2_aligned((level - 1) as nat, (level - 1) as nat);
    crate::bits::lemma_aligned_add(index + 1, half, (level - 1) as nat);
    lemma_aligned_iff_trailing_ones((index - half) as nat, (level - 1) as nat);
}

/// Identifies a leaf, the node of level 0 at `index`.
#[derive(Clone, Copy, PartialEq, Eq, Structural, Debug)]
pub struct LeafNodeId {
    index: usize,
}

impl LeafNodeId {
    pub closed spec fn spec_index(&self) -> usize {
        self.index
    }

    pub fn new(index: usize) -> (r: LeafNodeId)
        requires
            index <= MAX_LEN,
        ensures
            r.spec_index() == index,
    {
        LeafNodeId { index }
    }

    #[verifier::when_used_as_spec(spec_index)]
    pub fn index(&self) -> (r: usize)
        ensures
            r == self.spec_index(),
    {
        self.index
    }

    /// Storage offset of this leaf.
    pub fn node_index(&self) -> (r: usize)
        requires
            self.index() <= MAX_LEN,
        ensures
            r == nodes_len_for(self.index() as nat),
    {
        get_nodes_len_for(self.index)
    }

    /// Highest level of a node that ends at this leaf.
    pub fn max_level(&self) -> (r: u32)
        ensures
            r == trailing_ones(self.index() as nat),
    {
        get_max_level_from_index(self.index)
    }

    /// The node of `level` that ends at this leaf.
    pub fn with_level(&self, level: u32) -> (r: NodeId)
        requires
            valid_node(self.index() as nat, level as nat),
        ensures
            r.index() == self.index(),
            r.level() == level,
            r.wf(),
    {
        NodeId::new(self.index, level)
    }
}

} // verus!
