//! Decomposition of a leaf range into stored nodes.
//!
//! Every stored node covers `2^level` leaves that start at a multiple of
//! `2^level`. The descending iterator covers `0..end` by following the binary
//! digits of `end` from the highest down, so its levels decrease. The ascending
//! iterator covers `start..end` when `end` is aligned enough above `start`, and
//! its levels increase. A range `start..end` is covered by the ascending walk
//! up to the pivot, the first position of the descending walk at or after
//! `start`, followed by the rest of the descending walk.
use vstd::prelude::*;
use vstd::arithmetic::power2::{pow2, lemma_pow2_pos, lemma_pow2_unfold, lemma_pow2_strictly_increases};
use crate::bits::{
    trailing_zeros,
    ilog2,
    aligned,
    lemma_aligned_iff_trailing_zeros,
    lemma_aligned_weaken,
    lemma_aligned_add,
    lemma_aligned_ge,
    lemma_aligned_gap,
    lemma_pow2_aligned,
    lemma_trailing_zeros_exact,
    lemma_ilog2_bounds,
    lemma_aligned_iff_trailing_ones,
    trailing_zeros_of,
    ilog2_of,
    pow2_of,
};
use crate::node_id::{MAX_LEN, NodeId, LeafNodeId, valid_node, span_start};

verus! {

/// The largest `end` for which the descending decomposition of `0..end`
/// passes through `index`.
pub open spec fn max_reachable(index: nat) -> nat {
    if index == 0 {
        usize::MAX as nat
    } else {
        (index + pow2(trailing_zeros(index)) - 1) as nat
    }
}

/// The smallest start from which the ascending decomposition can reach a
/// positive `elements`.
pub open spec fn min_reachable(elements: nat) -> nat {
    if elements == 0 {
        0
    } else {
        (elements - pow2(trailing_zeros(elements))) as nat
    }
}

/// The descending decomposition of `0..end` passes through `index`.
pub open spec fn on_descending_path(index: nat, end: nat) -> bool {
    index <= end && end <= max_reachable(index)
}

/// When `end <= max_reachable(pos)`, every `2^k <= end - pos` keeps `pos`
/// aligned to `k`.
proof fn lemma_reachable_aligned(pos: nat, end: nat, k: nat)
    requires
        pos < end,
        end <= max_reachable(pos),
        pow2(k) <= end - pos,
    ensures
        aligned(pos, k),
{
    if pos == 0 {
        lemma_pow2_pos(k);
    } else {
        let t = trailing_zeros(pos);
        lemma_trailing_zeros_exact(pos);
        if k >= t {
            if k > t {
                lemma_pow2_strictly_increases(t, k);
            }
        } else {
            lemma_aligned_weaken(pos, t, k);
        }
    }
}

/// The node of `level` that starts at `pos`, when `pos` is aligned to `level`.
proof fn lemma_node_from_start(pos: nat, level: nat)
    requires
        aligned(pos, level),
    ensures
        pos + pow2(level) >= 1,
        valid_node((pos + pow2(level) - 1) as nat, level) <== pos + pow2(level) - 1 <= MAX_LEN,
        span_start((pos + pow2(level) - 1) as nat, level) == pos,
{
    lemma_pow2_pos(level);
    lemma_pow2_aligned(level, level);
    lemma_aligned_add(pos, pow2(level), level);
    lemma_aligned_iff_trailing_ones((pos + pow2(level) - 1) as nat, level);
}

/// One step of the descending decomposition of `0..elements` from leaf `id`:
/// the largest node that starts at `id` and ends before `elements`.
pub fn step_skipping_iterator(elements: usize, id: LeafNodeId) -> (r: Option<NodeId>)
    requires
        elements <= MAX_LEN,
        elements <= max_reachable(id.index() as nat),
    ensures
        id.index() >= elements ==> r.is_none(),
        id.index() < elements ==> (r matches Some(node) && {
            &&& node.wf()
            &&& node.level() == ilog2((elements - id.index()) as nat)
            &&& span_start(node.index() as nat, node.level() as nat) == id.index()
            &&& node.index() < elements
            &&& on_descending_path((node.index() + 1) as nat, elements as nat)
        }),
{
    if id.index() >= elements {
        return None;
    }
    let pos = id.index();
    let offset = elements - pos;
    let level = ilog2_of(offset);
    proof {
        lemma_ilog2_bounds(offset as nat);
        lemma_reachable_aligned(pos as nat, elements as nat, level as nat);
        lemma_node_from_start(pos as nat, level as nat);
    }
    let width = pow2_of(level);
    let index = pos + width - 1;
    proof {
        let next = (index + 1) as nat;
        lemma_pow2_unfold(level as nat + 1);
        lemma_pow2_aligned(level as nat, level as nat);
        lemma_aligned_add(pos as nat, width as nat, level as nat);
        lemma_aligned_iff_trailing_zeros(next, level as nat);
        if trailing_zeros(next) > level {
            lemma_pow2_strictly_increases(level as nat, trailing_zeros(next));
        }
    }
    Some(NodeId::new(index, level))
}

/// Returns `max_reachable(index)`.
pub fn max_reachable_elements_for_current_index(index: usize) -> (r: usize)
    ensures
        r == max_reachable(index as nat),
{
    if index == 0 {
        return usize::MAX;
    }
    let t = trailing_zeros_of(index);
    proof {
        crate::bits::lemma_bit_counts_fit(index as nat);
        lemma_trailing_zeros_exact(index as nat);
        lemma_aligned_ge(index as nat, t as nat);
        lemma_pow2_pos(t as nat);
        vstd::arithmetic::power2::lemma2_to64();
        assert(pow2(usize::BITS as nat) == usize::MAX + 1);
        lemma_pow2_aligned(usize::BITS as nat, t as nat);
        lemma_aligned_gap(index as nat, (usize::MAX + 1) as nat, t as nat);
    }
    let width = pow2_of(t);
    index + (width - 1)
}

/// Returns `min_reachable(elements)`.
pub fn min_reachable_index_for_elements(elements: usize) -> (r: usize)
    ensures
        r == min_reachable(elements as nat),
{
    if elements == 0 {
        return 0;
    }
    let t = trailing_zeros_of(elements);
    proof {
        lemma_trailing_zeros_exact(elements as nat);
        lemma_aligned_ge(elements as nat, t as nat);
    }
    elements - pow2_of(t)
}

/// From any start at or after `min_reachable(elements)`, the rest of the way
/// to `elements` starts at a multiple of the largest power of two dividing it.
proof fn lemma_min_reachable_aligned(pos: nat, elements: nat)
    requires
        min_reachable(elements) <= pos < elements,
    ensures
        aligned(pos, trailing_zeros((elements - pos) as nat)),
{
    let offset = (elements - pos) as nat;
    let level = trailing_zeros(offset);
    let b = trailing_zeros(elements);
    lemma_trailing_zeros_exact(elements);
    lemma_trailing_zeros_exact(offset);
    lemma_aligned_ge(offset, level);
    lemma_aligned_ge(elements, b);
    if level > b {
        lemma_pow2_strictly_increases(b, level);
    }
    lemma_aligned_weaken(elements, b, level);
    lemma_aligned_add(elements, offset, level);
    assert(pos == elements - offset);
}

/// One step of the ascending decomposition towards `elements` from leaf `id`:
/// the node that starts at `id` and spans the lowest set bit of the remaining
/// offset.
pub fn step_increasing_skipping_iterator(elements: usize, id: LeafNodeId) -> (r: Option<NodeId>)
    requires
        elements <= MAX_LEN,
        id.index() < elements ==> aligned(
            id.index() as nat,
            trailing_zeros((elements - id.index()) as nat),
        ),
    ensures
        id.index() >= elements ==> r.is_none(),
        id.index() < elements ==> (r matches Some(node) && {
            &&& node.wf()
            &&& node.level() == trailing_zeros((elements - id.index()) as nat)
            &&& span_start(node.index() as nat, node.level() as nat) == id.index()
            &&& node.index() < elements
        }),
{
    if id.index() >= elements {
        return None;
    }
    let pos = id.index();
    let offset = elements - pos;
    let level = trailing_zeros_of(offset);
    proof {
        lemma_trailing_zeros_exact(offset as nat);
        lemma_aligned_ge(offset as nat, level as nat);
        lemma_node_from_start(pos as nat, level as nat);
    }
    let width = pow2_of(level);
    let index = pos + width - 1;
    Some(NodeId::new(index, level))
}

/// `pivot` is the first position at or after `start` through which the
/// descending decomposition of `0..end` passes.
pub open spec fn is_pivot(start: nat, end: nat, pivot: nat) -> bool {
    &&& start <= pivot <= end
    &&& on_descending_path(pivot, end)
    &&& forall|p: nat| start <= p < pivot ==> !#[trigger] on_descending_path(p, end)
}

/// No position strictly inside a node that the descending decomposition
/// emits is itself on the descending path.
proof fn lemma_inside_step_not_on_path(pos: nat, level: nat, end: nat, p: nat)
    requires
        aligned(pos, level),
        pos + pow2(level) <= end,
        pos < p < pos + pow2(level),
    ensures
        !on_descending_path(p, end),
{
    let t = trailing_zeros(p);
    lemma_trailing_zeros_exact(p);
    if t >= level {
        lemma_aligned_weaken(p, t, level);
        lemma_aligned_gap(pos, p, level);
    } else {
        lemma_aligned_weaken(pos, level, t);
        lemma_pow2_aligned(level, t);
        lemma_aligned_add(pos, pow2(level), t);
        lemma_aligned_gap(p, pos + pow2(level), t);
    }
}

/// The cursor of the descending walk of `0..end` after `k` steps: each step
/// moves past the largest node that starts at the cursor and ends before `end`.
pub open spec fn descending_cursor(end: nat, k: nat) -> nat
    decreases k,
{
    if k == 0 {
        0
    } else {
        let p = descending_cursor(end, (k - 1) as nat);
        if p < end {
            p + pow2(ilog2((end - p) as nat))
        } else {
            p
        }
    }
}

/// One step of the descending walk keeps it on the descending path.
proof fn lemma_descending_step(pos: nat, end: nat)
    requires
        on_descending_path(pos, end),
        pos < end,
    ensures
        on_descending_path(pos + pow2(ilog2((end - pos) as nat)), end),
{
    let level = ilog2((end - pos) as nat);
    let next = pos + pow2(level);
    lemma_ilog2_bounds((end - pos) as nat);
    lemma_reachable_aligned(pos, end, level);
    lemma_pow2_pos(level);
    lemma_pow2_unfold(level + 1);
    lemma_pow2_aligned(level, level);
    lemma_aligned_add(pos, pow2(level), level);
    lemma_aligned_iff_trailing_zeros(next, level);
    if trailing_zeros(next) > level {
        lemma_pow2_strictly_increases(level, trailing_zeros(next));
    }
}

proof fn lemma_descending_cursor_on_path(end: nat, k: nat)
    requires
        end <= usize::MAX,
    ensures
        on_descending_path(descending_cursor(end, k), end),
    decreases k,
{
    if k > 0 {
        lemma_descending_cursor_on_path(end, (k - 1) as nat);
        let p = descending_cursor(end, (k - 1) as nat);
        if p < end {
            lemma_descending_step(p, end);
        }
    }
}

proof fn lemma_descending_cursor_reaches(p: nat, end: nat, k: nat)
    requires
        end <= usize::MAX,
        on_descending_path(p, end),
        descending_cursor(end, k) <= p,
    ensures
        exists|j: nat| descending_cursor(end, j) == p,
    decreases p - descending_cursor(end, k),
{
    let c = descending_cursor(end, k);
    if c == p {
        assert(descending_cursor(end, k) == p);
    } else {
        lemma_descending_cursor_on_path(end, k);
        let level = ilog2((end - c) as nat);
        lemma_ilog2_bounds((end - c) as nat);
        lemma_pow2_pos(level);
        lemma_reachable_aligned(c, end, level);
        assert(descending_cursor(end, k + 1) == c + pow2(level));
        if p < c + pow2(level) {
            lemma_inside_step_not_on_path(c, level, end, p);
        } else {
            lemma_descending_cursor_reaches(p, end, k + 1);
        }
    }
}

/// The positions on the descending path of `0..end` are exactly the cursor
/// positions of the descending walk.
pub proof fn lemma_descending_path_is_walk(p: nat, end: nat)
    requires
        end <= usize::MAX,
    ensures
        on_descending_path(p, end) <==> exists|k: nat| descending_cursor(end, k) == p,
{
    if on_descending_path(p, end) {
        lemma_descending_cursor_reaches(p, end, 0);
    }
    if exists|k: nat| descending_cursor(end, k) == p {
        let k = choose|k: nat| descending_cursor(end, k) == p;
        lemma_descending_cursor_on_path(end, k);
    }
}

/// Returns the pivot for the range `index..end`.
pub fn get_pivot(index: usize, end: usize) -> (r: usize)
    requires
        index <= end <= MAX_LEN,
    ensures
        is_pivot(index as nat, end as nat, r as nat),
        min_reachable(r as nat) <= index,
{
    let mut i: usize = 0;
    while i < index
        invariant
            index <= end <= MAX_LEN,
            on_descending_path(i as nat, end as nat),
            i > 0 ==> min_reachable(i as nat) <= index,
            forall|p: nat| index <= p < i ==> !#[trigger] on_descending_path(p, end as nat),
        decreases end - i,
    {
        let leaf_node_id = LeafNodeId::new(i);
        let step = step_skipping_iterator(end, leaf_node_id);
        let node_id = match step {
            Some(node_id) => node_id,
            None => {
                return i;
            },
        };
        let next = node_id.index() + 1;
        proof {
            let level = node_id.level() as nat;
            lemma_pow2_pos(level);
            assert(next == i + pow2(level));
            lemma_ilog2_bounds((end - i) as nat);
            lemma_reachable_aligned(i as nat, end as nat, level);
            assert forall|p: nat| index <= p < next implies !#[trigger] on_descending_path(p, end as nat) by {
                lemma_inside_step_not_on_path(i as nat, level, end as nat, p);
            }
            lemma_pow2_aligned(level, level);
            lemma_aligned_add(i as nat, pow2(level), level);
            lemma_aligned_iff_trailing_zeros(next as nat, level);
            if trailing_zeros(next as nat) > level {
                lemma_pow2_strictly_increases(level, trailing_zeros(next as nat));
            }
            lemma_trailing_zeros_exact(next as nat);
            lemma_aligned_ge(next as nat, trailing_zeros(next as nat));
        }
        i = next;
    }
    i
}

/// Walks the descending decomposition of `0..end`.
pub struct SkippingIterator {
    index: usize,
    end: usize,
}

impl SkippingIterator {
    /// The first leaf not yet covered.
    pub closed spec fn position(&self) -> nat {
        self.index as nat
    }

    pub closed spec fn end(&self) -> nat {
        self.end as nat
    }

    pub open spec fn wf(&self) -> bool {
        self.end() <= MAX_LEN && on_descending_path(self.position(), self.end())
    }

    pub fn new(len: usize) -> (r: SkippingIterator)
        requires
            len <= MAX_LEN,
        ensures
            r.wf(),
            r.position() == 0,
            r.end() == len,
    {
        SkippingIterator { index: 0, end: len }
    }

    /// Moves to the pivot of `index..end` and returns it.
    pub fn skip_to_pivot(&mut self, index: usize) -> (r: usize)
        requires
            old(self).wf(),
            old(self).position() <= index <= old(self).end(),
        ensures
            final(self).wf(),
            final(self).end() == old(self).end(),
            final(self).position() == r,
            is_pivot(index as nat, old(self).end(), r as nat),
            min_reachable(r as nat) <= index,
    {
        let pivot = get_pivot(index, self.end);
        self.index = pivot;
        pivot
    }

    /// Returns the next node of the decomposition, the largest one that
    /// starts at `position()` and ends before `end()`.
    pub fn next(&mut self) -> (r: Option<NodeId>)
        requires
            old(self).wf(),
        ensures
            final(self).wf(),
            final(self).end() == old(self).end(),
            old(self).position() >= old(self).end() ==> r.is_none() && final(self).position()
                == old(self).position(),
            old(self).position() < old(self).end() ==> (r matches Some(node) && {
                &&& node.wf()
                &&& node.level() == ilog2((old(self).end() - old(self).position()) as nat)
                &&& span_start(node.index() as nat, node.level() as nat) == old(self).position()
                &&& final(self).position() == node.index() + 1
            }),
    {
        let leaf_node_id = LeafNodeId::new(self.index);
        match step_skipping_iterator(self.end, leaf_node_id) {
            Some(node_id) => {
                self.index = node_id.index() + 1;
                Some(node_id)
            },
            None => None,
        }
    }
}

/// Walks the ascending decomposition of `index..end`.
pub struct IncreasingSkippingIterator {
    index: usize,
    end: usize,
}

impl IncreasingSkippingIterator {
    /// The first leaf not yet covered.
    pub closed spec fn position(&self) -> nat {
        self.index as nat
    }

    pub closed spec fn end(&self) -> nat {
        self.end as nat
    }

    pub open spec fn wf(&self) -> bool {
        &&& self.end() <= MAX_LEN
        &&& self.position() <= MAX_LEN
        &&& min_reachable(self.end()) <= self.position()
    }

    pub fn new(index: usize, end: usize) -> (r: IncreasingSkippingIterator)
        requires
            index <= MAX_LEN,
            end <= MAX_LEN,
            min_reachable(end as nat) <= index,
        ensures
            r.wf(),
            r.position() == index,
            r.end() == end,
    {
        IncreasingSkippingIterator { index, end }
    }

    /// Returns the next node of the decomposition, the smallest one that
    /// starts at `position()` and keeps `end()` reachable.
    pub fn next(&mut self) -> (r: Option<NodeId>)
        requires
            old(self).wf(),
        ensures
            final(self).wf(),
            final(self).end() == old(self).end(),
            old(self).position() >= old(self).end() ==> r.is_none() && final(self).position()
                == old(self).position(),
            old(self).position() < old(self).end() ==> (r matches Some(node) && {
                &&& node.wf()
                &&& node.level() == trailing_zeros((old(self).end() - old(self).position()) as nat)
                &&& span_start(node.index() as nat, node.level() as nat) == old(self).position()
                &&& node.index() < old(self).end()
                &&& final(self).position() == node.index() + 1
            }),
    {
        let leaf_node_id = LeafNodeId::new(self.index);
        proof {
            if self.index < self.end {
                lemma_min_reachable_aligned(self.index as nat, self.end as nat);
            }
        }
        match step_increasing_skipping_iterator(self.end, leaf_node_id) {
            Some(node_id) => {
                self.index = node_id.index() + 1;
                Some(node_id)
            },
            None => None,
        }
    }
}

} // verus!
