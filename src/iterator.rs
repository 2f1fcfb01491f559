//! A double-ended iterator over the elements of a tree.
use vstd::prelude::*;
use crate::tree::PostfixSegmentTree;

verus! {

impl<T> PostfixSegmentTree<T> {
    /// Returns an iterator over the elements, in order.
    pub fn iter(&self) -> (r: ElementIterator<'_, T>)
        requires
            self.wf(),
        ensures
            r.wf(),
            r@ == self@,
    {
        ElementIterator::new(self, 0, self.len())
    }
}

/// Iterator over the elements of a [`PostfixSegmentTree`], from either end.
pub struct ElementIterator<'a, T> {
    tree: &'a PostfixSegmentTree<T>,
    index: usize,
    end: usize,
}

impl<'a, T> View for ElementIterator<'a, T> {
    type V = Seq<T>;

    /// The elements not yet returned from either end.
    closed spec fn view(&self) -> Seq<T> {
        self.tree@.subrange(self.index as int, self.end as int)
    }
}

impl<'a, T> ElementIterator<'a, T> {
    pub closed spec fn wf(&self) -> bool {
        &&& self.tree.wf()
        &&& self.index <= self.end <= self.tree@.len()
    }

    pub(crate) fn new(tree: &'a PostfixSegmentTree<T>, index: usize, end: usize) -> (r: Self)
        requires
            tree.wf(),
            index <= end <= tree@.len(),
        ensures
            r.wf(),
            r@ == tree@.subrange(index as int, end as int),
    {
        ElementIterator { tree, index, end }
    }

    /// Returns the first remaining element.
    pub fn next(&mut self) -> (r: Option<&'a T>)
        requires
            old(self).wf(),
        ensures
            final(self).wf(),
            old(self)@.len() == 0 ==> r.is_none() && final(self)@ == old(self)@,
            old(self)@.len() > 0 ==> r == Some(&old(self)@[0]) && final(self)@ == old(self)@.drop_first(),
            next_step(old(self)@, r, final(self)@),
    {
        if self.index >= self.end {
            return None;
        }
        let value = self.tree.get(self.index);
        self.index = self.index + 1;
        proof {
            assert(self@ =~= old(self)@.drop_first());
        }
        value
    }

    /// Returns the number of remaining elements, as an exact lower and upper
    /// bound.
    pub fn size_hint(&self) -> (r: (usize, Option<usize>))
        requires
            self.wf(),
        ensures
            r.0 == self@.len(),
            r.1 == Some(self@.len() as usize),
    {
        let len = self.end - self.index;
        (len, Some(len))
    }

    /// Returns the last remaining element, consuming the iterator.
    pub fn last(self) -> (r: Option<&'a T>)
        requires
            self.wf(),
        ensures
            self@.len() == 0 ==> r.is_none(),
            self@.len() > 0 ==> r == Some(&self@.last()),
    {
        let len = self.end - self.index;
        if len == 0 {
            return None;
        }
        let index = self.end - 1;
        self.tree.get(index)
    }

    /// Skips `n` elements and returns the next one; when fewer than `n + 1`
    /// remain, returns `None` and leaves nothing.
    pub fn nth(&mut self, n: usize) -> (r: Option<&'a T>)
        requires
            old(self).wf(),
        ensures
            final(self).wf(),
            n < old(self)@.len() ==> r == Some(&old(self)@[n as int]) && final(self)@ == old(self)@.subrange(n + 1, old(self)@.len() as int),
            n >= old(self)@.len() ==> r.is_none() && final(self)@.len() == 0,
    {
        if n >= self.end - self.index {
            self.index = self.end;
            return None;
        }
        let value = self.tree.get(self.index + n);
        self.index = self.index + n + 1;
        proof {
            assert(self@ =~= old(self)@.subrange(n + 1, old(self)@.len() as int));
        }
        value
    }

    /// Returns the last remaining element.
    pub fn next_back(&mut self) -> (r: Option<&'a T>)
        requires
            old(self).wf(),
        ensures
            final(self).wf(),
            old(self)@.len() == 0 ==> r.is_none() && final(self)@ == old(self)@,
            old(self)@.len() > 0 ==> r == Some(&old(self)@.last()) && final(self)@ == old(self)@.drop_last(),
            next_back_step(old(self)@, r, final(self)@),
    {
        if self.index >= self.end {
            return None;
        }
        let value = self.tree.get(self.end - 1);
        self.end = self.end - 1;
        proof {
            assert(self@ =~= old(self)@.drop_last());
        }
        value
    }

    /// Skips `n` elements from the back and returns the one before them; when
    /// fewer than `n + 1` remain, returns `None` and leaves nothing.
    pub fn nth_back(&mut self, n: usize) -> (r: Option<&'a T>)
        requires
            old(self).wf(),
        ensures
            final(self).wf(),
            n < old(self)@.len() ==> r == Some(&old(self)@[old(self)@.len() - 1 - n]) && final(self)@ == old(self)@.subrange(0, old(self)@.len() - 1 - n),
            n >= old(self)@.len() ==> r.is_none() && final(self)@.len() == 0,
    {
        if n >= self.end - self.index {
            self.end = self.index;
            return None;
        }
        let value = self.tree.get(self.end - n - 1);
        self.end = self.end - n - 1;
        proof {
            assert(self@ =~= old(self)@.subrange(0, old(self)@.len() - 1 - n));
        }
        value
    }
}

/// One call of `next`: from remaining elements `before` it returns `r` and
/// leaves `after`, as `next` promises.
pub open spec fn next_step<T>(before: Seq<T>, r: Option<&T>, after: Seq<T>) -> bool {
    &&& before.len() == 0 ==> r.is_none() && after == before
    &&& before.len() > 0 ==> r == Some(&before[0]) && after == before.drop_first()
}

/// One call of `next_back`: from remaining elements `before` it returns `r`
/// and leaves `after`, as `next_back` promises.
pub open spec fn next_back_step<T>(before: Seq<T>, r: Option<&T>, after: Seq<T>) -> bool {
    &&& before.len() == 0 ==> r.is_none() && after == before
    &&& before.len() > 0 ==> r == Some(&before.last()) && after == before.drop_last()
}

/// Calls of `next` in a row: the `k`-th returned `results[k]`, with
/// `states[k]` remaining before it and `states[k + 1]` after it.
pub open spec fn is_next_run<T>(states: Seq<Seq<T>>, results: Seq<Option<&T>>) -> bool {
    &&& states.len() == results.len() + 1
    &&& forall|k: int|
        0 <= k < results.len() ==> #[trigger] next_step(states[k], results[k], states[k + 1])
}

/// Calls of `next_back` in a row, as in `is_next_run`.
pub open spec fn is_next_back_run<T>(states: Seq<Seq<T>>, results: Seq<Option<&T>>) -> bool {
    &&& states.len() == results.len() + 1
    &&& forall|k: int|
        0 <= k < results.len() ==> #[trigger] next_back_step(states[k], results[k], states[k + 1])
}

proof fn lemma_next_run_state<T>(s: Seq<T>, states: Seq<Seq<T>>, results: Seq<Option<&T>>, k: int)
    requires
        is_next_run(states, results),
        states[0] == s,
        results.len() == s.len() + 1,
        0 <= k <= s.len(),
    ensures
        states[k] == s.subrange(k, s.len() as int),
    decreases k,
{
    if k == 0 {
        assert(s.subrange(0, s.len() as int) =~= s);
    } else {
        lemma_next_run_state(s, states, results, k - 1);
        let j = k - 1;
        assert(next_step(states[j], results[j], states[j + 1]));
        assert(s.subrange(k - 1, s.len() as int).drop_first() =~= s.subrange(k, s.len() as int));
    }
}

proof fn lemma_next_back_run_state<T>(
    s: Seq<T>,
    states: Seq<Seq<T>>,
    results: Seq<Option<&T>>,
    k: int,
)
    requires
        is_next_back_run(states, results),
        states[0] == s,
        results.len() == s.len() + 1,
        0 <= k <= s.len(),
    ensures
        states[k] == s.subrange(0, s.len() - k),
    decreases k,
{
    if k == 0 {
        assert(s.subrange(0, s.len() as int) =~= s);
    } else {
        lemma_next_back_run_state(s, states, results, k - 1);
        let j = k - 1;
        assert(next_back_step(states[j], results[j], states[j + 1]));
        assert(s.subrange(0, s.len() - (k - 1)).drop_last() =~= s.subrange(0, s.len() - k));
    }
}

/// Calling `next` `s.len() + 1` times on an iterator whose remaining
/// elements are `s` (as `iter()` gives for a tree holding `s`) returns the
/// elements of `s` in order, then `None`.
pub proof fn lemma_next_run_yields_all<T>(s: Seq<T>, states: Seq<Seq<T>>, results: Seq<Option<&T>>)
    requires
        is_next_run(states, results),
        states[0] == s,
        results.len() == s.len() + 1,
    ensures
        forall|k: int| 0 <= k < s.len() ==> #[trigger] results[k] == Some(&s[k]),
        results[s.len() as int].is_none(),
{
    assert forall|k: int| 0 <= k < s.len() implies #[trigger] results[k] == Some(&s[k]) by {
        lemma_next_run_state(s, states, results, k);
        assert(next_step(states[k], results[k], states[k + 1]));
    }
    lemma_next_run_state(s, states, results, s.len() as int);
    assert(next_step(states[s.len() as int], results[s.len() as int], states[s.len() + 1 as int]));
}

/// Calling `next_back` `s.len() + 1` times on an iterator whose remaining
/// elements are `s` returns the elements of `s` reversed, then `None`.
pub proof fn lemma_next_back_run_yields_reversed<T>(
    s: Seq<T>,
    states: Seq<Seq<T>>,
    results: Seq<Option<&T>>,
)
    requires
        is_next_back_run(states, results),
        states[0] == s,
        results.len() == s.len() + 1,
    ensures
        forall|k: int| 0 <= k < s.len() ==> #[trigger] results[k] == Some(&s.reverse()[k]),
        results[s.len() as int].is_none(),
{
    assert forall|k: int| 0 <= k < s.len() implies #[trigger] results[k] == Some(&s.reverse()[k]) by {
        lemma_next_back_run_state(s, states, results, k);
        assert(next_back_step(states[k], results[k], states[k + 1]));
    }
    lemma_next_back_run_state(s, states, results, s.len() as int);
    assert(next_back_step(states[s.len() as int], results[s.len() as int], states[s.len() + 1 as int]));
}

} // verus!
