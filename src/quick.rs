use crate::array::{
    ArrayModel, MAX_ARRAY_SIZE, ascending, identity_seq, is_permutation_of_range, mark_pair, marks,
    swapped,
};
use vstd::prelude::*;

verus! {

/// The abstract state of the quicksort engine: the array and the stack of
/// inclusive ranges that still wait for a partition (its top is the last
/// entry).
pub struct QuickState {
    pub values: Seq<i16>,
    pub stack: Seq<(usize, usize)>,
}

/// Position `p` lies in the inclusive range `r`.
pub open spec fn in_range(r: (usize, usize), p: int) -> bool {
    r.0 <= p <= r.1
}

/// Some range of `st` holds both `p` and `q`.
pub open spec fn together(st: Seq<(usize, usize)>, p: int, q: int) -> bool
    decreases st.len(),
{
    if st.len() == 0 {
        false
    } else {
        (in_range(st.last(), p) && in_range(st.last(), q)) || together(st.drop_last(), p, q)
    }
}

/// Some range of `st` holds `p`.
pub open spec fn covered(st: Seq<(usize, usize)>, p: int) -> bool
    decreases st.len(),
{
    if st.len() == 0 {
        false
    } else {
        in_range(st.last(), p) || covered(st.drop_last(), p)
    }
}

/// No position lies in two ranges of `st`.
pub open spec fn disjoint_ranges(st: Seq<(usize, usize)>) -> bool
    decreases st.len(),
{
    if st.len() == 0 {
        true
    } else {
        &&& disjoint_ranges(st.drop_last())
        &&& forall|p: int| in_range(st.last(), p) ==> !covered(st.drop_last(), p)
    }
}

/// Every range of `st` is a (possibly empty) range of positions below `n`.
pub open spec fn ranges_fit(st: Seq<(usize, usize)>, n: int) -> bool {
    forall|k: int| 0 <= k < st.len() ==> st[k].0 <= st[k].1 + 1 && #[trigger] st[k].1 < n
}

/// Any two positions that no pending range holds together are in order.
pub open spec fn ordered_outside(values: Seq<i16>, st: Seq<(usize, usize)>) -> bool {
    forall|p: int, q: int|
        #![trigger values[p], values[q]]
        0 <= p < q < values.len() && !together(st, p, q) ==> values[p] <= values[q]
}

/// The invariant of the quicksort engine.
pub open spec fn quick_inv(s: QuickState) -> bool {
    &&& 1 <= s.values.len() <= usize::MAX
    &&& ranges_fit(s.stack, s.values.len() as int)
    &&& disjoint_ranges(s.stack)
    &&& ordered_outside(s.values, s.stack)
}

/// The scan of a Lomuto partition: positions `j..high` are still to be
/// compared with `pivot`, and the entries below `i` are known to be smaller.
pub open spec fn lomuto_scan(s: Seq<i16>, j: int, high: int, pivot: i16, i: int) -> (Seq<i16>, int)
    decreases high - j,
{
    if j >= high {
        (s, i)
    } else if s[j] < pivot {
        lomuto_scan(swapped(s, i, j), j + 1, high, pivot, i + 1)
    } else {
        lomuto_scan(s, j + 1, high, pivot, i)
    }
}

/// A Lomuto partition of `low..=high` around the entry at `high`: the new
/// array and the final position of the pivot.
pub open spec fn lomuto(s: Seq<i16>, low: int, high: int) -> (Seq<i16>, int) {
    let (t, i) = lomuto_scan(s, low, high, s[high], low);
    (swapped(t, i, high), i)
}

/// One step of the engine: nothing once sorted; otherwise pop the top range,
/// drop it if it holds fewer than two positions, else partition it and push
/// the part left of the pivot (when not empty) and then the part right of it.
pub open spec fn quick_next(s: QuickState) -> QuickState {
    if ascending(s.values) || s.stack.len() == 0 {
        s
    } else {
        let (low, high) = s.stack.last();
        let rest = s.stack.drop_last();
        if low >= high {
            QuickState { values: s.values, stack: rest }
        } else {
            let (t, i) = lomuto(s.values, low as int, high as int);
            let left = if i > low { rest.push((low, (i - 1) as usize)) } else { rest };
            QuickState { values: t, stack: left.push(((i + 1) as usize, high)) }
        }
    }
}

/// The state right after construction or a shuffle: one range spanning the
/// whole array.
pub open spec fn quick_fresh(values: Seq<i16>) -> QuickState {
    QuickState { values, stack: seq![(0usize, (values.len() - 1) as usize)] }
}

/// The positions to draw distinctly: the ends of the top range, while a
/// range is pending.
pub open spec fn quick_highlight(s: QuickState) -> Seq<usize> {
    if s.stack.len() == 0 {
        Seq::empty()
    } else {
        marks(s.stack.last().0 as int, s.stack.last().1 as int, s.values.len() as int)
    }
}

/// The state after `k` steps.
pub open spec fn quick_steps(s: QuickState, k: nat) -> QuickState
    decreases k,
{
    if k == 0 {
        s
    } else {
        quick_steps(quick_next(s), (k - 1) as nat)
    }
}

/// A bound on the steps left: each pending range of `m` positions counts
/// `2 * m + 1`.
pub open spec fn quick_measure(st: Seq<(usize, usize)>) -> int
    decreases st.len(),
{
    if st.len() == 0 {
        0
    } else {
        quick_measure(st.drop_last()) + 2 * (st.last().1 + 1 - st.last().0) + 1
    }
}

/// What holds part way through a Lomuto scan of `low..=high` that started
/// from `s0`.
pub open spec fn scan_inv(s0: Seq<i16>, s: Seq<i16>, low: int, i: int, j: int, high: int, pivot: i16) -> bool {
    &&& 0 <= low <= i <= j <= high < s0.len()
    &&& s.len() == s0.len()
    &&& s.to_multiset() == s0.to_multiset()
    &&& pivot == s0[high]
    &&& s[high] == pivot
    &&& forall|k: int| 0 <= k < s.len() && !(low <= k <= high) ==> s[k] == s0[k]
    &&& forall|k: int| low <= k < i ==> s[k] < pivot
    &&& forall|k: int| i <= k < j ==> s[k] >= pivot
    &&& forall|k: int| low <= k <= high ==> s0.subrange(low, high + 1).contains(#[trigger] s[k])
}

proof fn lemma_scan(s0: Seq<i16>, s: Seq<i16>, low: int, i: int, j: int, high: int, pivot: i16)
    requires
        scan_inv(s0, s, low, i, j, high, pivot),
    ensures
        ({
            let (t, e) = lomuto_scan(s, j, high, pivot, i);
            scan_inv(s0, t, low, e, high, high, pivot)
        }),
    decreases high - j,
{
    if j < high {
        if s[j] < pivot {
            let t = swapped(s, i, j);
            crate::array::lemma_swap_keeps_values(s, i, j);
            assert forall|k: int| low <= k <= high implies s0.subrange(low, high + 1).contains(
                #[trigger] t[k],
            ) by {
                if k == i {
                    assert(t[k] == s[j]);
                } else if k == j {
                    assert(t[k] == s[i]);
                } else {
                    assert(t[k] == s[k]);
                }
            }
            assert forall|k: int| i + 1 <= k < j + 1 implies t[k] >= pivot by {
                if k == j {
                    assert(t[k] == s[i]);
                    if i < j {
                        assert(s[i] >= pivot);
                    } else {
                        assert(t[k] == s[j]);
                        assert(false);
                    }
                }
            }
            lemma_scan(s0, t, low, i + 1, j + 1, high, pivot);
        } else {
            lemma_scan(s0, s, low, i, j + 1, high, pivot);
        }
    }
}

/// What a Lomuto partition of `low..=high` does: the pivot lands at `i`,
/// smaller entries before it, the others after it, nothing outside the
/// range moves, and the range keeps its values.
pub proof fn lemma_lomuto(s: Seq<i16>, low: int, high: int)
    requires
        0 <= low < high < s.len(),
    ensures
        ({
            let (t, i) = lomuto(s, low, high);
            &&& low <= i <= high
            &&& t.len() == s.len()
            &&& t.to_multiset() == s.to_multiset()
            &&& forall|k: int| 0 <= k < t.len() && !(low <= k <= high) ==> t[k] == s[k]
            &&& forall|k: int| low <= k < i ==> t[k] < t[i]
            &&& forall|k: int| i < k <= high ==> t[k] >= t[i]
            &&& forall|k: int|
                low <= k <= high ==> s.subrange(low, high + 1).contains(#[trigger] t[k])
        }),
{
    let pivot = s[high];
    assert forall|k: int| low <= k <= high implies s.subrange(low, high + 1).contains(
        #[trigger] s[k],
    ) by {
        assert(s.subrange(low, high + 1)[k - low] == s[k]);
    }
    lemma_scan(s, s, low, low, low, high, pivot);
    let (u, i) = lomuto_scan(s, low, high, pivot, low);
    let t = swapped(u, i, high);
    crate::array::lemma_swap_keeps_values(u, i, high);
    assert forall|k: int| low <= k <= high implies s.subrange(low, high + 1).contains(
        #[trigger] t[k],
    ) by {
        if k == i {
            assert(t[k] == u[high]);
        } else if k == high {
            assert(t[k] == u[i]);
        } else {
            assert(t[k] == u[k]);
        }
    }
}

proof fn lemma_together_push(st: Seq<(usize, usize)>, r: (usize, usize), p: int, q: int)
    ensures
        together(st.push(r), p, q) == ((in_range(r, p) && in_range(r, q)) || together(st, p, q)),
        covered(st.push(r), p) == (in_range(r, p) || covered(st, p)),
{
    assert(st.push(r).drop_last() =~= st);
}

proof fn lemma_together_covered(st: Seq<(usize, usize)>, p: int, q: int)
    ensures
        together(st, p, q) ==> covered(st, p) && covered(st, q),
    decreases st.len(),
{
    if st.len() > 0 {
        lemma_together_covered(st.drop_last(), p, q);
    }
}

proof fn lemma_measure_nonneg(st: Seq<(usize, usize)>)
    requires
        ranges_fit(st, usize::MAX as int + 1),
    ensures
        quick_measure(st) >= 0,
        st.len() > 0 ==> quick_measure(st) >= 1,
    decreases st.len(),
{
    if st.len() > 0 {
        let k = st.len() - 1;
        assert(st[k].1 < usize::MAX as int + 1);
        assert forall|m: int| 0 <= m < st.drop_last().len() implies st.drop_last()[m].0
            <= st.drop_last()[m].1 + 1 && #[trigger] st.drop_last()[m].1 < usize::MAX as int + 1 by {
            assert(st[m].1 < usize::MAX as int + 1);
        }
        lemma_measure_nonneg(st.drop_last());
    }
}

/// With no range pending, the array is in ascending order.
pub proof fn lemma_empty_stack_sorted(s: QuickState)
    requires
        quick_inv(s),
        s.stack.len() == 0,
    ensures
        ascending(s.values),
{
    assert forall|p: int, q: int| 0 <= p < q < s.values.len() implies s.values[p]
        <= s.values[q] by {
        assert(!together(s.stack, p, q));
    }
}

/// A step keeps the invariant, and on an unsorted array it lowers the
/// measure of the stack.
pub proof fn lemma_quick_next(s: QuickState)
    requires
        quick_inv(s),
    ensures
        quick_inv(quick_next(s)),
        quick_next(s).values.to_multiset() == s.values.to_multiset(),
        quick_next(s).values.len() == s.values.len(),
        !ascending(s.values) ==> quick_measure(quick_next(s).stack) < quick_measure(s.stack),
{
    if s.stack.len() == 0 {
        lemma_empty_stack_sorted(s);
    } else if !ascending(s.values) {
        let n = s.values.len() as int;
        let (low, high) = s.stack.last();
        let rest = s.stack.drop_last();
        let kt = s.stack.len() - 1;
        assert(s.stack[kt].1 < n);
        assert(ranges_fit(rest, n)) by {
            assert forall|m: int| 0 <= m < rest.len() implies rest[m].0 <= rest[m].1 + 1
                && #[trigger] rest[m].1 < n by {
                assert(s.stack[m].1 < n);
            }
        }
        assert(disjoint_ranges(rest));
        if low >= high {
            let t = quick_next(s);
            assert(t.stack == rest);
            assert forall|p: int, q: int|
                #![trigger s.values[p], s.values[q]]
                0 <= p < q < n && !together(rest, p, q) implies s.values[p] <= s.values[q] by {
                assert(!together(s.stack, p, q));
            }
        } else {
            let v = s.values;
            lemma_lomuto(v, low as int, high as int);
            let (t, i) = lomuto(v, low as int, high as int);
            let left = if i > low { rest.push((low, (i - 1) as usize)) } else { rest };
            assert(i + 1 <= usize::MAX);
            let rt = ((i + 1) as usize, high);
            assert(rt.0 == i + 1);
            let st2 = left.push(rt);
            let nx = quick_next(s);
            assert(nx.values == t);
            assert(nx.stack == st2);
            // the new ranges fit
            assert forall|m: int| 0 <= m < st2.len() implies st2[m].0 <= st2[m].1 + 1
                && #[trigger] st2[m].1 < n by {
                if m < rest.len() {
                    assert(st2[m] == rest[m]);
                }
            }
            // every position of a new range lies in the popped range
            assert forall|p: int| covered(left, p) implies covered(rest, p) || in_range(
                (low, high),
                p,
            ) by {
                if i > low {
                    lemma_together_push(rest, (low, (i - 1) as usize), p, p);
                }
            }
            // the new stack is disjoint
            assert(disjoint_ranges(left)) by {
                if i > low {
                    assert(rest.push((low, (i - 1) as usize)).drop_last() =~= rest);
                    assert forall|p: int| in_range((low, (i - 1) as usize), p) implies !covered(
                        rest,
                        p,
                    ) by {
                        assert(in_range(s.stack.last(), p));
                    }
                }
            }
            assert(st2.drop_last() =~= left);
            assert forall|p: int| in_range(rt, p) implies !covered(left, p) by {
                if i > low {
                    lemma_together_push(rest, (low, (i - 1) as usize), p, p);
                }
                assert(in_range(s.stack.last(), p));
            }
            assert(disjoint_ranges(st2));
            // positions not held together are in order
            assert forall|p: int, q: int|
                #![trigger t[p], t[q]]
                0 <= p < q < n && !together(st2, p, q) implies t[p] <= t[q] by {
                lemma_together_push(left, rt, p, q);
                if i > low {
                    lemma_together_push(rest, (low, (i - 1) as usize), p, q);
                }
                let pin = low <= p <= high;
                let qin = low <= q <= high;
                if pin && qin {
                    assert(p <= i <= q);
                } else if pin {
                    let sub = v.subrange(low as int, high + 1);
                    assert(sub.contains(t[p]));
                    let k = choose|k: int| 0 <= k < sub.len() && sub[k] == t[p];
                    let pp = low + k;
                    assert(v[pp] == t[p]);
                    assert(covered(s.stack, pp)) by {
                        lemma_together_push(rest, s.stack.last(), pp, pp);
                        assert(rest.push(s.stack.last()) =~= s.stack);
                    }
                    assert(!covered(rest, pp));
                    lemma_together_covered(rest, pp, q);
                    assert(!together(s.stack, pp, q)) by {
                        lemma_together_push(rest, s.stack.last(), pp, q);
                        assert(rest.push(s.stack.last()) =~= s.stack);
                    }
                    assert(v[pp] <= v[q]);
                } else if qin {
                    let sub = v.subrange(low as int, high + 1);
                    assert(sub.contains(t[q]));
                    let k = choose|k: int| 0 <= k < sub.len() && sub[k] == t[q];
                    let qq = low + k;
                    assert(v[qq] == t[q]);
                    assert(covered(s.stack, qq)) by {
                        lemma_together_push(rest, s.stack.last(), qq, qq);
                        assert(rest.push(s.stack.last()) =~= s.stack);
                    }
                    assert(!covered(rest, qq));
                    lemma_together_covered(rest, p, qq);
                    assert(!together(s.stack, p, qq)) by {
                        lemma_together_push(rest, s.stack.last(), p, qq);
                        assert(rest.push(s.stack.last()) =~= s.stack);
                    }
                    assert(v[p] <= v[qq]);
                } else {
                    assert(!together(s.stack, p, q)) by {
                        lemma_together_push(rest, s.stack.last(), p, q);
                        assert(rest.push(s.stack.last()) =~= s.stack);
                    }
                }
            }
            // the measure drops
            assert(quick_measure(st2) == quick_measure(left) + 2 * (high - i) + 1);
            if i > low {
                let lr = (low, (i - 1) as usize);
                assert(lr.1 == i - 1);
                assert(rest.push(lr).drop_last() =~= rest);
                assert(quick_measure(left) == quick_measure(rest) + 2 * (i - low) + 1);
            }
            assert(quick_measure(s.stack) == quick_measure(rest) + 2 * (high + 1 - low) + 1);
        }
    }
}

/// A fresh state satisfies the invariant.
pub proof fn lemma_quick_fresh(values: Seq<i16>)
    requires
        1 <= values.len() <= usize::MAX,
    ensures
        quick_inv(quick_fresh(values)),
        quick_measure(quick_fresh(values).stack) == 2 * values.len() + 1,
{
    let st = quick_fresh(values).stack;
    assert(st.drop_last() =~= Seq::<(usize, usize)>::empty());
    assert(st.last() == (0usize, (values.len() - 1) as usize));
    assert(quick_measure(st) == quick_measure(st.drop_last()) + 2 * (st.last().1 + 1 - st.last().0)
        + 1);
    assert forall|p: int, q: int|
        #![trigger values[p], values[q]]
        0 <= p < q < values.len() && !together(st, p, q) implies values[p] <= values[q] by {
        assert(in_range(st.last(), p) && in_range(st.last(), q));
        assert(together(st, p, q));
    }
    assert(ranges_fit(st, values.len() as int)) by {
        assert forall|k: int| 0 <= k < st.len() implies st[k].0 <= st[k].1 + 1 && #[trigger] st[k].1
            < values.len() by {
            assert(k == 0);
        }
    }
    assert(disjoint_ranges(st)) by {
        assert(disjoint_ranges(st.drop_last()));
    }
}

/// Once the array is ascending, steps change nothing.
pub proof fn lemma_quick_sorted_stays(s: QuickState, k: nat)
    requires
        ascending(s.values),
    ensures
        quick_steps(s, k) == s,
    decreases k,
{
    if k > 0 {
        lemma_quick_sorted_stays(quick_next(s), (k - 1) as nat);
    }
}

/// Steps only rearrange the array: its multiset of values stays.
pub proof fn lemma_quick_steps_keep_values(s: QuickState, k: nat)
    requires
        quick_inv(s),
    ensures
        quick_inv(quick_steps(s, k)),
        quick_steps(s, k).values.to_multiset() == s.values.to_multiset(),
        quick_steps(s, k).values.len() == s.values.len(),
    decreases k,
{
    if k > 0 {
        lemma_quick_next(s);
        lemma_quick_steps_keep_values(quick_next(s), (k - 1) as nat);
    }
}

/// From any state of the engine, as many steps as the measure of its stack
/// reach an ascending array.
pub proof fn lemma_quick_terminates(s: QuickState, k: nat)
    requires
        quick_inv(s),
        k >= quick_measure(s.stack),
    ensures
        ascending(quick_steps(s, k).values),
    decreases k,
{
    lemma_measure_nonneg(s.stack);
    if ascending(s.values) {
        lemma_quick_sorted_stays(s, k);
    } else {
        lemma_quick_next(s);
        if s.stack.len() == 0 {
            lemma_empty_stack_sorted(s);
        }
        lemma_quick_terminates(quick_next(s), (k - 1) as nat);
    }
}

/// From a fresh shuffle of `n` values, `2 * n + 1` steps sort the array.
pub proof fn lemma_quick_fresh_terminates(values: Seq<i16>)
    requires
        1 <= values.len() <= usize::MAX,
    ensures
        ascending(quick_steps(quick_fresh(values), (2 * values.len() + 1) as nat).values),
{
    lemma_quick_fresh(values);
    lemma_quick_terminates(quick_fresh(values), (2 * values.len() + 1) as nat);
}

/// Quicksort with an explicit stack of pending ranges; one step partitions
/// one range.
pub struct QuickEngine {
    array: ArrayModel,
    stack: Vec<(usize, usize)>,
}

impl View for QuickEngine {
    type V = QuickState;

    closed spec fn view(&self) -> QuickState {
        QuickState { values: self.array@, stack: self.stack@ }
    }
}

impl QuickEngine {
    /// The invariant of the engine.
    pub open spec fn wf(&self) -> bool {
        quick_inv(self@)
    }

    /// An engine over a shuffled arrangement of `0..size`.
    pub fn new(size: usize) -> (r: QuickEngine)
        requires
            1 <= size <= MAX_ARRAY_SIZE,
        ensures
            r.wf(),
            r@ == quick_fresh(r@.values),
            is_permutation_of_range(r@.values),
            r@.values.len() == size,
    {
        let array = ArrayModel::identity(size);
        let mut r = QuickEngine::with_values_of(array);
        r.shuffle();
        r
    }

    /// An engine over the given arrangement, not shuffled.
    pub fn with_values(values: Vec<i16>) -> (r: QuickEngine)
        requires
            values@.len() >= 1,
        ensures
            r.wf(),
            r@ == quick_fresh(values@),
    {
        QuickEngine::with_values_of(ArrayModel::from_values(values))
    }

    fn with_values_of(array: ArrayModel) -> (r: QuickEngine)
        requires
            array@.len() >= 1,
        ensures
            r.wf(),
            r@ == quick_fresh(array@),
    {
        let mut stack: Vec<(usize, usize)> = Vec::new();
        stack.push((0, array.len() - 1));
        proof {
            lemma_quick_fresh(array@);
        }
        let r = QuickEngine { array, stack };
        assert(r@.stack =~= quick_fresh(array@).stack);
        r
    }

    /// One step: nothing once sorted; otherwise pop the top range and, when
    /// it holds two positions or more, partition it and push its two sides.
    pub fn step_sort(&mut self)
        requires
            old(self).wf(),
        ensures
            final(self).wf(),
            final(self)@ == quick_next(old(self)@),
            ascending(old(self)@.values) ==> final(self)@ == old(self)@,
            final(self)@.values.len() == old(self)@.values.len(),
            final(self)@.values.to_multiset() == old(self)@.values.to_multiset(),
    {
        proof {
            lemma_quick_next(self@);
        }
        if self.array.is_sorted() {
            return;
        }
        if let Some((low, high)) = self.stack.pop() {
            proof {
                let k = old(self)@.stack.len() - 1;
                assert(old(self)@.stack[k].1 < self@.values.len());
            }
            let ghost v = self@.values;
            let ghost rest = self@.stack;
            if let Some(i) = self.partition_step(low, high) {
                proof {
                    lemma_lomuto(v, low as int, high as int);
                }
                if i > low {
                    self.stack.push((low, i - 1));
                }
                self.stack.push((i + 1, high));
                proof {
                    let left = if i > low { rest.push((low, (i - 1) as usize)) } else { rest };
                    assert(self@.stack =~= left.push(((i + 1) as usize, high)));
                }
            }
        }
    }

    /// A Lomuto partition of `low..=high` around the entry at `high`, or
    /// `None` when the range holds fewer than two positions.
    fn partition_step(&mut self, low: usize, high: usize) -> (r: Option<usize>)
        requires
            low < high ==> high < old(self)@.values.len(),
        ensures
            final(self)@.stack == old(self)@.stack,
            final(self)@.values.len() == old(self)@.values.len(),
            final(self)@.values.to_multiset() == old(self)@.values.to_multiset(),
            low >= high ==> r is None && final(self)@ == old(self)@,
            low < high ==> r == Some(lomuto(old(self)@.values, low as int, high as int).1 as usize)
                && final(self)@.values == lomuto(old(self)@.values, low as int, high as int).0,
    {
        if low >= high {
            return None;
        }
        let ghost s0 = self@.values;
        proof {
            lemma_lomuto(s0, low as int, high as int);
        }
        let pivot = self.array.get(high);
        let mut i: usize = low;
        let mut j: usize = low;
        while j < high
            invariant
                low <= i <= j <= high < s0.len(),
                self@.values.len() == s0.len(),
                self@.stack == old(self)@.stack,
                pivot == s0[high as int],
                lomuto_scan(self@.values, j as int, high as int, pivot, i as int) == lomuto_scan(
                    s0,
                    low as int,
                    high as int,
                    pivot,
                    low as int,
                ),
            decreases high - j,
        {
            if self.array.get(j) < pivot {
                self.array.swap(i, j);
                i = i + 1;
            }
            j = j + 1;
        }
        self.array.swap(i, high);
        Some(i)
    }

    /// Puts the array in a random order and starts over with one range
    /// spanning all of it.
    pub fn shuffle(&mut self)
        requires
            old(self).wf(),
        ensures
            final(self).wf(),
            final(self)@ == quick_fresh(final(self)@.values),
            final(self)@.values.len() == old(self)@.values.len(),
            final(self)@.values.to_multiset() == old(self)@.values.to_multiset(),
    {
        self.array.shuffle();
        let mut stack: Vec<(usize, usize)> = Vec::new();
        stack.push((0, self.array.len() - 1));
        self.stack = stack;
        proof {
            lemma_quick_fresh(self@.values);
            assert(self@.stack =~= quick_fresh(self@.values).stack);
        }
    }

    /// Whether the array is in ascending order.
    pub fn is_sorted(&self) -> (r: bool)
        ensures
            r == ascending(self@.values),
    {
        self.array.is_sorted()
    }

    /// A copy of the array.
    pub fn snapshot(&self) -> (r: Vec<i16>)
        ensures
            r@ == self@.values,
    {
        self.array.snapshot()
    }

    /// The pending ranges, the top last.
    pub fn pending_ranges(&self) -> (r: Vec<(usize, usize)>)
        ensures
            r@ == self@.stack,
    {
        let mut r: Vec<(usize, usize)> = Vec::new();
        let mut k: usize = 0;
        while k < self.stack.len()
            invariant
                k <= self@.stack.len(),
                r@ =~= self@.stack.subrange(0, k as int),
            decreases self@.stack.len() - k,
        {
            r.push(self.stack[k]);
            k = k + 1;
        }
        assert(r@ =~= self@.stack);
        r
    }

    /// The positions to draw distinctly this frame.
    pub fn highlighted(&self) -> (r: Vec<usize>)
        ensures
            r@ == quick_highlight(self@),
    {
        if self.stack.len() == 0 {
            return Vec::new();
        }
        let top = self.stack[self.stack.len() - 1];
        mark_pair(top.0, top.1, self.array.len())
    }
}

} // verus!
