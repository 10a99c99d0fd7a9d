use crate::array::{
    ArrayModel, MAX_ARRAY_SIZE, ascending, is_permutation_of_range, mark_pair, marks, order_pair,
    swapped,
};
use vstd::prelude::*;

verus! {

/// The abstract state of the bubble sort engine.
pub struct BubbleState {
    pub values: Seq<i16>,
    /// The position compared with its right neighbour in the last step.
    pub current: usize,
    /// The other position of the last comparison.
    pub compared: usize,
    /// The exclusive upper bound of the region not yet known to be sorted.
    pub boundary: usize,
    /// Whether a step has run since the state was fresh; before the first
    /// step the cursor stands before position `0`.
    pub started: bool,
}

/// The state right after construction or a shuffle.
pub open spec fn bubble_fresh(values: Seq<i16>) -> BubbleState {
    BubbleState { values, current: 0, compared: 0, boundary: values.len() as usize, started: false }
}

/// One step: nothing once sorted; otherwise advance the cursor (the first
/// step lands on position `0`), starting a new pass with a smaller boundary
/// when it reaches the boundary, and compare the cursor's entry with its
/// right neighbour unless the cursor is on the last position.
pub open spec fn bubble_next(s: BubbleState) -> BubbleState {
    if ascending(s.values) {
        s
    } else {
        let c1 = if s.started { s.current + 1 } else { 0 };
        let (c, b) = if s.boundary <= c1 {
            (0usize, (s.boundary - 1) as usize)
        } else {
            (c1 as usize, s.boundary)
        };
        if c == s.values.len() - 1 {
            BubbleState {
                values: s.values,
                current: c,
                compared: s.compared,
                boundary: b,
                started: true,
            }
        } else {
            BubbleState {
                values: order_pair(s.values, c as int),
                current: c,
                compared: (c + 1) as usize,
                boundary: b,
                started: true,
            }
        }
    }
}

/// The state after `k` steps.
pub open spec fn bubble_steps(s: BubbleState, k: nat) -> BubbleState
    decreases k,
{
    if k == 0 {
        s
    } else {
        bubble_steps(bubble_next(s), (k - 1) as nat)
    }
}

/// Every pair of positions whose later one lies past `b` is in order.
pub open spec fn settled_above(s: Seq<i16>, b: int) -> bool {
    forall|p: int, q: int| #![trigger s[p], s[q]] 0 <= p < q < s.len() && q > b ==> s[p] <= s[q]
}

/// The invariant of the bubble sort engine: either the first pass is under
/// way, or the part past the boundary is settled and the entry right of the
/// cursor is the largest of those up to it.
pub open spec fn bubble_inv(s: BubbleState) -> bool {
    let n = s.values.len();
    ||| s.boundary == n && (s.current < n || n == 0) && (!s.started ==> s.current == 0)
    ||| {
        &&& s.started
        &&& 1 <= s.boundary < n
        &&& s.current < s.boundary
        &&& settled_above(s.values, s.boundary as int)
        &&& forall|k: int| 0 <= k <= s.current ==> #[trigger] s.values[k] <= s.values[s.current + 1]
    }
}

/// `0 + 1 + ... + (n - 1)`.
pub open spec fn triangle(n: nat) -> nat
    decreases n,
{
    if n == 0 {
        0
    } else {
        triangle((n - 1) as nat) + (n - 1) as nat
    }
}

/// How many steps at most remain before the array is sorted.
pub open spec fn bubble_measure(s: BubbleState) -> int {
    let n = s.values.len() as int;
    if s.boundary == n {
        triangle((n - 1) as nat) + 2 * n - 2 - s.current + if s.started { 0int } else { 1 }
    } else {
        triangle(s.boundary as nat) + s.boundary - 1 - s.current
    }
}

/// The positions to draw distinctly: those of the last comparison, until the
/// array is sorted.
pub open spec fn bubble_highlight(s: BubbleState) -> Seq<usize> {
    if ascending(s.values) {
        Seq::empty()
    } else {
        marks(s.current as int, s.compared as int, s.values.len() as int)
    }
}

proof fn lemma_order_pair(s: Seq<i16>, a: int, b: int)
    requires
        0 <= a,
        a + 1 < s.len(),
        a + 1 <= b,
        settled_above(s, b),
    ensures
        settled_above(order_pair(s, a), b),
        order_pair(s, a)[a] <= order_pair(s, a)[a + 1],
        order_pair(s, a)[a + 1] == if s[a] > s[a + 1] { s[a] } else { s[a + 1] },
        forall|k: int| 0 <= k < s.len() && k != a && k != a + 1 ==> order_pair(s, a)[k] == s[k],
        order_pair(s, a).len() == s.len(),
        order_pair(s, a).to_multiset() == s.to_multiset(),
{
    crate::array::lemma_swap_keeps_values(s, a, a + 1);
    let t = order_pair(s, a);
    assert forall|p: int, q: int|
        #![trigger t[p], t[q]]
        0 <= p < q < t.len() && q > b implies t[p] <= t[q] by {
        if p == a {
            assert(s[a] <= s[q] && s[a + 1] <= s[q]);
        } else if p == a + 1 {
            assert(s[a] <= s[q] && s[a + 1] <= s[q]);
        }
    }
}

/// In the second phase a boundary of one means the array is sorted.
proof fn lemma_bubble_last_pass(s: BubbleState)
    requires
        bubble_inv(s),
        s.boundary < s.values.len(),
        s.boundary == 1,
    ensures
        ascending(s.values),
{
    let v = s.values;
    assert forall|p: int, q: int| 0 <= p < q < v.len() implies v[p] <= v[q] by {
        if q <= 1 {
            assert(p == 0 && q == 1);
            assert(s.current == 0);
        } else {
        }
    }
}

/// A step keeps the invariant and the multiset, and on an unsorted array it
/// lowers the measure.
pub proof fn lemma_bubble_next(s: BubbleState)
    requires
        bubble_inv(s),
    ensures
        bubble_inv(bubble_next(s)),
        bubble_next(s).values.len() == s.values.len(),
        bubble_next(s).values.to_multiset() == s.values.to_multiset(),
        !ascending(s.values) ==> 0 <= bubble_measure(bubble_next(s)) < bubble_measure(s),
{
    let n = s.values.len() as int;
    let v = s.values;
    if !ascending(v) {
        assert(n >= 2) by {
            if n < 2 {
                assert(ascending(v));
            }
        }
        let t = bubble_next(s);
        if !s.started {
            lemma_order_pair(v, 0, n);
        } else if s.boundary == n {
            if s.current + 1 == n {
                lemma_order_pair(v, 0, n - 1);
                assert(triangle((n - 1) as nat) == triangle((n - 2) as nat) + (n - 2));
            } else if s.current + 1 == n - 1 {
            } else {
                lemma_order_pair(v, s.current + 1, n);
            }
        } else {
            if s.current + 1 == s.boundary {
                if s.boundary == 1 {
                    lemma_bubble_last_pass(s);
                }
                let b = s.boundary as int;
                assert(settled_above(v, b - 1)) by {
                    assert forall|p: int, q: int|
                        #![trigger v[p], v[q]]
                        0 <= p < q < n && q > b - 1 implies v[p] <= v[q] by {
                        if q == b {
                            assert(v[p] <= v[s.current + 1]);
                        }
                    }
                }
                lemma_order_pair(v, 0, b - 1);
                assert(triangle(b as nat) == triangle((b - 1) as nat) + (b - 1));
            } else {
                let c = s.current + 1;
                lemma_order_pair(v, c, s.boundary as int);
                let w = order_pair(v, c);
                assert forall|k: int| 0 <= k <= c implies #[trigger] w[k] <= w[c + 1] by {
                    if k < c {
                        assert(v[k] <= v[c]);
                    }
                }
            }
        }
    }
}

proof fn lemma_triangle_double(n: nat)
    ensures
        2 * triangle(n) == n * (n - 1),
    decreases n,
{
    if n > 0 {
        let m = (n - 1) as nat;
        lemma_triangle_double(m);
        assert(2 * triangle(n) == m * (m - 1) + 2 * m);
        assert(m * (m - 1) + 2 * m == n * (n - 1)) by (nonlinear_arith)
            requires
                m == n - 1,
        ;
    } else {
        assert(n * (n - 1) == 0) by (nonlinear_arith)
            requires
                n == 0,
        ;
    }
}

/// Once the array is ascending, steps change nothing.
pub proof fn lemma_bubble_sorted_stays(s: BubbleState, k: nat)
    requires
        ascending(s.values),
    ensures
        bubble_steps(s, k) == s,
    decreases k,
{
    if k > 0 {
        lemma_bubble_sorted_stays(bubble_next(s), (k - 1) as nat);
    }
}

/// Steps only rearrange the array: its multiset of values stays.
pub proof fn lemma_bubble_steps_keep_values(s: BubbleState, k: nat)
    requires
        bubble_inv(s),
    ensures
        bubble_inv(bubble_steps(s, k)),
        bubble_steps(s, k).values.to_multiset() == s.values.to_multiset(),
        bubble_steps(s, k).values.len() == s.values.len(),
    decreases k,
{
    if k > 0 {
        lemma_bubble_next(s);
        lemma_bubble_steps_keep_values(bubble_next(s), (k - 1) as nat);
    }
}

/// From any state of the engine, as many steps as its measure reach an
/// ascending array.
pub proof fn lemma_bubble_terminates(s: BubbleState, k: nat)
    requires
        bubble_inv(s),
        k >= bubble_measure(s),
    ensures
        ascending(bubble_steps(s, k).values),
    decreases k,
{
    if ascending(s.values) {
        lemma_bubble_sorted_stays(s, k);
    } else {
        lemma_bubble_next(s);
        lemma_bubble_terminates(bubble_next(s), (k - 1) as nat);
    }
}

/// From a fresh shuffle of `n` values, `n * n` steps sort the array.
pub proof fn lemma_bubble_fresh_terminates(values: Seq<i16>)
    requires
        values.len() <= usize::MAX,
    ensures
        bubble_inv(bubble_fresh(values)),
        ascending(bubble_steps(bubble_fresh(values), values.len() * values.len()).values),
{
    let n = values.len();
    let s = bubble_fresh(values);
    if n >= 1 {
        lemma_triangle_double((n - 1) as nat);
        assert(bubble_measure(s) <= n * n) by (nonlinear_arith)
            requires
                bubble_measure(s) == triangle((n - 1) as nat) + 2 * n - 1,
                2 * triangle((n - 1) as nat) == (n - 1) * (n - 2),
                n >= 1,
        ;
        lemma_bubble_terminates(s, n * n);
    } else {
        assert(ascending(values));
        assert(n * n == 0) by (nonlinear_arith)
            requires
                n == 0,
        ;
        lemma_bubble_sorted_stays(s, 0);
    }
}

/// Bubble sort, one comparison of neighbours per step.
pub struct BubbleEngine {
    array: ArrayModel,
    current: usize,
    compared: usize,
    boundary: usize,
    started: bool,
}

impl View for BubbleEngine {
    type V = BubbleState;

    closed spec fn view(&self) -> BubbleState {
        BubbleState {
            values: self.array@,
            current: self.current,
            compared: self.compared,
            boundary: self.boundary,
            started: self.started,
        }
    }
}

impl BubbleEngine {
    /// The invariant of the engine.
    pub open spec fn wf(&self) -> bool {
        bubble_inv(self@)
    }

    /// An engine over a shuffled arrangement of `0..size`.
    pub fn new(size: usize) -> (r: BubbleEngine)
        requires
            size <= MAX_ARRAY_SIZE,
        ensures
            r.wf(),
            r@ == bubble_fresh(r@.values),
            is_permutation_of_range(r@.values),
            r@.values.len() == size,
    {
        let mut r = BubbleEngine::with_values_of(ArrayModel::identity(size));
        r.shuffle();
        r
    }

    /// An engine over the given arrangement, not shuffled.
    pub fn with_values(values: Vec<i16>) -> (r: BubbleEngine)
        ensures
            r.wf(),
            r@ == bubble_fresh(values@),
    {
        BubbleEngine::with_values_of(ArrayModel::from_values(values))
    }

    fn with_values_of(array: ArrayModel) -> (r: BubbleEngine)
        ensures
            r.wf(),
            r@ == bubble_fresh(array@),
    {
        let boundary = array.len();
        BubbleEngine { array, current: 0, compared: 0, boundary, started: false }
    }

    /// One step: nothing once sorted; otherwise advance the cursor (onto
    /// position `0` on the first step) and compare its entry with the right
    /// neighbour, exchanging them when out of order.
    pub fn step_sort(&mut self)
        requires
            old(self).wf(),
        ensures
            final(self).wf(),
            final(self)@ == bubble_next(old(self)@),
            ascending(old(self)@.values) ==> final(self)@ == old(self)@,
            final(self)@.values.len() == old(self)@.values.len(),
            final(self)@.values.to_multiset() == old(self)@.values.to_multiset(),
    {
        proof {
            lemma_bubble_next(self@);
        }
        if self.array.is_sorted() {
            return;
        }
        proof {
            if self.boundary < self@.values.len() && self.boundary == 1 {
                lemma_bubble_last_pass(self@);
            }
            if self@.values.len() < 2 {
                assert(ascending(self@.values));
            }
        }
        if self.started {
            self.current = self.current + 1;
        } else {
            self.current = 0;
            self.started = true;
        }
        if self.boundary <= self.current {
            self.current = 0;
            self.boundary = self.boundary - 1;
        }
        if self.current == self.array.len() - 1 {
            return;
        }
        self.compared = self.current + 1;
        if self.array.get(self.current) > self.array.get(self.current + 1) {
            self.array.swap(self.current, self.current + 1);
        }
    }

    /// Puts the array in a random order and starts the first pass over.
    pub fn shuffle(&mut self)
        requires
            old(self).wf(),
        ensures
            final(self).wf(),
            final(self)@ == bubble_fresh(final(self)@.values),
            final(self)@.values.len() == old(self)@.values.len(),
            final(self)@.values.to_multiset() == old(self)@.values.to_multiset(),
    {
        self.array.shuffle();
        self.current = 0;
        self.compared = 0;
        self.boundary = self.array.len();
        self.started = false;
    }

    /// Whether the array is in ascending order.
    pub fn is_sorted(&self) -> (r: bool)
        ensures
            r == ascending(self@.values),
    {
        self.array.is_sorted()
    }

    /// A copy of the array.
    pub fn snapshot(&self) -> (r: Vec<i16>)
        ensures
            r@ == self@.values,
    {
        self.array.snapshot()
    }

    /// The position of the cursor.
    pub fn current(&self) -> (r: usize)
        ensures
            r == self@.current,
    {
        self.current
    }

    /// The exclusive upper bound of the region not yet known to be sorted.
    pub fn boundary(&self) -> (r: usize)
        ensures
            r == self@.boundary,
    {
        self.boundary
    }

    /// The positions to draw distinctly this frame.
    pub fn highlighted(&self) -> (r: Vec<usize>)
        ensures
            r@ == bubble_highlight(self@),
    {
        if self.array.is_sorted() {
            return Vec::new();
        }
        mark_pair(self.current, self.compared, self.array.len())
    }
}

} // verus!
