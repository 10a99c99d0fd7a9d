use crate::array::{
    ArrayModel, MAX_ARRAY_SIZE, ascending, is_permutation_of_range, mark_pair, marks, order_pair,
};
use vstd::prelude::*;

verus! {

/// The abstract state of the cocktail shaker sort engine.
pub struct CocktailState {
    pub values: Seq<i16>,
    /// The position the cursor reached in the last step.
    pub current: usize,
    /// The neighbour it was compared with.
    pub compared: usize,
    /// The lower bookkeeping bound of the unsorted window.
    pub sorted_min: usize,
    /// The upper bookkeeping bound of the unsorted window.
    pub sorted_max: usize,
    /// The direction of the sweep: `1` upwards, `-1` downwards.
    pub direction: i32,
}

/// The state right after construction or a shuffle.
pub open spec fn cocktail_fresh(values: Seq<i16>) -> CocktailState {
    CocktailState {
        values,
        current: 0,
        compared: 0,
        sorted_min: 0,
        sorted_max: values.len() as usize,
        direction: 1,
    }
}

/// One step: nothing once sorted; otherwise move the cursor one position in
/// the sweep's direction, turn at either end, update the bookkeeping bounds,
/// and order the cursor's entry with its neighbour ahead.
pub open spec fn cocktail_next(s: CocktailState) -> CocktailState {
    if ascending(s.values) {
        s
    } else {
        let n = s.values.len();
        let c = s.current + s.direction;
        let d: i32 = if c == n - 1 || c == 0 { (-s.direction) as i32 } else { s.direction };
        let (lo, hi) = if s.sorted_max <= c {
            ((s.sorted_min - 1) as usize, s.sorted_max)
        } else if s.sorted_min >= c {
            (s.sorted_min, (s.sorted_max + 1) as usize)
        } else {
            (s.sorted_min, s.sorted_max)
        };
        let values = if d > 0 {
            order_pair(s.values, c)
        } else {
            order_pair(s.values, c - 1)
        };
        CocktailState {
            values,
            current: c as usize,
            compared: (c + d) as usize,
            sorted_min: lo,
            sorted_max: hi,
            direction: d,
        }
    }
}

/// The state after `k` steps.
pub open spec fn cocktail_steps(s: CocktailState, k: nat) -> CocktailState
    decreases k,
{
    if k == 0 {
        s
    } else {
        cocktail_steps(cocktail_next(s), (k - 1) as nat)
    }
}

/// The first `a` positions hold their final values: each is at most every
/// entry after it.
pub open spec fn low_settled(s: Seq<i16>, a: int) -> bool {
    forall|i: int, j: int| #![trigger s[i], s[j]] 0 <= i < j < s.len() && i < a ==> s[i] <= s[j]
}

/// The last `b` positions hold their final values: each is at least every
/// entry before it.
pub open spec fn high_settled(s: Seq<i16>, b: int) -> bool {
    forall|i: int, j: int|
        #![trigger s[i], s[j]]
        0 <= i < j < s.len() && j >= s.len() - b ==> s[i] <= s[j]
}

/// How far the sweeps have come. `sorted_max` grows by one at each turn at
/// the bottom, so `turns` full upward sweeps have started. During the first,
/// partial, upward sweep nothing is known; during a full upward sweep the
/// entry right of the cursor is the largest so far; during a downward sweep
/// the entry left of the cursor is the smallest from there on. Each full
/// sweep settles one more position at its end.
pub open spec fn cocktail_progress(s: CocktailState) -> bool {
    let n = s.values.len() as int;
    let v = s.values;
    let turns = s.sorted_max - n;
    let c = s.current as int;
    ||| n <= 1
    ||| s.direction == 1 && turns == 0
    ||| {
        &&& s.direction == 1
        &&& turns >= 1
        &&& low_settled(v, turns)
        &&& high_settled(v, turns - 1)
        &&& forall|i: int| 0 <= i <= c + 1 ==> #[trigger] v[i] <= v[c + 1]
        &&& c + 1 >= n - turns ==> high_settled(v, turns)
    }
    ||| {
        &&& s.direction == -1
        &&& low_settled(v, turns)
        &&& high_settled(v, turns)
        &&& forall|j: int| c - 1 <= j < n ==> v[c - 1] <= #[trigger] v[j]
        &&& c <= turns + 1 ==> low_settled(v, turns + 1)
    }
}

/// The number of steps taken since the state was fresh.
pub open spec fn cocktail_elapsed(s: CocktailState) -> int {
    let n = s.values.len() as int;
    let turns = s.sorted_max - n;
    let c = s.current as int;
    if s.direction == 1 && turns == 0 {
        c
    } else if s.direction == 1 {
        2 * turns * (n - 1) + c
    } else {
        (n - 1) + 2 * turns * (n - 1) + (n - 1 - c)
    }
}

/// The invariant of the engine: the cursor can move one position in its
/// direction, the bookkeeping bounds stay near the array's span, and the
/// sweeps have made the progress their number promises.
pub open spec fn cocktail_inv(s: CocktailState) -> bool {
    let n = s.values.len();
    &&& n <= MAX_ARRAY_SIZE
    &&& s.sorted_min == 0
    &&& n <= s.sorted_max <= n + n
    &&& s.direction == 1 || s.direction == -1
    &&& n <= 1 || (s.direction == 1 && s.current < n - 1) || (s.direction == -1 && 0 < s.current < n)
    &&& cocktail_progress(s)
}

/// The positions to draw distinctly: those of the last comparison, until the
/// array is sorted.
pub open spec fn cocktail_highlight(s: CocktailState) -> Seq<usize> {
    if ascending(s.values) {
        Seq::empty()
    } else {
        marks(s.current as int, s.compared as int, s.values.len() as int)
    }
}

/// Settled ends that meet leave the whole array ascending.
proof fn lemma_settled_sorted(v: Seq<i16>, a: int, b: int)
    requires
        low_settled(v, a),
        high_settled(v, b),
        a + b >= v.len() - 1,
    ensures
        ascending(v),
{
    assert forall|i: int, j: int| 0 <= i < j < v.len() implies v[i] <= v[j] by {
        if i >= a {
            assert(j >= v.len() - b);
        }
    }
}

/// Ordering two neighbours keeps the settled ends settled.
proof fn lemma_order_pair_settled(v: Seq<i16>, a: int, p: int, q: int)
    requires
        0 <= a,
        a + 1 < v.len(),
        low_settled(v, p),
        high_settled(v, q),
    ensures
        low_settled(order_pair(v, a), p),
        high_settled(order_pair(v, a), q),
        order_pair(v, a)[a] <= order_pair(v, a)[a + 1],
        order_pair(v, a)[a] == if v[a] > v[a + 1] { v[a + 1] } else { v[a] },
        order_pair(v, a)[a + 1] == if v[a] > v[a + 1] { v[a] } else { v[a + 1] },
        forall|k: int| 0 <= k < v.len() && k != a && k != a + 1 ==> order_pair(v, a)[k] == v[k],
        order_pair(v, a).len() == v.len(),
        order_pair(v, a).to_multiset() == v.to_multiset(),
{
    crate::array::lemma_swap_keeps_values(v, a, a + 1);
    let t = order_pair(v, a);
    let n = v.len();
    if v[a] > v[a + 1] {
        assert(a >= p) by {
            if a < p {
                assert(v[a] <= v[a + 1]);
            }
        }
        assert(a + 1 < n - q) by {
            if a + 1 >= n - q {
                assert(v[a] <= v[a + 1]);
            }
        }
        assert forall|i: int, j: int|
            #![trigger t[i], t[j]]
            0 <= i < j < n && i < p implies t[i] <= t[j] by {
            if j == a || j == a + 1 {
                assert(v[i] <= v[a] && v[i] <= v[a + 1]);
            }
        }
        assert forall|i: int, j: int|
            #![trigger t[i], t[j]]
            0 <= i < j < n && j >= n - q implies t[i] <= t[j] by {
            if i == a || i == a + 1 {
                assert(v[a] <= v[j] && v[a + 1] <= v[j]);
            }
        }
    }
}

/// A step keeps the invariant and the multiset of values, and on an
/// unsorted array it is one more step since the state was fresh, of fewer
/// than `n * n`.
pub proof fn lemma_cocktail_next(s: CocktailState)
    requires
        cocktail_inv(s),
    ensures
        cocktail_inv(cocktail_next(s)),
        cocktail_next(s).values.len() == s.values.len(),
        cocktail_next(s).values.to_multiset() == s.values.to_multiset(),
        !ascending(s.values) ==> cocktail_elapsed(cocktail_next(s)) == cocktail_elapsed(s) + 1,
        !ascending(s.values) ==> cocktail_elapsed(s) < s.values.len() * s.values.len(),
{
    let v = s.values;
    let n = v.len() as int;
    if !ascending(v) {
        assert(n >= 2) by {
            if n < 2 {
                assert(ascending(v));
            }
        }
        let turns = s.sorted_max - n;
        let cur = s.current as int;
        let c = cur + s.direction;
        let t = cocktail_next(s);
        let w = t.values;
        if s.direction == 1 {
            let first = turns == 0;
            if first {
                assert(cur < n * n) by (nonlinear_arith)
                    requires
                        cur <= n - 2,
                        n >= 2,
                ;
            }
            if !first {
                assert(turns + turns - 1 < n - 1) by {
                    if turns + turns - 1 >= n - 1 {
                        lemma_settled_sorted(v, turns, turns - 1);
                    }
                }
                assert(2 * turns * (n - 1) + cur < n * n) by (nonlinear_arith)
                    requires
                        2 * turns <= n - 1,
                        cur <= n - 2,
                        n >= 2,
                ;
            }
            if c == n - 1 {
                lemma_order_pair_settled(v, n - 2, if first { 0 } else { turns }, if first {
                    0
                } else {
                    turns
                });
                assert(w == order_pair(v, n - 2));
                assert(t.sorted_max == s.sorted_max);
                assert(t.direction == -1);
                if first {
                    assert(low_settled(w, 0));
                    assert(high_settled(w, 0));
                    if c <= 1 {
                        assert(low_settled(w, 1));
                    }
                } else {
                    if c <= turns + 1 {
                        lemma_settled_sorted(v, turns, turns);
                    }
                }
                assert forall|j: int| c - 1 <= j < n implies w[c - 1] <= #[trigger] w[j] by {}
                assert(t.current == c);
                assert(t.sorted_max - n == turns);
                assert(cocktail_elapsed(t) == (n - 1) + 2 * turns * (n - 1) + (n - 1 - c));
                if first {
                    assert(2 * turns * (n - 1) == 0) by (nonlinear_arith)
                        requires
                            turns == 0,
                    ;
                }
            } else {
                assert(t.direction == 1);
                assert(t.current == c);
                assert(t.sorted_max - n == turns);
                assert(w == order_pair(v, c));
                if !first {
                    lemma_order_pair_settled(v, c, turns, turns - 1);
                    assert forall|i: int| 0 <= i <= c + 1 implies #[trigger] w[i] <= w[c + 1] by {
                        if i < c {
                            assert(v[i] <= v[cur + 1]);
                        }
                    }
                    if c + 1 >= n - turns {
                        if c >= n - turns {
                            lemma_order_pair_settled(v, c, turns, turns);
                        } else {
                            assert forall|i: int, j: int|
                                #![trigger w[i], w[j]]
                                0 <= i < j < n && j >= n - turns implies w[i] <= w[j] by {
                                if j > c + 1 {
                                    assert(j >= n - (turns - 1));
                                }
                            }
                        }
                    }
                } else {
                    crate::array::lemma_swap_keeps_values(v, c, c + 1);
                }
            }
        } else {
            assert(turns + turns < n - 1) by {
                if turns + turns >= n - 1 {
                    lemma_settled_sorted(v, turns, turns);
                }
            }
            assert((n - 1) + 2 * turns * (n - 1) + (n - 1 - cur) < n * n) by (nonlinear_arith)
                requires
                    2 * turns <= n - 2,
                    cur >= 1,
                    n >= 2,
            ;
            if c == 0 {
                assert(t.sorted_max == s.sorted_max + 1);
                assert(t.direction == 1);
                assert(w == order_pair(v, 0));
                lemma_order_pair_settled(v, 0, turns + 1, turns);
                if c + 1 >= n - (turns + 1) {
                    lemma_settled_sorted(v, turns + 1, turns);
                }
                assert forall|i: int| 0 <= i <= c + 1 implies #[trigger] w[i] <= w[c + 1] by {}
                assert(t.current == 0);
                assert(t.sorted_max - n == turns + 1);
                assert(cocktail_elapsed(t) == 2 * (turns + 1) * (n - 1) + 0);
                assert(2 * (turns + 1) * (n - 1) == (n - 1) + 2 * turns * (n - 1) + (n - 1))
                    by (nonlinear_arith);
            } else {
                assert(t.direction == -1);
                assert(t.sorted_max == s.sorted_max);
                assert(t.current == c);
                assert(w == order_pair(v, c - 1));
                lemma_order_pair_settled(v, c - 1, turns, turns);
                assert forall|j: int| c - 1 <= j < n implies w[c - 1] <= #[trigger] w[j] by {
                    if j > c {
                        assert(v[cur - 1] <= v[j]);
                    }
                }
                if c <= turns + 1 {
                    if cur <= turns + 1 {
                        lemma_order_pair_settled(v, c - 1, turns + 1, turns);
                    } else {
                        assert forall|i: int, j: int|
                            #![trigger w[i], w[j]]
                            0 <= i < j < n && i < turns + 1 implies w[i] <= w[j] by {
                            if i == c - 1 {
                                assert(w[c - 1] <= w[j]);
                            }
                        }
                    }
                }
            }
        }
    }
}

/// Once the array is ascending, steps change nothing.
pub proof fn lemma_cocktail_sorted_stays(s: CocktailState, k: nat)
    requires
        ascending(s.values),
    ensures
        cocktail_steps(s, k) == s,
    decreases k,
{
    if k > 0 {
        lemma_cocktail_sorted_stays(cocktail_next(s), (k - 1) as nat);
    }
}

/// Steps only rearrange the array: its multiset of values stays.
pub proof fn lemma_cocktail_steps_keep_values(s: CocktailState, k: nat)
    requires
        cocktail_inv(s),
    ensures
        cocktail_inv(cocktail_steps(s, k)),
        cocktail_steps(s, k).values.to_multiset() == s.values.to_multiset(),
        cocktail_steps(s, k).values.len() == s.values.len(),
    decreases k,
{
    if k > 0 {
        lemma_cocktail_next(s);
        lemma_cocktail_steps_keep_values(cocktail_next(s), (k - 1) as nat);
    }
}

/// From any state of the engine, the steps that remain of `n * n` since it
/// was fresh reach an ascending array.
pub proof fn lemma_cocktail_terminates(s: CocktailState, k: nat)
    requires
        cocktail_inv(s),
        k >= s.values.len() * s.values.len() - cocktail_elapsed(s),
    ensures
        ascending(cocktail_steps(s, k).values),
    decreases k,
{
    if ascending(s.values) {
        lemma_cocktail_sorted_stays(s, k);
    } else {
        lemma_cocktail_next(s);
        lemma_cocktail_terminates(cocktail_next(s), (k - 1) as nat);
    }
}

/// From a fresh shuffle of `n` values, `n * n` steps sort the array.
pub proof fn lemma_cocktail_fresh_terminates(values: Seq<i16>)
    requires
        values.len() <= MAX_ARRAY_SIZE,
    ensures
        cocktail_inv(cocktail_fresh(values)),
        ascending(cocktail_steps(cocktail_fresh(values), values.len() * values.len()).values),
{
    let s = cocktail_fresh(values);
    assert(cocktail_elapsed(s) == 0);
    lemma_cocktail_terminates(s, values.len() * values.len());
}

/// Cocktail shaker sort: a bubble sort that sweeps up and down in turn, one
/// comparison of neighbours per step.
pub struct CocktailEngine {
    array: ArrayModel,
    current: usize,
    compared: usize,
    sorted_max: usize,
    sorted_min: usize,
    direction: i32,
}

impl View for CocktailEngine {
    type V = CocktailState;

    closed spec fn view(&self) -> CocktailState {
        CocktailState {
            values: self.array@,
            current: self.current,
            compared: self.compared,
            sorted_min: self.sorted_min,
            sorted_max: self.sorted_max,
            direction: self.direction,
        }
    }
}

impl CocktailEngine {
    /// The invariant of the engine.
    pub open spec fn wf(&self) -> bool {
        cocktail_inv(self@)
    }

    /// An engine over a shuffled arrangement of `0..size`.
    pub fn new(size: usize) -> (r: CocktailEngine)
        requires
            size <= MAX_ARRAY_SIZE,
        ensures
            r.wf(),
            r@ == cocktail_fresh(r@.values),
            is_permutation_of_range(r@.values),
            r@.values.len() == size,
    {
        let mut r = CocktailEngine::with_values_of(ArrayModel::identity(size));
        r.shuffle();
        r
    }

    /// An engine over the given arrangement, not shuffled.
    pub fn with_values(values: Vec<i16>) -> (r: CocktailEngine)
        requires
            values@.len() <= MAX_ARRAY_SIZE,
        ensures
            r.wf(),
            r@ == cocktail_fresh(values@),
    {
        CocktailEngine::with_values_of(ArrayModel::from_values(values))
    }

    fn with_values_of(array: ArrayModel) -> (r: CocktailEngine)
        requires
            array@.len() <= MAX_ARRAY_SIZE,
        ensures
            r.wf(),
            r@ == cocktail_fresh(array@),
    {
        let sorted_max = array.len();
        CocktailEngine { array, current: 0, compared: 0, sorted_max, sorted_min: 0, direction: 1 }
    }

    /// One step: nothing once sorted; otherwise move the cursor, turning at
    /// either end, and exchange its entry with the neighbour ahead when the
    /// two are out of order.
    pub fn step_sort(&mut self)
        requires
            old(self).wf(),
        ensures
            final(self).wf(),
            final(self)@ == cocktail_next(old(self)@),
            ascending(old(self)@.values) ==> final(self)@ == old(self)@,
            final(self)@.values.len() == old(self)@.values.len(),
            final(self)@.values.to_multiset() == old(self)@.values.to_multiset(),
    {
        proof {
            lemma_cocktail_next(self@);
        }
        if self.array.is_sorted() {
            return;
        }
        proof {
            if self@.values.len() < 2 {
                assert(ascending(self@.values));
            }
        }
        let n = self.array.len();
        if self.direction > 0 {
            self.current = self.current + 1;
        } else {
            self.current = self.current - 1;
        }
        if self.current == n - 1 || self.current == 0 {
            self.direction = -self.direction;
        }
        if self.sorted_max <= self.current {
            self.sorted_min = self.sorted_min - 1;
        } else if self.sorted_min >= self.current {
            self.sorted_max = self.sorted_max + 1;
        }
        if self.direction > 0 {
            self.compared = self.current + 1;
            if self.array.get(self.current) > self.array.get(self.current + 1) {
                self.array.swap(self.current, self.current + 1);
            }
        } else {
            self.compared = self.current - 1;
            if self.array.get(self.current) < self.array.get(self.current - 1) {
                self.array.swap(self.current, self.current - 1);
            }
        }
        proof {
            let o = old(self)@;
            let c = o.current + o.direction;
            let d = cocktail_next(o).direction;
            if d <= 0 {
                assert(crate::array::swapped(o.values, c, c - 1) =~= crate::array::swapped(
                    o.values,
                    c - 1,
                    c,
                ));
            }
        }
    }

    /// Puts the array in a random order and starts the first upward sweep
    /// over.
    pub fn shuffle(&mut self)
        requires
            old(self).wf(),
        ensures
            final(self).wf(),
            final(self)@ == cocktail_fresh(final(self)@.values),
            final(self)@.values.len() == old(self)@.values.len(),
            final(self)@.values.to_multiset() == old(self)@.values.to_multiset(),
    {
        self.array.shuffle();
        self.current = 0;
        self.compared = 0;
        self.sorted_min = 0;
        self.sorted_max = self.array.len();
        self.direction = 1;
    }

    /// Whether the array is in ascending order.
    pub fn is_sorted(&self) -> (r: bool)
        ensures
            r == ascending(self@.values),
    {
        self.array.is_sorted()
    }

    /// A copy of the array.
    pub fn snapshot(&self) -> (r: Vec<i16>)
        ensures
            r@ == self@.values,
    {
        self.array.snapshot()
    }

    /// The position of the cursor.
    pub fn current(&self) -> (r: usize)
        ensures
            r == self@.current,
    {
        self.current
    }

    /// The direction of the sweep: `1` upwards, `-1` downwards.
    pub fn direction(&self) -> (r: i32)
        ensures
            r == self@.direction,
    {
        self.direction
    }

    /// The positions to draw distinctly this frame.
    pub fn highlighted(&self) -> (r: Vec<usize>)
        ensures
            r@ == cocktail_highlight(self@),
    {
        if self.array.is_sorted() {
            return Vec::new();
        }
        mark_pair(self.current, self.compared, self.array.len())
    }
}

} // verus!
