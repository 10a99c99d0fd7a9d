use rand::seq::SliceRandom;
use vstd::prelude::*;

verus! {

/// The largest array the engines accept: its values `0..n` must fit in `i16`.
pub const MAX_ARRAY_SIZE: usize = 32768;

/// `s` is in ascending order.
pub open spec fn ascending(s: Seq<i16>) -> bool {
    forall|i: int, j: int| 0 <= i < j < s.len() ==> s[i] <= s[j]
}

/// The identity arrangement `0, 1, ..., n - 1`.
pub open spec fn identity_seq(n: nat) -> Seq<i16> {
    Seq::new(n, |i: int| i as i16)
}

/// `s` holds exactly the values `0..s.len()`, each once, in some order.
pub open spec fn is_permutation_of_range(s: Seq<i16>) -> bool {
    &&& s.len() <= MAX_ARRAY_SIZE
    &&& s.to_multiset() == identity_seq(s.len()).to_multiset()
}

/// `s` with the entries at `i` and `j` exchanged.
pub open spec fn swapped(s: Seq<i16>, i: int, j: int) -> Seq<i16> {
    s.update(i, s[j]).update(j, s[i])
}

/// The positions to draw distinctly: those of `a` and `b` that lie below
/// `n`, each once.
pub open spec fn marks(a: int, b: int, n: int) -> Seq<usize> {
    let first = if 0 <= a < n { seq![a as usize] } else { Seq::<usize>::empty() };
    let second = if 0 <= b < n && b != a { seq![b as usize] } else { Seq::<usize>::empty() };
    first + second
}

/// The positions `a` and `b` that lie below `n`, each once.
pub fn mark_pair(a: usize, b: usize, n: usize) -> (r: Vec<usize>)
    ensures
        r@ == marks(a as int, b as int, n as int),
{
    let mut r: Vec<usize> = Vec::new();
    if a < n {
        r.push(a);
    }
    if b < n && b != a {
        r.push(b);
    }
    assert(r@ =~= marks(a as int, b as int, n as int));
    r
}

/// Relies on rand's `SliceRandom::shuffle` (Fisher-Yates on `thread_rng`):
/// it only exchanges entries, so the length and the multiset of values stay.
#[verifier::external_body]
fn shuffle_in_place(v: &mut Vec<i16>)
    ensures
        final(v)@.len() == old(v)@.len(),
        final(v)@.to_multiset() == old(v)@.to_multiset(),
{
    v.shuffle(&mut rand::thread_rng());
}

/// Relies on std's `slice::sort`: the result is the same values in
/// ascending order.
#[verifier::external_body]
fn sort_in_place(v: &mut Vec<i16>)
    ensures
        final(v)@.len() == old(v)@.len(),
        final(v)@.to_multiset() == old(v)@.to_multiset(),
        ascending(final(v)@),
{
    v.sort();
}

/// Entries at `a` and `a + 1` put in order.
pub open spec fn order_pair(s: Seq<i16>, a: int) -> Seq<i16> {
    if s[a] > s[a + 1] {
        swapped(s, a, a + 1)
    } else {
        s
    }
}

/// Exchanging two entries keeps the length and the multiset of values.
pub proof fn lemma_swap_keeps_values(s: Seq<i16>, i: int, j: int)
    requires
        0 <= i < s.len(),
        0 <= j < s.len(),
    ensures
        swapped(s, i, j).len() == s.len(),
        swapped(s, i, j).to_multiset() == s.to_multiset(),
{
    broadcast use vstd::multiset::group_multiset_axioms;
    broadcast use vstd::seq_lib::group_to_multiset_ensures;
    let t = s.update(i, s[j]);
    vstd::seq_lib::to_multiset_update(s, i, s[j]);
    vstd::seq_lib::to_multiset_update(t, j, s[i]);
    if i == j {
        assert(swapped(s, i, j) =~= s);
    } else {
        assert(t[j] == s[j]);
        assert(s.contains(s[i]));
        assert(s.contains(s[j]));
        assert(swapped(s, i, j).to_multiset() =~= s.to_multiset());
    }
}

/// The array being sorted. Its length never changes, and its only
/// mutations are exchanges of two entries and whole shuffles, both of
/// which keep the multiset of values.
pub struct ArrayModel {
    values: Vec<i16>,
}

impl View for ArrayModel {
    type V = Seq<i16>;

    closed spec fn view(&self) -> Seq<i16> {
        self.values@
    }
}

impl ArrayModel {
    /// The identity arrangement `0, 1, ..., n - 1`.
    pub fn identity(n: usize) -> (r: ArrayModel)
        requires
            n <= MAX_ARRAY_SIZE,
        ensures
            r@ == identity_seq(n as nat),
    {
        let mut values: Vec<i16> = Vec::new();
        let mut k: usize = 0;
        while k < n
            invariant
                k <= n,
                n <= MAX_ARRAY_SIZE,
                values@ =~= identity_seq(k as nat),
            decreases n - k,
        {
            values.push(k as i16);
            k = k + 1;
        }
        ArrayModel { values }
    }

    /// A model holding exactly the given values, in the given order.
    pub fn from_values(values: Vec<i16>) -> (r: ArrayModel)
        ensures
            r@ == values@,
    {
        ArrayModel { values }
    }

    /// The number of entries.
    pub fn len(&self) -> (r: usize)
        ensures
            r == self@.len(),
    {
        self.values.len()
    }

    /// The entry at `i`.
    pub fn get(&self, i: usize) -> (r: i16)
        requires
            i < self@.len(),
        ensures
            r == self@[i as int],
    {
        self.values[i]
    }

    /// A read-only copy of the current arrangement.
    pub fn snapshot(&self) -> (r: Vec<i16>)
        ensures
            r@ == self@,
    {
        let mut r: Vec<i16> = Vec::new();
        let mut k: usize = 0;
        while k < self.values.len()
            invariant
                k <= self@.len(),
                r@ =~= self@.subrange(0, k as int),
            decreases self@.len() - k,
        {
            r.push(self.values[k]);
            k = k + 1;
        }
        assert(r@ =~= self@);
        r
    }

    /// Exchanges the entries at `i` and `j`.
    pub fn swap(&mut self, i: usize, j: usize)
        requires
            i < old(self)@.len(),
            j < old(self)@.len(),
        ensures
            final(self)@ == swapped(old(self)@, i as int, j as int),
            final(self)@.len() == old(self)@.len(),
            final(self)@.to_multiset() == old(self)@.to_multiset(),
    {
        proof {
            lemma_swap_keeps_values(self@, i as int, j as int);
        }
        let a = self.values[i];
        let b = self.values[j];
        self.values.set(i, b);
        self.values.set(j, a);
    }

    /// Replaces the arrangement with a random permutation of the same values.
    pub fn shuffle(&mut self)
        ensures
            final(self)@.len() == old(self)@.len(),
            final(self)@.to_multiset() == old(self)@.to_multiset(),
    {
        shuffle_in_place(&mut self.values);
    }

    /// Whether the arrangement equals a freshly sorted copy of itself,
    /// that is, whether it is in ascending order.
    pub fn is_sorted(&self) -> (r: bool)
        ensures
            r == ascending(self@),
    {
        let mut sorted = self.snapshot();
        sort_in_place(&mut sorted);
        let n = self.values.len();
        let mut k: usize = 0;
        while k < n
            invariant
                k <= n,
                n == self@.len(),
                sorted@.len() == n,
                ascending(sorted@),
                sorted@.to_multiset() == self@.to_multiset(),
                forall|m: int| 0 <= m < k ==> self@[m] == sorted@[m],
            decreases n - k,
        {
            if self.values[k] != sorted[k] {
                proof {
                    lemma_sorted_iff_equals_sort(self@, sorted@);
                }
                return false;
            }
            k = k + 1;
        }
        assert(self@ =~= sorted@);
        true
    }
}

/// An arrangement is ascending exactly when it equals the ascending sort of
/// its own values (`sorted`: any ascending arrangement of the same values).
pub proof fn lemma_sorted_iff_equals_sort(s: Seq<i16>, sorted: Seq<i16>)
    requires
        ascending(sorted),
        sorted.to_multiset() == s.to_multiset(),
    ensures
        ascending(s) <==> s == sorted,
{
    let leq = |x: i16, y: i16| x <= y;
    if ascending(s) {
        assert(vstd::relations::sorted_by(s, leq));
        assert(vstd::relations::sorted_by(sorted, leq));
        assert(vstd::relations::total_ordering(leq));
        vstd::seq_lib::lemma_sorted_unique(s, sorted, leq);
    }
}

} // verus!
