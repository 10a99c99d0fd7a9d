use crate::array::{ArrayModel, MAX_ARRAY_SIZE, ascending, is_permutation_of_range};
use vstd::prelude::*;

verus! {

/// Bogosort: each step checks the array and, unless it is sorted, shuffles
/// it whole.
pub struct BogoEngine {
    array: ArrayModel,
}

impl View for BogoEngine {
    type V = Seq<i16>;

    closed spec fn view(&self) -> Seq<i16> {
        self.array@
    }
}

impl BogoEngine {
    /// An engine over a shuffled arrangement of `0..size`.
    pub fn new(size: usize) -> (r: BogoEngine)
        requires
            size <= MAX_ARRAY_SIZE,
        ensures
            is_permutation_of_range(r@),
            r@.len() == size,
    {
        let mut r = BogoEngine { array: ArrayModel::identity(size) };
        r.shuffle();
        r
    }

    /// An engine over the given arrangement, not shuffled.
    pub fn with_values(values: Vec<i16>) -> (r: BogoEngine)
        ensures
            r@ == values@,
    {
        BogoEngine { array: ArrayModel::from_values(values) }
    }

    /// One step: nothing once sorted; otherwise a full shuffle.
    pub fn step_sort(&mut self)
        ensures
            ascending(old(self)@) ==> final(self)@ == old(self)@,
            final(self)@.len() == old(self)@.len(),
            final(self)@.to_multiset() == old(self)@.to_multiset(),
    {
        if !self.array.is_sorted() {
            self.shuffle();
        }
    }

    /// Puts the array in a random order.
    pub fn shuffle(&mut self)
        ensures
            final(self)@.len() == old(self)@.len(),
            final(self)@.to_multiset() == old(self)@.to_multiset(),
    {
        self.array.shuffle();
    }

    /// Whether the array is in ascending order.
    pub fn is_sorted(&self) -> (r: bool)
        ensures
            r == ascending(self@),
    {
        self.array.is_sorted()
    }

    /// A copy of the array.
    pub fn snapshot(&self) -> (r: Vec<i16>)
        ensures
            r@ == self@,
    {
        self.array.snapshot()
    }

    /// The positions to draw distinctly: none, a whole shuffle touches all.
    pub fn highlighted(&self) -> (r: Vec<usize>)
        ensures
            r@ == Seq::<usize>::empty(),
    {
        Vec::new()
    }
}

} // verus!
