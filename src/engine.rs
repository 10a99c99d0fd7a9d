use crate::array::{MAX_ARRAY_SIZE, ascending, is_permutation_of_range};
use crate::bogo::BogoEngine;
use crate::bubble::{BubbleEngine, bubble_fresh, bubble_highlight, bubble_next, lemma_bubble_next};
use crate::cocktail::{
    CocktailEngine, cocktail_fresh, cocktail_highlight, cocktail_next, lemma_cocktail_next,
};
use crate::quick::{QuickEngine, lemma_quick_next, quick_fresh, quick_highlight, quick_next};
use vstd::prelude::*;

verus! {

/// The sorting strategy an engine runs.
#[derive(Clone, Copy, Debug, PartialEq, Eq, Structural)]
pub enum Algorithm {
    Bubble,
    Cocktail,
    Quick,
    Bogo,
}

/// What an engine is built from: the number of entries, and how many ticks
/// of the host loop pass per step.
#[derive(Clone, Copy, Debug, PartialEq, Eq, Structural)]
pub struct Config {
    pub array_size: usize,
    pub speed: u32,
}

/// `b` is a rearrangement of `a`: same length, same multiset of values.
pub open spec fn keeps_values(a: Seq<i16>, b: Seq<i16>) -> bool {
    a.len() == b.len() && a.to_multiset() == b.to_multiset()
}

/// The sizes an algorithm accepts: the values `0..size` fit in `i16`, and
/// quicksort starts from one range `0..=size - 1`, so it needs an entry.
pub open spec fn size_ok(algorithm: Algorithm, size: usize) -> bool {
    size <= MAX_ARRAY_SIZE && (algorithm == Algorithm::Quick ==> size >= 1)
}

/// A configuration that an engine can be built from.
pub open spec fn config_ok(algorithm: Algorithm, config: Config) -> bool {
    size_ok(algorithm, config.array_size) && config.speed >= 1
}

/// One engine of any of the four strategies, behind one interface.
pub enum SortEngine {
    Bubble(BubbleEngine),
    Cocktail(CocktailEngine),
    Quick(QuickEngine),
    Bogo(BogoEngine),
}

impl SortEngine {
    /// The invariant of the engine inside.
    pub open spec fn wf(&self) -> bool {
        match self {
            SortEngine::Bubble(e) => e.wf(),
            SortEngine::Cocktail(e) => e.wf(),
            SortEngine::Quick(e) => e.wf(),
            SortEngine::Bogo(_) => true,
        }
    }

    /// The strategy of the engine.
    pub open spec fn algorithm_of(&self) -> Algorithm {
        match self {
            SortEngine::Bubble(_) => Algorithm::Bubble,
            SortEngine::Cocktail(_) => Algorithm::Cocktail,
            SortEngine::Quick(_) => Algorithm::Quick,
            SortEngine::Bogo(_) => Algorithm::Bogo,
        }
    }

    /// The array of the engine.
    pub open spec fn values(&self) -> Seq<i16> {
        match self {
            SortEngine::Bubble(e) => e@.values,
            SortEngine::Cocktail(e) => e@.values,
            SortEngine::Quick(e) => e@.values,
            SortEngine::Bogo(e) => e@,
        }
    }

    /// The cursor state is the initial one of its strategy.
    pub open spec fn is_fresh(&self) -> bool {
        match self {
            SortEngine::Bubble(e) => e@ == bubble_fresh(e@.values),
            SortEngine::Cocktail(e) => e@ == cocktail_fresh(e@.values),
            SortEngine::Quick(e) => e@ == quick_fresh(e@.values),
            SortEngine::Bogo(_) => true,
        }
    }

    /// `next` is what one step makes of `self`. For bogosort the new order
    /// is random: only that it rearranges an unsorted array is fixed.
    pub open spec fn steps_to(&self, next: &SortEngine) -> bool {
        match self {
            SortEngine::Bubble(e) => next matches SortEngine::Bubble(f) && f@ == bubble_next(e@),
            SortEngine::Cocktail(e) => next matches SortEngine::Cocktail(f) && f@ == cocktail_next(e@),
            SortEngine::Quick(e) => next matches SortEngine::Quick(f) && f@ == quick_next(e@),
            SortEngine::Bogo(e) => next matches SortEngine::Bogo(f) && keeps_values(e@, f@) && (
            ascending(e@) ==> f@ == e@),
        }
    }

    /// The positions to draw distinctly this frame.
    pub open spec fn highlight(&self) -> Seq<usize> {
        match self {
            SortEngine::Bubble(e) => bubble_highlight(e@),
            SortEngine::Cocktail(e) => cocktail_highlight(e@),
            SortEngine::Quick(e) => quick_highlight(e@),
            SortEngine::Bogo(_) => Seq::empty(),
        }
    }

    /// An engine of the given strategy over a shuffled arrangement of
    /// `0..size`.
    pub fn new(algorithm: Algorithm, size: usize) -> (r: SortEngine)
        requires
            size_ok(algorithm, size),
        ensures
            r.wf(),
            r.is_fresh(),
            r.algorithm_of() == algorithm,
            is_permutation_of_range(r.values()),
            r.values().len() == size,
    {
        match algorithm {
            Algorithm::Bubble => SortEngine::Bubble(BubbleEngine::new(size)),
            Algorithm::Cocktail => SortEngine::Cocktail(CocktailEngine::new(size)),
            Algorithm::Quick => SortEngine::Quick(QuickEngine::new(size)),
            Algorithm::Bogo => SortEngine::Bogo(BogoEngine::new(size)),
        }
    }

    /// An engine of the given strategy over the given arrangement, not
    /// shuffled.
    pub fn with_values(algorithm: Algorithm, values: Vec<i16>) -> (r: SortEngine)
        requires
            size_ok(algorithm, values.len()),
        ensures
            r.wf(),
            r.is_fresh(),
            r.algorithm_of() == algorithm,
            r.values() == values@,
    {
        match algorithm {
            Algorithm::Bubble => SortEngine::Bubble(BubbleEngine::with_values(values)),
            Algorithm::Cocktail => SortEngine::Cocktail(CocktailEngine::with_values(values)),
            Algorithm::Quick => SortEngine::Quick(QuickEngine::with_values(values)),
            Algorithm::Bogo => SortEngine::Bogo(BogoEngine::with_values(values)),
        }
    }

    /// The strategy of the engine.
    pub fn algorithm(&self) -> (r: Algorithm)
        ensures
            r == self.algorithm_of(),
    {
        match self {
            SortEngine::Bubble(_) => Algorithm::Bubble,
            SortEngine::Cocktail(_) => Algorithm::Cocktail,
            SortEngine::Quick(_) => Algorithm::Quick,
            SortEngine::Bogo(_) => Algorithm::Bogo,
        }
    }

    /// One bounded unit of sorting work; nothing once the array is sorted.
    pub fn step_sort(&mut self)
        requires
            old(self).wf(),
        ensures
            final(self).wf(),
            old(self).steps_to(final(self)),
            keeps_values(old(self).values(), final(self).values()),
            ascending(old(self).values()) ==> final(self).values() == old(self).values(),
    {
        match self {
            SortEngine::Bubble(e) => e.step_sort(),
            SortEngine::Cocktail(e) => e.step_sort(),
            SortEngine::Quick(e) => e.step_sort(),
            SortEngine::Bogo(e) => e.step_sort(),
        }
    }

    /// Puts the array in a random order and resets the cursor state.
    pub fn shuffle(&mut self)
        requires
            old(self).wf(),
        ensures
            final(self).wf(),
            final(self).is_fresh(),
            final(self).algorithm_of() == old(self).algorithm_of(),
            keeps_values(old(self).values(), final(self).values()),
    {
        match self {
            SortEngine::Bubble(e) => e.shuffle(),
            SortEngine::Cocktail(e) => e.shuffle(),
            SortEngine::Quick(e) => e.shuffle(),
            SortEngine::Bogo(e) => e.shuffle(),
        }
    }

    /// Whether the array is in ascending order.
    pub fn is_sorted(&self) -> (r: bool)
        ensures
            r == ascending(self.values()),
    {
        match self {
            SortEngine::Bubble(e) => e.is_sorted(),
            SortEngine::Cocktail(e) => e.is_sorted(),
            SortEngine::Quick(e) => e.is_sorted(),
            SortEngine::Bogo(e) => e.is_sorted(),
        }
    }

    /// A copy of the array.
    pub fn snapshot(&self) -> (r: Vec<i16>)
        ensures
            r@ == self.values(),
    {
        match self {
            SortEngine::Bubble(e) => e.snapshot(),
            SortEngine::Cocktail(e) => e.snapshot(),
            SortEngine::Quick(e) => e.snapshot(),
            SortEngine::Bogo(e) => e.snapshot(),
        }
    }

    /// The positions to draw distinctly this frame.
    pub fn highlighted(&self) -> (r: Vec<usize>)
        ensures
            r@ == self.highlight(),
    {
        match self {
            SortEngine::Bubble(e) => e.highlighted(),
            SortEngine::Cocktail(e) => e.highlighted(),
            SortEngine::Quick(e) => e.highlighted(),
            SortEngine::Bogo(e) => e.highlighted(),
        }
    }
}

/// `b` is what a call of `step_sort` or `shuffle` can make of `a`, as their
/// contracts state it.
pub open spec fn one_call(a: SortEngine, b: SortEngine) -> bool {
    ||| a.steps_to(&b)
    ||| b.wf() && b.is_fresh() && b.algorithm_of() == a.algorithm_of() && keeps_values(
        a.values(),
        b.values(),
    )
}

/// A step keeps the invariant and rearranges the array.
pub proof fn lemma_step_keeps_values(a: SortEngine, b: SortEngine)
    requires
        a.wf(),
        a.steps_to(&b),
    ensures
        b.wf(),
        keeps_values(a.values(), b.values()),
{
    match a {
        SortEngine::Bubble(e) => lemma_bubble_next(e@),
        SortEngine::Cocktail(e) => lemma_cocktail_next(e@),
        SortEngine::Quick(e) => lemma_quick_next(e@),
        SortEngine::Bogo(_) => {},
    }
}

/// Any run of steps and shuffles, from a valid engine, only rearranges the
/// array: every state of the run holds the values of the first.
pub proof fn lemma_run_keeps_values(run: Seq<SortEngine>)
    requires
        run.len() >= 1,
        run[0].wf(),
        forall|i: int| 0 <= i < run.len() - 1 ==> one_call(#[trigger] run[i], run[i + 1]),
    ensures
        forall|i: int|
            0 <= i < run.len() ==> #[trigger] run[i].wf() && keeps_values(
                run[0].values(),
                run[i].values(),
            ),
    decreases run.len(),
{
    if run.len() > 1 {
        let front = run.drop_last();
        assert forall|i: int| 0 <= i < front.len() - 1 implies one_call(
            #[trigger] front[i],
            front[i + 1],
        ) by {
            assert(one_call(run[i], run[i + 1]));
        }
        lemma_run_keeps_values(front);
        let k = run.len() - 2;
        assert(front[k] == run[k]);
        assert(one_call(run[k], run[k + 1]));
        if run[k].steps_to(&run[k + 1]) {
            lemma_step_keeps_values(run[k], run[k + 1]);
        }
        assert forall|i: int| 0 <= i < run.len() implies #[trigger] run[i].wf() && keeps_values(
            run[0].values(),
            run[i].values(),
        ) by {
            assert(front[0] == run[0]);
            if i < run.len() - 1 {
                assert(front[i] == run[i]);
                assert(front[i].wf());
            } else {
                assert(front[k].wf());
            }
        }
    }
}

/// Whether a step is due at tick `tick` of the host loop, for an engine that
/// steps once every `speed` ticks.
pub fn step_due(tick: u64, speed: u32) -> (r: bool)
    requires
        speed >= 1,
    ensures
        r == (tick % (speed as u64) == 0),
{
    tick % (speed as u64) == 0
}

/// An engine together with its pace: the host loop reports each tick and
/// each reset request.
pub struct Visualizer {
    engine: SortEngine,
    speed: u32,
}

impl Visualizer {
    /// The invariant: a valid engine and a pace of at least one tick.
    pub open spec fn wf(&self) -> bool {
        self.engine_of().wf() && self.speed_of() >= 1
    }

    /// The engine inside.
    pub closed spec fn engine_of(&self) -> SortEngine {
        self.engine
    }

    /// The pace, in ticks per step.
    pub closed spec fn speed_of(&self) -> u32 {
        self.speed
    }

    /// A visualizer of the given strategy over a shuffled arrangement.
    pub fn new(algorithm: Algorithm, config: Config) -> (r: Visualizer)
        requires
            config_ok(algorithm, config),
        ensures
            r.wf(),
            r.speed_of() == config.speed,
            r.engine_of().algorithm_of() == algorithm,
            r.engine_of().is_fresh(),
            is_permutation_of_range(r.engine_of().values()),
            r.engine_of().values().len() == config.array_size,
    {
        Visualizer { engine: SortEngine::new(algorithm, config.array_size), speed: config.speed }
    }

    /// Steps the engine when tick `tick` is due for a step.
    pub fn on_tick(&mut self, tick: u64)
        requires
            old(self).wf(),
        ensures
            final(self).wf(),
            final(self).speed_of() == old(self).speed_of(),
            tick % (old(self).speed_of() as u64) == 0 ==> old(self).engine_of().steps_to(
                &final(self).engine_of(),
            ),
            tick % (old(self).speed_of() as u64) != 0 ==> final(self).engine_of() == old(
                self,
            ).engine_of(),
    {
        if step_due(tick, self.speed) {
            self.engine.step_sort();
        }
    }

    /// Answers a reset request: a fresh shuffle.
    pub fn reset(&mut self)
        requires
            old(self).wf(),
        ensures
            final(self).wf(),
            final(self).speed_of() == old(self).speed_of(),
            final(self).engine_of().is_fresh(),
            final(self).engine_of().algorithm_of() == old(self).engine_of().algorithm_of(),
            keeps_values(old(self).engine_of().values(), final(self).engine_of().values()),
    {
        self.engine.shuffle();
    }

    /// The engine inside, for reading.
    pub fn engine(&self) -> (r: &SortEngine)
        ensures
            *r == self.engine_of(),
    {
        &self.engine
    }

    /// The pace, in ticks per step.
    pub fn speed(&self) -> (r: u32)
        ensures
            r == self.speed_of(),
    {
        self.speed
    }
}

} // verus!
