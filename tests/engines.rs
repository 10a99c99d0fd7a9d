use sort_stepper::array::ArrayModel;
use sort_stepper::bogo::BogoEngine;
use sort_stepper::bubble::BubbleEngine;
use sort_stepper::cocktail::CocktailEngine;
use sort_stepper::engine::{step_due, Algorithm, Config, SortEngine, Visualizer};
use sort_stepper::quick::QuickEngine;

fn sorted_copy(v: &[i16]) -> Vec<i16> {
    let mut s = v.to_vec();
    s.sort();
    s
}

fn identity(n: usize) -> Vec<i16> {
    (0..n).map(|k| k as i16).collect()
}

#[test]
fn bubble_scenario_five_entries() {
    let mut e = BubbleEngine::with_values(vec![3, 1, 4, 0, 2]);
    assert_eq!(e.current(), 0);
    assert_eq!(e.boundary(), 5);
    e.step_sort();
    assert_eq!(e.snapshot(), vec![1, 3, 4, 0, 2]);
    assert_eq!(e.highlighted(), vec![0, 1]);
    e.step_sort();
    assert_eq!(e.snapshot(), vec![1, 3, 4, 0, 2]);
    assert_eq!(e.highlighted(), vec![1, 2]);
    e.step_sort();
    assert_eq!(e.snapshot(), vec![1, 3, 0, 4, 2]);
    assert_eq!(e.highlighted(), vec![2, 3]);
    e.step_sort();
    assert_eq!(e.snapshot(), vec![1, 3, 0, 2, 4]);
    assert_eq!(e.highlighted(), vec![3, 4]);
    // the cursor reaches the last position: no comparison
    e.step_sort();
    assert_eq!(e.snapshot(), vec![1, 3, 0, 2, 4]);
    assert_eq!(e.current(), 4);
    assert_eq!(e.boundary(), 5);
    // the pass is complete: the boundary shrinks and the cursor restarts
    e.step_sort();
    assert_eq!(e.current(), 0);
    assert_eq!(e.boundary(), 4);
    assert_eq!(e.snapshot(), vec![1, 3, 0, 2, 4]);
    e.step_sort();
    assert_eq!(e.snapshot(), vec![1, 0, 3, 2, 4]);
    e.step_sort();
    assert_eq!(e.snapshot(), vec![1, 0, 2, 3, 4]);
    e.step_sort();
    assert_eq!(e.snapshot(), vec![1, 0, 2, 3, 4]);
    e.step_sort();
    assert_eq!(e.current(), 0);
    assert_eq!(e.boundary(), 3);
    assert_eq!(e.snapshot(), vec![0, 1, 2, 3, 4]);
    assert!(e.is_sorted());
    assert_eq!(e.highlighted(), Vec::<usize>::new());
}

#[test]
fn quick_scenario_four_entries() {
    let mut e = QuickEngine::with_values(vec![3, 1, 2, 0]);
    assert_eq!(e.pending_ranges(), vec![(0, 3)]);
    assert_eq!(e.highlighted(), vec![0, 3]);
    e.step_sort();
    assert_eq!(e.snapshot(), vec![0, 1, 2, 3]);
    // the pivot landed on the low end: only the right side is pushed
    assert_eq!(e.pending_ranges(), vec![(1, 3)]);
    assert!(e.is_sorted());
    // the ends of the top range stay marked while it is pending
    assert_eq!(e.highlighted(), vec![1, 3]);
    // sorted: the remaining range is left on the stack
    e.step_sort();
    assert_eq!(e.snapshot(), vec![0, 1, 2, 3]);
    assert_eq!(e.pending_ranges(), vec![(1, 3)]);
}

#[test]
fn quick_partition_pushes_both_sides() {
    let mut e = QuickEngine::with_values(vec![2, 0, 3, 1]);
    e.step_sort();
    assert_eq!(e.snapshot(), vec![0, 1, 3, 2]);
    assert_eq!(e.pending_ranges(), vec![(0, 0), (2, 3)]);
    assert_eq!(e.highlighted(), vec![2, 3]);
    e.step_sort();
    assert_eq!(e.snapshot(), vec![0, 1, 2, 3]);
    assert_eq!(e.pending_ranges(), vec![(0, 0), (3, 3)]);
}

#[test]
fn quick_trivial_range_is_dropped_without_partition() {
    let mut e = QuickEngine::with_values(vec![1, 0, 2]);
    e.step_sort();
    // pivot 2 is the largest: it stays, the left side is pushed, then the
    // empty right side
    assert_eq!(e.snapshot(), vec![1, 0, 2]);
    assert_eq!(e.pending_ranges(), vec![(0, 1), (3, 2)]);
    // the top range starts past the end: only its upper end is drawn
    assert_eq!(e.highlighted(), vec![2]);
    e.step_sort();
    assert_eq!(e.snapshot(), vec![1, 0, 2]);
    assert_eq!(e.pending_ranges(), vec![(0, 1)]);
    e.step_sort();
    assert_eq!(e.snapshot(), vec![0, 1, 2]);
    assert!(e.is_sorted());
}

#[test]
fn cocktail_scenario_three_entries() {
    let mut e = CocktailEngine::with_values(vec![2, 1, 0]);
    e.step_sort();
    assert_eq!(e.snapshot(), vec![2, 0, 1]);
    assert_eq!(e.current(), 1);
    assert_eq!(e.direction(), 1);
    e.step_sort();
    // the cursor reached the top end and turned
    assert_eq!(e.current(), 2);
    assert_eq!(e.direction(), -1);
    assert_eq!(e.snapshot(), vec![2, 0, 1]);
    assert_eq!(e.highlighted(), vec![2, 1]);
    e.step_sort();
    assert_eq!(e.snapshot(), vec![0, 2, 1]);
    e.step_sort();
    assert_eq!(e.current(), 0);
    assert_eq!(e.direction(), 1);
    assert_eq!(e.snapshot(), vec![0, 2, 1]);
    e.step_sort();
    assert_eq!(e.snapshot(), vec![0, 1, 2]);
    assert!(e.is_sorted());
}

#[test]
fn every_engine_keeps_its_values() {
    for algorithm in [Algorithm::Bubble, Algorithm::Cocktail, Algorithm::Quick, Algorithm::Bogo] {
        let mut e = SortEngine::new(algorithm, 12);
        assert_eq!(sorted_copy(&e.snapshot()), identity(12));
        for k in 0..200 {
            if k % 37 == 0 {
                e.shuffle();
            } else {
                e.step_sort();
            }
            assert_eq!(sorted_copy(&e.snapshot()), identity(12));
        }
    }
}

#[test]
fn bubble_sorts_within_n_squared_steps() {
    for _ in 0..20 {
        let n = 16;
        let mut e = BubbleEngine::new(n);
        for _ in 0..n * n {
            e.step_sort();
        }
        assert!(e.is_sorted());
        assert_eq!(e.snapshot(), identity(n));
    }
}

#[test]
fn cocktail_sorts_within_n_squared_steps() {
    for _ in 0..20 {
        let n = 16;
        let mut e = CocktailEngine::new(n);
        for _ in 0..n * n {
            e.step_sort();
        }
        assert!(e.is_sorted());
        assert_eq!(e.snapshot(), identity(n));
    }
}

#[test]
fn quick_sorts_within_two_n_plus_one_steps() {
    for _ in 0..20 {
        let n = 40;
        let mut e = QuickEngine::new(n);
        for _ in 0..2 * n + 1 {
            e.step_sort();
        }
        assert!(e.is_sorted());
        assert_eq!(e.snapshot(), identity(n));
    }
}

#[test]
fn reversed_input_sorts_for_every_stepped_engine() {
    let reversed: Vec<i16> = (0..10).rev().collect();
    for algorithm in [Algorithm::Bubble, Algorithm::Cocktail, Algorithm::Quick] {
        let mut e = SortEngine::with_values(algorithm, reversed.clone());
        for _ in 0..100 {
            e.step_sort();
        }
        assert!(e.is_sorted());
        assert_eq!(e.snapshot(), identity(10));
    }
}

#[test]
fn sortedness_matches_a_sorted_copy() {
    let cases: Vec<Vec<i16>> = vec![
        vec![],
        vec![5],
        vec![0, 1, 2],
        vec![2, 1],
        vec![1, 1, 2],
        vec![0, 2, 1, 3],
        vec![-3, -1, 7],
    ];
    for v in cases {
        let m = ArrayModel::from_values(v.clone());
        assert_eq!(m.is_sorted(), v == sorted_copy(&v));
    }
    assert!(!ArrayModel::from_values(vec![2, 1]).is_sorted());
    assert!(ArrayModel::from_values(vec![1, 2]).is_sorted());
}

#[test]
fn sorted_engines_do_not_move() {
    for algorithm in [Algorithm::Bubble, Algorithm::Cocktail, Algorithm::Quick, Algorithm::Bogo] {
        let mut e = SortEngine::with_values(algorithm, identity(8));
        for _ in 0..50 {
            e.step_sort();
            assert_eq!(e.snapshot(), identity(8));
        }
        let expected: Vec<usize> = if algorithm == Algorithm::Quick {
            // the whole range stays pending: its ends are marked
            vec![0, 7]
        } else {
            Vec::new()
        };
        assert_eq!(e.highlighted(), expected);
    }
}

#[test]
fn shuffle_resets_the_cursor_state() {
    let mut q = QuickEngine::with_values(vec![2, 0, 3, 1]);
    q.step_sort();
    q.shuffle();
    assert_eq!(q.pending_ranges(), vec![(0, 3)]);
    assert_eq!(sorted_copy(&q.snapshot()), identity(4));

    let mut b = BubbleEngine::with_values(vec![3, 1, 4, 0, 2]);
    for _ in 0..6 {
        b.step_sort();
    }
    b.shuffle();
    assert_eq!(b.current(), 0);
    assert_eq!(b.boundary(), 5);

    let mut c = CocktailEngine::with_values(vec![2, 1, 0]);
    c.step_sort();
    c.step_sort();
    c.shuffle();
    assert_eq!(c.current(), 0);
    assert_eq!(c.direction(), 1);
}

#[test]
fn shuffle_rearranges_the_array() {
    let mut m = ArrayModel::identity(60);
    let mut moved = false;
    for _ in 0..5 {
        m.shuffle();
        assert_eq!(sorted_copy(&m.snapshot()), identity(60));
        if m.snapshot() != identity(60) {
            moved = true;
        }
    }
    assert!(moved);
}

#[test]
fn bogo_shuffles_until_sorted() {
    let mut e = BogoEngine::with_values(vec![1, 0]);
    let mut steps = 0;
    while !e.is_sorted() && steps < 1000 {
        e.step_sort();
        steps += 1;
    }
    assert!(e.is_sorted());
    assert_eq!(e.snapshot(), vec![0, 1]);
    assert_eq!(e.highlighted(), Vec::<usize>::new());
}

#[test]
fn tiny_arrays_are_sorted_from_the_start() {
    for n in [0usize, 1] {
        for algorithm in [Algorithm::Bubble, Algorithm::Cocktail, Algorithm::Bogo] {
            let mut e = SortEngine::new(algorithm, n);
            assert!(e.is_sorted());
            e.step_sort();
            e.shuffle();
            e.step_sort();
            assert_eq!(e.snapshot(), identity(n));
        }
    }
    let mut q = SortEngine::new(Algorithm::Quick, 1);
    q.step_sort();
    assert_eq!(q.snapshot(), vec![0]);
}

#[test]
fn two_entries_sort_in_one_comparison() {
    let mut b = BubbleEngine::with_values(vec![1, 0]);
    // the first step compares positions zero and one
    b.step_sort();
    assert_eq!(b.snapshot(), vec![0, 1]);
    assert_eq!(b.current(), 0);
    assert_eq!(b.boundary(), 2);
    assert!(b.is_sorted());

    let mut c = CocktailEngine::with_values(vec![1, 0]);
    c.step_sort();
    assert_eq!(c.snapshot(), vec![0, 1]);
    assert_eq!(c.direction(), -1);
}

#[test]
fn largest_size_builds() {
    let e = SortEngine::new(Algorithm::Quick, 32768);
    let s = e.snapshot();
    assert_eq!(s.len(), 32768);
    assert_eq!(sorted_copy(&s), identity(32768));
}

#[test]
fn highlight_marks_the_last_comparison() {
    let mut b = BubbleEngine::with_values(vec![0, 2, 1]);
    assert_eq!(b.highlighted(), vec![0]);
    b.step_sort();
    assert_eq!(b.highlighted(), vec![0, 1]);
    assert_eq!(b.snapshot(), vec![0, 2, 1]);
    b.step_sort();
    assert_eq!(b.highlighted(), Vec::<usize>::new());
    assert_eq!(b.snapshot(), vec![0, 1, 2]);
}

#[test]
fn steps_follow_the_pace() {
    assert!(step_due(0, 3));
    assert!(!step_due(1, 3));
    assert!(!step_due(2, 3));
    assert!(step_due(3, 3));
    assert!(step_due(7, 1));

    let config = Config { array_size: 6, speed: 2 };
    let mut v = Visualizer::new(Algorithm::Bubble, config);
    assert_eq!(v.speed(), 2);
    assert_eq!(v.engine().algorithm(), Algorithm::Bubble);
    let before = v.engine().snapshot();
    v.on_tick(1);
    assert_eq!(v.engine().snapshot(), before);
    v.reset();
    assert_eq!(sorted_copy(&v.engine().snapshot()), identity(6));
    for t in 0..200 {
        v.on_tick(t);
    }
    assert!(v.engine().is_sorted());
}
