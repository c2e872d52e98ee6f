use std::cell::Cell;
use std::collections::HashSet;

use layouts_rs::layout::{Finger, FingerKind, Hand, KeySlot, Layout, Pos};
use layouts_rs::optimizer::hill_climb::{climb, hill_climb};
use layouts_rs::optimizer::simulated_annealing::{anneal, anneal_step, descend, AnnealState};
use layouts_rs::optimizer::{LayoutScores, OptimizableLayout, RunOptions};
use rand::rngs::StdRng;
use rand::SeedableRng;
use layouts_rs::swaps::{SwapMoveBuilder, SwapMoveStrategy};

const STRATEGIES: &[(SwapMoveStrategy, usize); 3] = &[
    (SwapMoveStrategy::Single, 20),
    (SwapMoveStrategy::Column, 1),
    (SwapMoveStrategy::Row, 1),
];

fn seeded_rng(seed: u64) -> StdRng {
    StdRng::seed_from_u64(seed)
}

fn pos(r: usize, c: usize) -> Pos {
    Pos { r, c }
}

fn slot(r: usize, c: usize, kind: FingerKind, home: bool, effort: u32) -> KeySlot {
    KeySlot {
        position: pos(r, c),
        finger: Finger { hand: Hand::Left, kind },
        finger_home: home,
        x: (c as i32) * 1000,
        y: (r as i32) * 1000,
        effort,
    }
}

/// "ab\ncd" on two fingers, with efforts 1, 50, 100 and 200 (in thousandths).
fn make_layout() -> Layout {
    layout_with_efforts([1000, 50_000, 100_000, 200_000])
}

fn layout_with_efforts(efforts: [u32; 4]) -> Layout {
    let slots = vec![
        slot(0, 0, FingerKind::Pinky, true, efforts[0]),
        slot(0, 1, FingerKind::Ring, true, efforts[1]),
        slot(1, 0, FingerKind::Pinky, false, efforts[2]),
        slot(1, 1, FingerKind::Ring, false, efforts[3]),
    ];
    let text: Vec<char> = "ab\ncd".chars().collect();
    Layout::new(&text, &slots).unwrap()
}

fn chars(layout: &Layout) -> Vec<char> {
    layout.keys().iter().map(|k| k.ch).collect()
}

fn layout_effort_score(layout: &Layout) -> i64 {
    layout.keys().iter().map(|k| k.effort as i64).sum()
}

fn effort_of_c_below(bound: u64) -> impl Fn(&Layout) -> Option<u64> {
    move |layout: &Layout| {
        let score = layout.key_for('c').unwrap().effort as u64;
        if score < bound {
            Some(score)
        } else {
            None
        }
    }
}

fn effort_of_d_below(bound: u64) -> impl Fn(&Layout) -> Option<u64> {
    move |layout: &Layout| {
        let score = layout.key_for('d').unwrap().effort as u64;
        if score < bound {
            Some(score)
        } else {
            None
        }
    }
}

#[test]
fn it_computes_score_when_layout_is_not_cached() {
    let layout = make_layout();
    let calls = Cell::new(0);
    let mut scores = LayoutScores::new();

    let score = scores.get_or_compute(&layout, |_| {
        calls.set(calls.get() + 1);
        42u64
    });

    assert_eq!(score, 42);
    assert_eq!(calls.get(), 1);
}

#[test]
fn it_reuses_cached_score_for_same_layout() {
    let layout = make_layout();
    let calls = Cell::new(0);
    let mut scores = LayoutScores::new();

    let first = scores.get_or_compute(&layout, |_| {
        calls.set(calls.get() + 1);
        42u64
    });
    let second = scores.get_or_compute(&layout, |_| {
        calls.set(calls.get() + 1);
        13u64
    });

    assert_eq!(first, 42);
    assert_eq!(second, 42);
    assert_eq!(calls.get(), 1);
}

#[test]
fn it_computes_separate_scores_for_different_layouts() {
    let layout = make_layout();
    let mut swapped = layout.clone();
    swapped.swap_chars(&pos(0, 0), &pos(1, 1));
    let calls = Cell::new(0);
    let mut scores = LayoutScores::new();

    let first = scores.get_or_compute(&layout, |_| {
        calls.set(calls.get() + 1);
        42u64
    });
    let second = scores.get_or_compute(&swapped, |_| {
        calls.set(calls.get() + 1);
        13u64
    });

    assert_eq!(first, 42);
    assert_eq!(second, 13);
    assert_eq!(calls.get(), 2);
}

#[test]
fn it_does_not_improve_layout_when_no_swap_gives_better_score() {
    let mut optimizable = OptimizableLayout::new(make_layout(), &[], None, SwapMoveBuilder::full());
    let result = optimizable.try_improve(&HashSet::new(), |layout: &Layout| {
        let score = layout_effort_score(layout);
        if score < 0 {
            Some(score as u64)
        } else {
            None
        }
    });

    assert_eq!(result, None);
}

#[test]
fn it_does_not_improve_layout_if_no_swaps_available() {
    let mut optimizable =
        OptimizableLayout::new(make_layout(), &[], None, SwapMoveBuilder::default());
    let result = optimizable.try_improve(&HashSet::new(), effort_of_c_below(100_000));

    assert_eq!(result, None);
}

#[test]
fn it_improves_layout_by_applying_the_best_swap() {
    let mut optimizable = OptimizableLayout::new(make_layout(), &[], None, SwapMoveBuilder::full());
    let score = optimizable.try_improve(&HashSet::new(), effort_of_c_below(100_000)).unwrap();

    assert_eq!(score, 1000);
    assert_eq!(optimizable.layout().key_for('c').unwrap().effort, 1000);
}

#[test]
fn it_improves_layout_without_moving_pinned_chars() {
    let mut optimizable =
        OptimizableLayout::new(make_layout(), &['a', 'c'], None, SwapMoveBuilder::full());

    while optimizable.try_improve(&HashSet::new(), effort_of_d_below(200_000)).is_some() {}

    assert_eq!(optimizable.layout().key_for('a').unwrap().position, pos(0, 0));
    assert_eq!(optimizable.layout().key_for('c').unwrap().position, pos(1, 0));
    assert_eq!(optimizable.layout().key_for('d').unwrap().position, pos(0, 1));
}

#[test]
fn it_does_not_improve_layout_when_only_one_char_is_unpinned() {
    let mut optimizable =
        OptimizableLayout::new(make_layout(), &['a', 'b', 'c'], None, SwapMoveBuilder::full());
    let result = optimizable.try_improve(&HashSet::new(), effort_of_d_below(200_000));

    assert_eq!(result, None);
}

#[test]
fn it_does_not_improve_layout_when_swap_exceeds_max_swapped() {
    let mut optimizable =
        OptimizableLayout::new(make_layout(), &[], Some(0), SwapMoveBuilder::full());
    let result = optimizable.try_improve(&HashSet::new(), effort_of_c_below(100_000));

    assert_eq!(result, None);
}

#[test]
fn it_improves_layout_when_swap_is_within_max_swapped() {
    let mut optimizable =
        OptimizableLayout::new(make_layout(), &[], Some(2), SwapMoveBuilder::full());
    let score = optimizable.try_improve(&HashSet::new(), effort_of_c_below(100_000)).unwrap();

    assert_eq!(score, 1000);
    assert_eq!(optimizable.layout().key_for('c').unwrap().effort, 1000);
}

#[test]
fn it_does_not_improve_layout_after_convergence() {
    let mut optimizable = OptimizableLayout::new(make_layout(), &[], None, SwapMoveBuilder::full());

    let first = optimizable.try_improve(&HashSet::new(), effort_of_c_below(100_000));
    assert_eq!(first, Some(1000));

    let second = optimizable.try_improve(&HashSet::new(), effort_of_c_below(1000));
    assert_eq!(second, None);
}

#[test]
fn it_does_not_improve_layout_if_tabu_list_contains_layout() {
    let mut optimizable = OptimizableLayout::new(make_layout(), &[], None, SwapMoveBuilder::full());

    optimizable.try_improve(&HashSet::new(), effort_of_c_below(100_000));

    let tabu_list: HashSet<u64> = [optimizable.layout().hash()].into_iter().collect();

    let mut optimizable = OptimizableLayout::new(make_layout(), &[], None, SwapMoveBuilder::full());

    let second = optimizable.try_improve(&tabu_list, effort_of_c_below(1000));
    assert_eq!(second, None);
}

#[test]
fn it_perturbs_layout() {
    let mut optimizable = OptimizableLayout::new(make_layout(), &[], None, SwapMoveBuilder::full());
    let before = chars(optimizable.layout());

    optimizable.perturb(&mut seeded_rng(42), 10, STRATEGIES);

    let after = chars(optimizable.layout());
    assert_ne!(before, after);
}

#[test]
fn it_does_not_perturb_layout_when_all_chars_are_pinned() {
    let mut optimizable =
        OptimizableLayout::new(make_layout(), &['a', 'b', 'c', 'd'], None, SwapMoveBuilder::full());
    let before = chars(optimizable.layout());

    optimizable.perturb(&mut seeded_rng(42), 10, STRATEGIES);

    let after = chars(optimizable.layout());
    assert_eq!(before, after);
}

#[test]
fn it_does_not_perturb_layout_beyond_max_swapped() {
    let mut optimizable =
        OptimizableLayout::new(make_layout(), &[], Some(0), SwapMoveBuilder::full());

    optimizable.perturb(&mut seeded_rng(42), 10, STRATEGIES);

    assert_eq!(optimizable.diff(), 0);
}

#[test]
fn it_perturbs_layout_within_max_swapped() {
    let mut optimizable =
        OptimizableLayout::new(make_layout(), &[], Some(4), SwapMoveBuilder::full());

    optimizable.perturb(&mut seeded_rng(42), 100, STRATEGIES);

    assert!(optimizable.diff() > 0);
    assert!(optimizable.diff() <= 4);
}

#[test]
fn it_shuffles_layout() {
    let mut optimizable = OptimizableLayout::new(make_layout(), &[], None, SwapMoveBuilder::full());
    let before = chars(optimizable.layout());

    optimizable.shuffle(&mut seeded_rng(42));

    let after = chars(optimizable.layout());
    assert_ne!(before, after);
}

#[test]
fn it_does_not_shuffle_layout_when_all_chars_are_pinned() {
    let mut optimizable =
        OptimizableLayout::new(make_layout(), &['a', 'b', 'c', 'd'], None, SwapMoveBuilder::full());
    let before = chars(optimizable.layout());

    optimizable.shuffle(&mut seeded_rng(42));

    let after = chars(optimizable.layout());
    assert_eq!(before, after);
}

#[test]
fn it_does_not_shuffle_layout_beyond_max_swapped() {
    let mut optimizable =
        OptimizableLayout::new(make_layout(), &[], Some(0), SwapMoveBuilder::full());

    optimizable.shuffle(&mut seeded_rng(42));

    assert_eq!(optimizable.diff(), 0);
}

#[test]
fn it_shuffles_layout_within_max_swapped() {
    let mut optimizable =
        OptimizableLayout::new(make_layout(), &[], Some(4), SwapMoveBuilder::full());

    optimizable.shuffle(&mut seeded_rng(42));

    assert!(optimizable.diff() > 0);
    assert!(optimizable.diff() <= 4);
}

#[test]
fn hill_climb_it_optimizes() {
    let layout = layout_with_efforts([1000, 100_000, 100_000, 100_000]);

    let optimized_layout = hill_climb(
        &layout,
        &RunOptions { iterations: 10, seed: 42, pinned: vec![], max_swapped: None, shuffle: false },
        &|layout: &Layout| layout.key_for('c').unwrap().effort as u64,
    );

    assert_eq!(optimized_layout.key_for('c').unwrap().effort, 1000);
}

#[test]
fn hill_climb_keeps_pinned_chars_in_place() {
    let layout = make_layout();

    let optimized_layout = hill_climb(
        &layout,
        &RunOptions { iterations: 5, seed: 7, pinned: vec!['a'], max_swapped: None, shuffle: true },
        &|layout: &Layout| layout.key_for('c').unwrap().effort as u64,
    );

    assert_eq!(optimized_layout.key_for('a').unwrap().position, pos(0, 0));
    assert_eq!(optimized_layout.key_for('c').unwrap().effort, 50_000);
}

#[test]
fn hill_climb_without_iterations_or_shuffle_returns_the_start() {
    let layout = make_layout();

    let optimized_layout = hill_climb(
        &layout,
        &RunOptions { iterations: 0, seed: 1, pinned: vec![], max_swapped: None, shuffle: false },
        &|layout: &Layout| layout.key_for('c').unwrap().effort as u64,
    );

    assert_eq!(chars(&optimized_layout), vec!['a', 'b', 'c', 'd']);
}

#[test]
fn descend_takes_improving_moves_until_none_is_left() {
    let mut optimizable = OptimizableLayout::new(make_layout(), &[], None, SwapMoveBuilder::full());
    let score = |layout: &Layout| layout.key_for('c').unwrap().effort as u64;

    let best = descend(&mut optimizable, 100_000, &score);

    assert_eq!(best, 1000);
    assert_eq!(optimizable.layout().key_for('c').unwrap().effort, 1000);
}

#[test]
fn descend_keeps_layout_when_nothing_is_better() {
    let mut optimizable = OptimizableLayout::new(make_layout(), &[], None, SwapMoveBuilder::full());
    let score = |layout: &Layout| layout.key_for('c').unwrap().effort as u64;

    let best = descend(&mut optimizable, 1000, &score);

    assert_eq!(best, 1000);
    assert_eq!(chars(optimizable.layout()), vec!['a', 'b', 'c', 'd']);
}

#[test]
fn perturb_counts_no_more_moves_than_there_are() {
    let mut optimizable =
        OptimizableLayout::new(make_layout(), &['a', 'b'], None, SwapMoveBuilder::full());

    optimizable.perturb(&mut seeded_rng(3), 1, &[(SwapMoveStrategy::Single, 1)]);
    // The only single move swaps 'c' and 'd'.
    assert_eq!(chars(optimizable.layout()), vec!['a', 'b', 'd', 'c']);

    // Two moves exist (the single swap and a column exchange of the same keys),
    // so of ten asked for, two single swaps are counted, and they cancel out.
    optimizable.perturb(&mut seeded_rng(3), 10, &[(SwapMoveStrategy::Single, 1)]);
    assert_eq!(chars(optimizable.layout()), vec!['a', 'b', 'd', 'c']);
}

#[test]
fn simulated_annealing_it_optimizes() {
    let layout = layout_with_efforts([1000, 100_000, 100_000, 100_000]);
    let score = |layout: &Layout| layout.key_for('c').unwrap().effort as u64;
    let accept_worse = |temp: f64, candidate: u64, current: u64, random: u64| {
        let delta = (candidate - current) as f64 / 1000.0;
        let prob = (-delta / temp).exp();
        (random as f64 / u64::MAX as f64) < prob
    };
    let cool = |temp: f64| temp * 0.95;

    let optimized_layout = anneal(
        &layout,
        &RunOptions { iterations: 1000, seed: 42, pinned: vec![], max_swapped: None, shuffle: true },
        100,
        100.0,
        &score,
        &accept_worse,
        &cool,
    );

    assert_eq!(optimized_layout.key_for('c').unwrap().effort, 1000);
}

#[test]
fn annealing_keeps_pinned_chars_in_place() {
    let layout = make_layout();
    let score = |layout: &Layout| layout.key_for('d').unwrap().effort as u64;
    let accept_worse = |_: f64, _: u64, _: u64, random: u64| random % 2 == 0;
    let cool = |temp: f64| temp;

    let optimized_layout = anneal(
        &layout,
        &RunOptions { iterations: 50, seed: 9, pinned: vec!['a', 'b'], max_swapped: None, shuffle: true },
        10,
        1.0,
        &score,
        &accept_worse,
        &cool,
    );

    assert_eq!(optimized_layout.key_for('a').unwrap().position, pos(0, 0));
    assert_eq!(optimized_layout.key_for('b').unwrap().position, pos(0, 1));
    assert_eq!(optimized_layout.key_for('d').unwrap().effort, 100_000);
}

#[test]
fn try_improve_takes_the_first_of_equally_good_moves() {
    let layout = layout_with_efforts([1000, 1000, 100_000, 200_000]);
    let mut optimizable = OptimizableLayout::new(layout, &[], None, SwapMoveBuilder::full());

    let score = optimizable.try_improve(&HashSet::new(), effort_of_c_below(100_000));

    // Swapping 'c' with 'a' and with 'b' both score 1000; the swap with 'a'
    // comes first among the moves.
    assert_eq!(score, Some(1000));
    assert_eq!(optimizable.layout().key_for('c').unwrap().position, pos(0, 0));
    assert_eq!(optimizable.layout().key_for('a').unwrap().position, pos(1, 0));
}

#[test]
fn place_puts_each_character_on_its_position() {
    let mut optimizable = OptimizableLayout::new(make_layout(), &[], None, SwapMoveBuilder::full());

    optimizable.place(&[pos(0, 0), pos(0, 1), pos(1, 1)], &['b', 'd', 'a']);

    assert_eq!(chars(optimizable.layout()), vec!['b', 'd', 'c', 'a']);
    assert_eq!(optimizable.diff(), 3);
}

#[test]
fn perturbing_with_three_cycles_keeps_the_limit() {
    // A three-cycle is not undone by applying it again; the layout from before
    // the move is kept instead.
    for seed in 0..20 {
        let mut optimizable =
            OptimizableLayout::new(make_layout(), &[], Some(2), SwapMoveBuilder::full());
        optimizable.perturb(&mut seeded_rng(seed), 1, &[(SwapMoveStrategy::ThreeCycle, 1)]);
        assert_eq!(optimizable.diff(), 0);
    }
}

#[test]
fn perturbing_with_single_column_and_row_moves_keeps_the_limit() {
    for seed in 0..20 {
        let mut optimizable =
            OptimizableLayout::new(make_layout(), &[], Some(2), SwapMoveBuilder::full());

        optimizable.perturb(&mut seeded_rng(seed), 10, STRATEGIES);

        assert!(optimizable.diff() <= 2);
    }
}

fn state(current_score: u64, best_score: u64, stall: usize, temp: u64) -> AnnealState<u64> {
    AnnealState { current_score, best_score, stall, temp }
}

#[test]
fn annealing_accepts_a_candidate_that_scores_no_higher() {
    let asked = Cell::new(false);
    let accept_worse = |_t: u64, _c: u64, _s: u64, _x: u64| {
        asked.set(true);
        false
    };
    let (accepted, next) = anneal_step(&state(50, 40, 3, 100), 30, 7, &accept_worse, &|t: u64| t / 2);
    assert!(accepted);
    assert!(!asked.get());
    assert_eq!(next.current_score, 30);
    assert_eq!(next.best_score, 30);
    assert_eq!(next.stall, 0);
    assert_eq!(next.temp, 50);

    let (accepted, next) = anneal_step(&state(50, 20, 3, 100), 50, 7, &accept_worse, &|t: u64| t / 2);
    assert!(accepted);
    assert_eq!(next.current_score, 50);
    assert_eq!(next.best_score, 20);
    assert_eq!(next.stall, 0);
}

#[test]
fn annealing_asks_about_a_worse_candidate() {
    let seen = Cell::new((0u64, 0u64, 0u64, 0u64));
    let accept_worse = |t: u64, c: u64, s: u64, x: u64| {
        seen.set((t, c, s, x));
        x % 2 == 0
    };
    let (accepted, next) = anneal_step(&state(50, 40, 3, 100), 60, 8, &accept_worse, &|t: u64| t - 1);
    assert!(accepted);
    assert_eq!(seen.get(), (100, 60, 50, 8));
    assert_eq!(next.current_score, 60);
    assert_eq!(next.best_score, 40);
    assert_eq!(next.stall, 0);
    assert_eq!(next.temp, 99);

    let (accepted, next) = anneal_step(&state(50, 40, 3, 100), 60, 9, &accept_worse, &|t: u64| t - 1);
    assert!(!accepted);
    assert_eq!(next.current_score, 50);
    assert_eq!(next.best_score, 40);
    assert_eq!(next.stall, 4);
    assert_eq!(next.temp, 99);
}

#[test]
fn a_climb_ends_at_the_lowest_score_it_reaches() {
    let layout = make_layout();
    let optimizable = OptimizableLayout::new(layout, &[], None, SwapMoveBuilder::full());
    let score = |layout: &Layout| layout.key_for('c').unwrap().effort as u64;
    let (best, best_score) = climb(&optimizable, 100_000, &score);
    assert_eq!(best_score, 1000);
    assert_eq!(best.layout().key_for('c').unwrap().effort, 1000);
    assert_eq!(best.initial_layout().keys(), optimizable.initial_layout().keys());
}

#[test]
fn a_climb_keeps_the_start_when_no_move_scores_lower() {
    let layout = make_layout();
    let optimizable = OptimizableLayout::new(layout, &[], None, SwapMoveBuilder::full());
    let score = |_: &Layout| 5u64;
    let (best, best_score) = climb(&optimizable, 5, &score);
    assert_eq!(best_score, 5);
    assert_eq!(best.layout().keys(), optimizable.layout().keys());
}
