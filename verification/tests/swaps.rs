use layouts_rs::layout::{Finger, FingerKind, Hand, KeySlot, Layout, Pos};
use layouts_rs::swaps::{SwapMove, SwapMoveBuilder, SwapMoveStrategy};

fn pos(r: usize, c: usize) -> Pos {
    Pos { r, c }
}

fn slot(r: usize, c: usize, kind: FingerKind, home: bool, effort: u32) -> KeySlot {
    KeySlot {
        position: pos(r, c),
        finger: Finger { hand: Hand::Left, kind },
        finger_home: home,
        x: (c as i32) * 1000,
        y: (r as i32) * 1000,
        effort,
    }
}

fn layout() -> Layout {
    let slots = vec![
        slot(0, 0, FingerKind::Pinky, true, 1000),
        slot(0, 1, FingerKind::Ring, true, 2000),
        slot(1, 0, FingerKind::Pinky, false, 3000),
        slot(1, 1, FingerKind::Ring, false, 4000),
    ];
    let text: Vec<char> = "ab\ncd".chars().collect();
    Layout::new(&text, &slots).unwrap()
}

#[test]
fn it_applies_all_swaps_in_order() {
    let mut layout = layout();
    let swap = SwapMove(vec![(pos(0, 0), pos(0, 1)), (pos(1, 0), pos(0, 1))]);

    swap.apply(&mut layout);

    assert_eq!(layout.key_for('a').unwrap().position, pos(1, 0));
    assert_eq!(layout.key_for('b').unwrap().position, pos(0, 0));
    assert_eq!(layout.key_for('c').unwrap().position, pos(0, 1));
    assert_eq!(layout.key_for('d').unwrap().position, pos(1, 1));
}

#[test]
fn swaps_it_builds() {
    let positions = vec![pos(0, 0), pos(1, 0), pos(0, 1)];
    let swap_moves = SwapMoveBuilder::new(&[SwapMoveStrategy::Single]).build(&positions);
    assert!(
        swap_moves.moves()
            == vec![
                &SwapMove(vec![(pos(0, 0), pos(1, 0))]),
                &SwapMove(vec![(pos(0, 0), pos(0, 1))]),
                &SwapMove(vec![(pos(1, 0), pos(0, 1))]),
            ]
    );
}

#[test]
fn it_builds_from_single_position() {
    let swap_moves = SwapMoveBuilder::new(&[SwapMoveStrategy::Single]).build(&[pos(0, 0)]);
    assert!(swap_moves.is_empty());
}

#[test]
fn swaps_it_builds_from_empty() {
    let swap_moves = SwapMoveBuilder::new(&[SwapMoveStrategy::Single]).build(&[]);
    assert!(swap_moves.is_empty());
}

#[test]
fn three_cycle_moves_it_builds() {
    let positions = vec![pos(0, 0), pos(1, 0), pos(0, 1)];
    let cycle_moves = SwapMoveBuilder::new(&[SwapMoveStrategy::ThreeCycle]).build(&positions);
    assert!(
        cycle_moves.moves()
            == vec![
                &SwapMove(vec![(pos(0, 0), pos(0, 1)), (pos(1, 0), pos(0, 1))]),
                &SwapMove(vec![(pos(0, 0), pos(1, 0)), (pos(0, 1), pos(1, 0))]),
            ]
    );
}

#[test]
fn it_builds_from_two_positions() {
    let cycle_moves =
        SwapMoveBuilder::new(&[SwapMoveStrategy::ThreeCycle]).build(&[pos(0, 0), pos(1, 0)]);
    assert!(cycle_moves.is_empty());
}

#[test]
fn column_moves_it_builds() {
    let positions = vec![pos(0, 0), pos(1, 0), pos(0, 1), pos(1, 1)];
    let col_moves = SwapMoveBuilder::new(&[SwapMoveStrategy::Column]).build(&positions);
    assert!(
        col_moves.moves()
            == vec![&SwapMove(vec![(pos(0, 0), pos(0, 1)), (pos(1, 0), pos(1, 1)),])]
    );
}

#[test]
fn swaps_it_builds_with_n_columns() {
    let positions = vec![pos(0, 0), pos(1, 0), pos(0, 1), pos(1, 1), pos(0, 2), pos(1, 2)];
    let col_moves = SwapMoveBuilder::new(&[SwapMoveStrategy::Column]).build(&positions);
    assert!(
        col_moves.moves()
            == vec![
                &SwapMove(vec![(pos(0, 0), pos(0, 1)), (pos(1, 0), pos(1, 1))]),
                &SwapMove(vec![(pos(0, 0), pos(0, 2)), (pos(1, 0), pos(1, 2))]),
                &SwapMove(vec![(pos(0, 1), pos(0, 2)), (pos(1, 1), pos(1, 2))]),
            ]
    );
}

#[test]
fn swaps_it_builds_with_n_rows() {
    let positions = vec![pos(0, 0), pos(1, 0), pos(2, 0), pos(0, 1), pos(1, 1), pos(2, 1)];
    let col_moves = SwapMoveBuilder::new(&[SwapMoveStrategy::Column]).build(&positions);
    assert!(
        col_moves.moves()
            == vec![&SwapMove(vec![
                (pos(0, 0), pos(0, 1)),
                (pos(1, 0), pos(1, 1)),
                (pos(2, 0), pos(2, 1)),
            ])]
    );
}

#[test]
fn it_builds_zips_to_shorter_column() {
    let positions = vec![pos(0, 0), pos(1, 0), pos(2, 0), pos(0, 1), pos(1, 1)];
    let col_moves = SwapMoveBuilder::new(&[SwapMoveStrategy::Column]).build(&positions);
    assert!(
        col_moves.moves()
            == vec![&SwapMove(vec![(pos(0, 0), pos(0, 1)), (pos(1, 0), pos(1, 1)),])]
    );
}

#[test]
fn it_builds_from_single_column() {
    let positions = vec![pos(0, 0), pos(1, 0)];
    let col_moves = SwapMoveBuilder::new(&[SwapMoveStrategy::Column]).build(&positions);
    assert!(col_moves.is_empty());
}

#[test]
fn column_moves_it_builds_from_empty() {
    let col_moves = SwapMoveBuilder::new(&[SwapMoveStrategy::Column]).build(&[]);
    assert!(col_moves.is_empty());
}

#[test]
fn row_moves_it_builds() {
    let positions = vec![pos(0, 0), pos(0, 1), pos(1, 0), pos(1, 1)];
    let row_moves = SwapMoveBuilder::new(&[SwapMoveStrategy::Row]).build(&positions);
    assert!(
        row_moves.moves()
            == vec![&SwapMove(vec![(pos(0, 0), pos(1, 0)), (pos(0, 1), pos(1, 1)),])]
    );
}

#[test]
fn row_moves_it_builds_with_n_rows() {
    let positions = vec![pos(0, 0), pos(0, 1), pos(1, 0), pos(1, 1), pos(2, 0), pos(2, 1)];
    let row_moves = SwapMoveBuilder::new(&[SwapMoveStrategy::Row]).build(&positions);
    assert!(
        row_moves.moves()
            == vec![
                &SwapMove(vec![(pos(0, 0), pos(1, 0)), (pos(0, 1), pos(1, 1))]),
                &SwapMove(vec![(pos(0, 0), pos(2, 0)), (pos(0, 1), pos(2, 1))]),
                &SwapMove(vec![(pos(1, 0), pos(2, 0)), (pos(1, 1), pos(2, 1))]),
            ]
    );
}

#[test]
fn row_moves_it_builds_with_n_columns() {
    let positions = vec![pos(0, 0), pos(0, 1), pos(0, 2), pos(1, 0), pos(1, 1), pos(1, 2)];
    let row_moves = SwapMoveBuilder::new(&[SwapMoveStrategy::Row]).build(&positions);
    assert!(
        row_moves.moves()
            == vec![&SwapMove(vec![
                (pos(0, 0), pos(1, 0)),
                (pos(0, 1), pos(1, 1)),
                (pos(0, 2), pos(1, 2)),
            ])]
    );
}

#[test]
fn it_builds_zips_to_shorter_row() {
    let positions = vec![pos(0, 0), pos(0, 1), pos(0, 2), pos(1, 0), pos(1, 1)];
    let row_moves = SwapMoveBuilder::new(&[SwapMoveStrategy::Row]).build(&positions);
    assert!(
        row_moves.moves()
            == vec![&SwapMove(vec![(pos(0, 0), pos(1, 0)), (pos(0, 1), pos(1, 1)),])]
    );
}

#[test]
fn it_builds_from_single_row() {
    let positions = vec![pos(0, 0), pos(0, 1)];
    let row_moves = SwapMoveBuilder::new(&[SwapMoveStrategy::Row]).build(&positions);
    assert!(row_moves.is_empty());
}

#[test]
fn row_moves_it_builds_from_empty() {
    let row_moves = SwapMoveBuilder::new(&[SwapMoveStrategy::Row]).build(&[]);
    assert!(row_moves.is_empty());
}

#[test]
fn full_builder_collects_every_family_in_order() {
    let positions = vec![pos(0, 0), pos(0, 1), pos(1, 0), pos(1, 1)];
    let moves = SwapMoveBuilder::full().build(&positions);
    // 6 single swaps, 1 column exchange, 1 row exchange, 8 three-cycles.
    assert_eq!(moves.len(), 16);
    let all = moves.moves();
    assert_eq!(all[0], &SwapMove(vec![(pos(0, 0), pos(0, 1))]));
    assert_eq!(all[6], &SwapMove(vec![(pos(0, 0), pos(0, 1)), (pos(1, 0), pos(1, 1))]));
    assert_eq!(all[7], &SwapMove(vec![(pos(0, 0), pos(1, 0)), (pos(0, 1), pos(1, 1))]));
}

#[test]
fn builder_keeps_first_occurrence_of_each_family() {
    let positions = vec![pos(0, 0), pos(1, 0)];
    let moves = SwapMoveBuilder::new(&[SwapMoveStrategy::Single, SwapMoveStrategy::Single])
        .build(&positions);
    assert_eq!(moves.len(), 1);
}

#[test]
fn default_builder_builds_nothing() {
    let moves = SwapMoveBuilder::default().build(&[pos(0, 0), pos(0, 1)]);
    assert!(moves.is_empty());
    assert_eq!(moves.len(), 0);
}

#[test]
fn applying_a_move_twice_restores_single_swaps() {
    let mut layout = layout();
    let swap = SwapMove(vec![(pos(0, 0), pos(1, 1))]);
    swap.apply(&mut layout);
    assert_eq!(layout.char_at(&pos(0, 0)), Some('d'));
    swap.apply(&mut layout);
    assert_eq!(layout.char_at(&pos(0, 0)), Some('a'));
    assert_eq!(layout.char_at(&pos(1, 1)), Some('d'));
}

#[test]
fn family_at_picks_by_cumulative_weight() {
    let positions = vec![pos(0, 0), pos(0, 1), pos(1, 0), pos(1, 1)];
    let moves = SwapMoveBuilder::full().build(&positions);
    let weights = [(SwapMoveStrategy::Single, 10), (SwapMoveStrategy::ThreeCycle, 1)];
    assert_eq!(moves.family_at(&weights, 0), Some(0));
    assert_eq!(moves.family_at(&weights, 9), Some(0));
    assert_eq!(moves.family_at(&weights, 10), Some(3));
    assert_eq!(moves.family_at(&weights, 11), None);
}

#[test]
fn applying_a_column_exchange_twice_restores_the_layout() {
    let mut layout = layout();
    let exchange = SwapMove(vec![(pos(0, 0), pos(0, 1)), (pos(1, 0), pos(1, 1))]);
    exchange.apply(&mut layout);
    assert_eq!(layout.char_at(&pos(0, 0)), Some('b'));
    assert_eq!(layout.char_at(&pos(1, 1)), Some('c'));
    exchange.apply(&mut layout);
    let chars: Vec<char> = layout.keys().iter().map(|k| k.ch).collect();
    assert_eq!(chars, vec!['a', 'b', 'c', 'd']);
}

#[test]
fn applying_a_three_cycle_twice_does_not_restore_the_layout() {
    let mut layout = layout();
    let cycle = SwapMove(vec![(pos(0, 0), pos(1, 0)), (pos(0, 1), pos(1, 0))]);
    cycle.apply(&mut layout);
    cycle.apply(&mut layout);
    let chars: Vec<char> = layout.keys().iter().map(|k| k.ch).collect();
    assert_ne!(chars, vec!['a', 'b', 'c', 'd']);
}

#[test]
fn the_two_three_cycles_of_a_triple_undo_each_other() {
    let start = layout();
    let mut layout = layout();
    SwapMove(vec![(pos(0, 0), pos(0, 1)), (pos(1, 0), pos(0, 1))]).apply(&mut layout);
    assert_ne!(layout.keys(), start.keys());
    SwapMove(vec![(pos(0, 0), pos(1, 0)), (pos(0, 1), pos(1, 0))]).apply(&mut layout);
    assert_eq!(layout.keys(), start.keys());
}

#[test]
fn a_move_in_two_parts_applies_as_one() {
    let mut whole = layout();
    let mut parts = layout();
    SwapMove(vec![(pos(0, 0), pos(1, 1)), (pos(0, 1), pos(1, 0)), (pos(0, 0), pos(0, 1))])
        .apply(&mut whole);
    SwapMove(vec![(pos(0, 0), pos(1, 1))]).apply(&mut parts);
    SwapMove(vec![(pos(0, 1), pos(1, 0)), (pos(0, 0), pos(0, 1))]).apply(&mut parts);
    assert_eq!(whole.keys(), parts.keys());
}

#[test]
fn rebuilding_from_a_deduplicated_list_changes_nothing() {
    let positions = vec![pos(0, 0), pos(1, 0), pos(0, 1), pos(1, 1)];
    let once = SwapMoveBuilder::new(&[
        SwapMoveStrategy::Row,
        SwapMoveStrategy::Single,
        SwapMoveStrategy::Row,
    ])
    .build(&positions);
    let twice = SwapMoveBuilder::new(&[SwapMoveStrategy::Row, SwapMoveStrategy::Single]).build(&positions);
    assert_eq!(once.moves(), twice.moves());
    assert_eq!(once.len(), 1 + 6);
}

#[test]
fn full_builder_builds_what_all_four_families_build() {
    let positions = vec![pos(0, 0), pos(1, 0), pos(0, 1), pos(1, 1), pos(2, 2)];
    let full = SwapMoveBuilder::full().build(&positions);
    let all = SwapMoveBuilder::new(&[
        SwapMoveStrategy::Single,
        SwapMoveStrategy::Column,
        SwapMoveStrategy::Row,
        SwapMoveStrategy::ThreeCycle,
    ])
    .build(&positions);
    assert_eq!(full.moves(), all.moves());
}

#[test]
fn families_yield_moves_only_with_enough_positions() {
    let two = [pos(0, 0), pos(0, 1)];
    assert_eq!(SwapMoveBuilder::new(&[SwapMoveStrategy::Single]).build(&two).len(), 1);
    assert!(SwapMoveBuilder::new(&[SwapMoveStrategy::ThreeCycle]).build(&two).is_empty());
    assert_eq!(SwapMoveBuilder::new(&[SwapMoveStrategy::Column]).build(&two).len(), 1);
    assert!(SwapMoveBuilder::new(&[SwapMoveStrategy::Row]).build(&two).is_empty());
    let three = [pos(0, 0), pos(0, 1), pos(0, 2)];
    assert_eq!(SwapMoveBuilder::new(&[SwapMoveStrategy::ThreeCycle]).build(&three).len(), 2);
}

#[test]
fn the_three_cycles_of_a_triple_place_its_characters() {
    let first = SwapMove(vec![(pos(0, 0), pos(1, 0)), (pos(0, 1), pos(1, 0))]);
    let second = SwapMove(vec![(pos(0, 0), pos(0, 1)), (pos(1, 0), pos(0, 1))]);

    let mut once = layout();
    first.apply(&mut once);
    assert_eq!(once.key_for('c').unwrap().position, pos(0, 0));
    assert_eq!(once.key_for('a').unwrap().position, pos(0, 1));
    assert_eq!(once.key_for('b').unwrap().position, pos(1, 0));
    assert_eq!(once.key_for('d').unwrap().position, pos(1, 1));

    let mut other = layout();
    second.apply(&mut other);
    assert_eq!(other.key_for('b').unwrap().position, pos(0, 0));
    assert_eq!(other.key_for('c').unwrap().position, pos(0, 1));
    assert_eq!(other.key_for('a').unwrap().position, pos(1, 0));

    first.apply(&mut once);
    assert_eq!(once.keys(), other.keys());
}

#[test]
fn the_full_builder_lists_each_family_in_turn() {
    let positions = vec![pos(0, 0), pos(0, 1), pos(0, 2), pos(1, 0), pos(1, 1), pos(1, 2)];
    let full = SwapMoveBuilder::full().build(&positions);
    let mut parts = Vec::new();
    for family in [
        SwapMoveStrategy::Single,
        SwapMoveStrategy::Column,
        SwapMoveStrategy::Row,
        SwapMoveStrategy::ThreeCycle,
    ] {
        let built = SwapMoveBuilder::new(&[family]).build(&positions);
        for m in built.moves() {
            parts.push(m.clone());
        }
    }
    let full_moves: Vec<SwapMove> = full.moves().into_iter().cloned().collect();
    assert_eq!(full_moves, parts);
    assert_eq!(full.len(), 15 + 3 + 1 + 40);
}

#[test]
fn move_counts_follow_the_family_sizes() {
    let positions = vec![pos(0, 0), pos(0, 1), pos(0, 2), pos(1, 0), pos(1, 1), pos(1, 2)];
    let built = SwapMoveBuilder::new(&[
        SwapMoveStrategy::Row,
        SwapMoveStrategy::Single,
        SwapMoveStrategy::Row,
        SwapMoveStrategy::ThreeCycle,
    ])
    .build(&positions);
    assert_eq!(built.len(), 1 + 15 + 40);
    assert_eq!(built.moves().len(), built.len());
    let one_row = [pos(0, 0), pos(0, 1)];
    let rows_only = SwapMoveBuilder::new(&[SwapMoveStrategy::Row, SwapMoveStrategy::ThreeCycle])
        .build(&one_row);
    assert!(rows_only.is_empty());
    assert!(rows_only.moves().is_empty());
}
