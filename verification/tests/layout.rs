use layouts_rs::analyzer::{Analyzer, Corpus, KeyLookup};
use layouts_rs::layout::{Finger, FingerKind, Hand, Key, KeySlot, Layout, LayoutError, Pos};
use layouts_rs::level::{parse_level_filter, LevelName, UnknownLevel};
use layouts_rs::ngrams::{Bigram, BigramKind, Handedness, RollDirection, Trigram, TrigramKind, Unigram};
use layouts_rs::scoring::{
    bigram_others, bigram_scissors, bigram_skips, column_usage, finger_usage, is_scissor_metric,
    pinky_off_home, row_usage, total_chars, trigram_roll, trigram_roll_bigrams,
    trigram_skips_alternation, trigram_skips_same_hand,
};

fn pos(r: usize, c: usize) -> Pos {
    Pos { r, c }
}

fn slot(r: usize, c: usize, kind: FingerKind, home: bool, effort: u32) -> KeySlot {
    KeySlot {
        position: pos(r, c),
        finger: Finger { hand: Hand::Left, kind },
        finger_home: home,
        x: (c as i32) * 1000,
        y: (r as i32) * 1000,
        effort,
    }
}

fn slots() -> Vec<KeySlot> {
    vec![
        slot(0, 0, FingerKind::Pinky, true, 1000),
        slot(0, 1, FingerKind::Ring, true, 50_000),
        slot(1, 0, FingerKind::Pinky, false, 100_000),
        slot(1, 1, FingerKind::Ring, false, 200_000),
    ]
}

fn text(s: &str) -> Vec<char> {
    s.chars().collect()
}

fn make_layout() -> Layout {
    Layout::new(&text("ab\ncd"), &slots()).unwrap()
}

fn key(ch: char, x: i32, y: i32) -> Key {
    Key {
        ch,
        position: pos(0, 0),
        finger: Finger { hand: Hand::Left, kind: FingerKind::Index },
        finger_home: false,
        x,
        y,
        effort: 0,
    }
}

#[test]
fn it_lays_characters_row_by_row() {
    let layout = make_layout();
    assert_eq!(layout.len(), 4);
    assert_eq!(layout.char_at(&pos(0, 0)), Some('a'));
    assert_eq!(layout.char_at(&pos(0, 1)), Some('b'));
    assert_eq!(layout.char_at(&pos(1, 0)), Some('c'));
    assert_eq!(layout.char_at(&pos(1, 1)), Some('d'));
    assert_eq!(layout.char_at(&pos(2, 0)), None);
    let c = layout.key_for('c').unwrap();
    assert_eq!(c.effort, 100_000);
    assert!(!c.finger_home);
    assert_eq!(layout.key_for('z'), None);
}

#[test]
fn it_fails_on_a_character_without_slot() {
    let result = Layout::new(&text("ab\ncde"), &slots());
    assert_eq!(result.unwrap_err(), LayoutError::MissingSlot { ch: 'e', position: pos(1, 2) });
}

#[test]
fn it_sets_and_swaps_characters() {
    let mut layout = make_layout();
    layout.swap_chars(&pos(0, 0), &pos(1, 1));
    assert_eq!(layout.key_for('a').unwrap().position, pos(1, 1));
    assert_eq!(layout.key_for('d').unwrap().position, pos(0, 0));
    layout.swap_chars(&pos(0, 0), &pos(1, 1));
    assert_eq!(layout.key_for('a').unwrap().position, pos(0, 0));

    layout.set_char(&pos(0, 1), 'x');
    assert_eq!(layout.char_at(&pos(0, 1)), Some('x'));
    assert_eq!(layout.key_for('b'), None);

    // A position without a key changes nothing.
    layout.swap_chars(&pos(0, 0), &pos(5, 5));
    assert_eq!(layout.char_at(&pos(0, 0)), Some('a'));
}

#[test]
fn it_hashes_characters_in_key_order() {
    let layout = make_layout();
    let mut swapped = layout.clone();
    assert_eq!(layout.hash(), swapped.hash());
    swapped.swap_chars(&pos(0, 0), &pos(0, 1));
    assert_ne!(layout.hash(), swapped.hash());
    // FNV-1a of no character is the offset basis.
    let empty = Layout::new(&[], &slots()).unwrap();
    assert_eq!(empty.hash(), 0xcbf29ce484222325);
}

#[test]
fn it_measures_distances_in_whole_units() {
    let a = key('a', 0, 0);
    assert_eq!(a.distance(&key('b', 1000, 1000)), 1);
    assert_eq!(a.distance(&key('b', 1000, 2000)), 2);
    assert_eq!(a.distance(&key('b', 3000, 4000)), 5);
    assert_eq!(a.distance(&key('b', 999, 0)), 0);
    assert_eq!(a.row_distance(&key('b', 0, -1500)), 1500);
    assert_eq!(a.column_distance(&key('b', -2500, 0)), 2500);
}

#[test]
fn it_orders_fingers() {
    let left_index = Finger { hand: Hand::Left, kind: FingerKind::Index };
    let left_pinky = Finger { hand: Hand::Left, kind: FingerKind::Pinky };
    let right_pinky = Finger { hand: Hand::Right, kind: FingerKind::Pinky };
    assert!(left_pinky.precedes(&left_index));
    assert!(left_index.precedes(&right_pinky));
    assert!(!right_pinky.precedes(&left_pinky));
    assert_eq!(left_pinky.distance(&left_index), Some(3));
    assert_eq!(left_pinky.distance(&right_pinky), None);
}

#[test]
fn key_lookup_finds_ascii_and_other_characters() {
    let keys = vec![key('a', 0, 0), key('é', 1000, 0), key('a', 2000, 0)];
    let lookup = KeyLookup::from_keys(&keys);
    // The last key for a character wins.
    assert_eq!(lookup.get(&'a').unwrap().x, 2000);
    assert_eq!(lookup.get(&'é').unwrap().x, 1000);
    assert_eq!(lookup.get(&'z'), None);
    assert_eq!(lookup.get(&'ü'), None);
}

#[test]
fn it_does_not_collect_ngrams_for_missing_keys() {
    let analyzer = Analyzer::new(Corpus {
        unigrams: vec![('[', 10u64)],
        bigrams: vec![(('[', '['), 10u64)],
        trigrams: vec![(('[', '[', '['), 10u64)],
    });
    let ngrams = analyzer.analyze(&make_layout());
    assert!(ngrams.unigrams.is_empty());
    assert!(ngrams.bigrams.is_empty());
    assert!(ngrams.trigrams.is_empty());
}

#[test]
fn it_collects_ngrams_with_their_keys_and_counts() {
    let layout = make_layout();
    let analyzer = Analyzer::new(Corpus {
        unigrams: vec![('a', 1u64), ('x', 5u64)],
        bigrams: vec![(('a', 'a'), 2u64)],
        trigrams: vec![(('a', 'a', 'a'), 3u64)],
    });
    let a = *layout.key_for('a').unwrap();
    let ngrams = analyzer.analyze(&layout);
    assert_eq!(ngrams.unigrams, vec![(Unigram::new(&a), 1)]);
    assert_eq!(ngrams.bigrams, vec![(Bigram::new(&a, &a), 2)]);
    assert_eq!(ngrams.trigrams, vec![(Trigram::new(&a, &a, &a), 3)]);
}

#[test]
fn scissor_metric_counts_long_or_awkward_scissors() {
    assert!(is_scissor_metric(2, FingerKind::Index, FingerKind::Middle));
    assert!(!is_scissor_metric(1, FingerKind::Index, FingerKind::Middle));
    assert!(is_scissor_metric(1, FingerKind::Middle, FingerKind::Index));
    assert!(!is_scissor_metric(0, FingerKind::Middle, FingerKind::Index));
}

#[test]
fn unigram_metrics_sort_keys() {
    let layout = make_layout();
    let c = Unigram::new(layout.key_for('c').unwrap());
    let a = Unigram::new(layout.key_for('a').unwrap());
    assert_eq!(total_chars(&c, 3u64), Some(3));
    assert_eq!(pinky_off_home(&c, 3u64), Some(3));
    assert_eq!(pinky_off_home(&a, 3u64), None);
    assert_eq!(column_usage(&c, 3u64), Some((0, 3)));
    assert_eq!(row_usage(&c, 3u64), Some((1, 3)));
    assert_eq!(
        finger_usage(&c, 3u64),
        Some((Finger { hand: Hand::Left, kind: FingerKind::Pinky }, 3))
    );
}

#[test]
fn bigram_metrics_pick_their_kinds() {
    let layout = make_layout();
    let a = layout.key_for('a').unwrap();
    let c = layout.key_for('c').unwrap();
    let bigram = Bigram::new(a, c);
    let skip = BigramKind::SameFingerSkip { units: 1 };
    assert_eq!(bigram.for_each_kind(), vec![skip]);
    assert_eq!(bigram_skips(&bigram, &skip, 7u64), Some((1, 7)));
    assert_eq!(bigram_others(&bigram, &skip, 7u64), None);
    assert_eq!(bigram_others(&bigram, &BigramKind::Other, 7u64), Some(7));
    let comfortable = BigramKind::Scissor {
        units: 1,
        upper_finger: FingerKind::Middle,
        lower_finger: FingerKind::Index,
        adiacent: true,
    };
    assert_eq!(bigram_scissors(&bigram, &comfortable, 7u64), None);
    let long = BigramKind::Scissor {
        units: 2,
        upper_finger: FingerKind::Middle,
        lower_finger: FingerKind::Index,
        adiacent: true,
    };
    assert_eq!(bigram_scissors(&bigram, &long, 7u64), Some((2, 7)));
}

#[test]
fn trigram_metrics_pick_their_kinds() {
    let layout = make_layout();
    let a = layout.key_for('a').unwrap();
    let trigram = Trigram::new(a, a, a);
    let same = TrigramKind::SameFingerSkip { units: 2, handedness: Handedness::Same };
    let alternate = TrigramKind::SameFingerSkip { units: 2, handedness: Handedness::Alternate };
    assert_eq!(trigram_skips_same_hand(&trigram, &same, 4u64), Some((2, 4)));
    assert_eq!(trigram_skips_same_hand(&trigram, &alternate, 4u64), None);
    assert_eq!(trigram_skips_alternation(&trigram, &alternate, 4u64), Some((2, 4)));
    let roll3 = TrigramKind::Roll { length: 3, direction: RollDirection::In };
    let roll2 = TrigramKind::Roll { length: 2, direction: RollDirection::Out };
    assert_eq!(trigram_roll(&trigram, &roll3, 4u64), Some((RollDirection::In, 4)));
    assert_eq!(trigram_roll(&trigram, &roll2, 4u64), None);
    assert_eq!(trigram_roll_bigrams(&trigram, &roll2, 4u64), Some((RollDirection::Out, 4)));
}

#[test]
fn it_parses_level_filters_in_any_case() {
    assert_eq!(parse_level_filter("info"), Ok(LevelName::Info));
    assert_eq!(parse_level_filter("TRACE"), Ok(LevelName::Trace));
    assert_eq!(parse_level_filter("Off"), Ok(LevelName::Off));
    assert_eq!(parse_level_filter("wArN"), Ok(LevelName::Warn));
    assert_eq!(parse_level_filter("error"), Ok(LevelName::Error));
    assert_eq!(parse_level_filter("Debug"), Ok(LevelName::Debug));
    assert_eq!(parse_level_filter("verbose"), Err(UnknownLevel));
    assert_eq!(parse_level_filter(""), Err(UnknownLevel));
}

#[test]
fn word_ngrams_are_read_in_order() {
    let word: Vec<char> = "abcd".chars().collect();
    let ngrams = layouts_rs::analyzer::word_ngrams(&word);
    assert_eq!(ngrams.unigrams, vec!['a', 'b', 'c', 'd']);
    assert_eq!(ngrams.bigrams, vec![('a', 'b'), ('b', 'c'), ('c', 'd')]);
    assert_eq!(ngrams.trigrams, vec![('a', 'b', 'c'), ('b', 'c', 'd')]);

    let short = layouts_rs::analyzer::word_ngrams(&['x']);
    assert_eq!(short.unigrams, vec!['x']);
    assert!(short.bigrams.is_empty());
    assert!(short.trigrams.is_empty());
}
