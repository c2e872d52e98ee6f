use layouts_rs::layout::{Finger, FingerKind, Hand, KeySlot, Layout, Pos};
use layouts_rs::ngrams::{
    Bigram, BigramKind, Handedness, RedirectStrength, RollDirection, Trigram, TrigramKind, Unigram,
};

const ROWS: [&str; 3] = ["qwertyuiop", "\"asdfghjkl;'", "zxcvbnm,./"];

/// The finger that types a character of the fixture, in the usual touch
/// typing assignment.
fn finger_of(ch: char) -> Finger {
    let (hand, kind) = match ch {
        '"' | 'q' | 'a' | 'z' => (Hand::Left, FingerKind::Pinky),
        'w' | 's' | 'x' => (Hand::Left, FingerKind::Ring),
        'e' | 'd' | 'c' => (Hand::Left, FingerKind::Middle),
        'r' | 't' | 'f' | 'g' | 'v' | 'b' => (Hand::Left, FingerKind::Index),
        'y' | 'u' | 'h' | 'j' | 'n' | 'm' => (Hand::Right, FingerKind::Index),
        'i' | 'k' | ',' => (Hand::Right, FingerKind::Middle),
        'o' | 'l' | '.' => (Hand::Right, FingerKind::Ring),
        _ => (Hand::Right, FingerKind::Pinky),
    };
    Finger { hand, kind }
}

/// A QWERTY keyboard on a plain grid: the middle row starts one key to the
/// left of the others, with '"' before 'a' and '\'' after ';'.
fn qwerty() -> Layout {
    let mut slots = Vec::new();
    for (r, row) in ROWS.iter().enumerate() {
        let offset = if r == 1 { 0 } else { 1 };
        for (c, ch) in row.chars().enumerate() {
            slots.push(KeySlot {
                position: Pos { r, c },
                finger: finger_of(ch),
                finger_home: r == 1,
                x: ((c + offset) as i32) * 1000,
                y: (r as i32) * 1000,
                effort: 1000,
            });
        }
    }
    let text: Vec<char> = ROWS.join("\n").chars().collect();
    Layout::new(&text, &slots).unwrap()
}

fn bigram_kinds(layout: &Layout, ch1: char, ch2: char) -> Vec<BigramKind> {
    let bigram = Bigram::new(layout.key_for(ch1).unwrap(), layout.key_for(ch2).unwrap());
    bigram.for_each_kind()
}

fn trigram_kinds(layout: &Layout, ch1: char, ch2: char, ch3: char) -> Vec<TrigramKind> {
    let trigram = Trigram::new(
        layout.key_for(ch1).unwrap(),
        layout.key_for(ch2).unwrap(),
        layout.key_for(ch3).unwrap(),
    );
    trigram.for_each_kind()
}

fn check_both_ways(cases: &[(char, char, Vec<BigramKind>)]) {
    let layout = qwerty();
    for (ch1, ch2, expected) in cases {
        assert_eq!(&bigram_kinds(&layout, *ch1, *ch2), expected, "{ch1}{ch2}");
        assert_eq!(&bigram_kinds(&layout, *ch2, *ch1), expected, "{ch2}{ch1}");
    }
}

fn check_trigrams(cases: &[(char, char, char, Vec<TrigramKind>)]) {
    let layout = qwerty();
    for (ch1, ch2, ch3, expected) in cases {
        assert_eq!(&trigram_kinds(&layout, *ch1, *ch2, *ch3), expected, "{ch1}{ch2}{ch3}");
    }
}

#[test]
fn it_returns_the_unigram_with_its_key() {
    let layout = qwerty();
    let key = *layout.key_for('f').unwrap();
    assert_eq!(Unigram::new(&key).key, key);
}

#[test]
fn it_returns_the_bigram_with_keys() {
    let layout = qwerty();
    let key1 = *layout.key_for('a').unwrap();
    let key2 = *layout.key_for('s').unwrap();
    let bigram = Bigram::new(&key1, &key2);

    assert_eq!(bigram.key1, key1);
    assert_eq!(bigram.key2, key2);
    assert_eq!(bigram.for_each_kind(), vec![BigramKind::Other]);
}

#[test]
fn it_calculates_bigram_finger_skip() {
    let skip = |units| vec![BigramKind::SameFingerSkip { units }];
    check_both_ways(&[
        ('q', 'a', skip(1)),
        ('q', 'z', skip(2)),
        ('f', 'g', skip(1)),
        ('f', 'b', skip(1)),
        ('r', 'b', skip(2)),
        ('u', 'j', skip(1)),
        ('y', 'n', skip(2)),
        ('j', 'h', skip(1)),
        ('j', 'n', skip(1)),
    ]);
}

#[test]
fn it_calculates_bigram_lateral_stretch() {
    let stretch = |finger, units| vec![BigramKind::LateralStretch { finger, units }];
    check_both_ways(&[
        ('d', 'g', stretch(FingerKind::Index, 2)),
        ('e', 't', stretch(FingerKind::Index, 2)),
        ('"', 's', stretch(FingerKind::Pinky, 2)),
        ('s', 'g', stretch(FingerKind::Ring, 3)),
        ('a', 'g', stretch(FingerKind::Pinky, 4)),
        ('k', 'h', stretch(FingerKind::Index, 2)),
        ('i', 'y', stretch(FingerKind::Index, 2)),
        ('l', '\'', stretch(FingerKind::Pinky, 2)),
        ('h', 'l', stretch(FingerKind::Ring, 3)),
        ('h', ';', stretch(FingerKind::Pinky, 4)),
    ]);
}

#[test]
fn it_calculates_bigram_scissor() {
    let scissor = |units, upper_finger, lower_finger, adiacent| {
        vec![BigramKind::Scissor { units, upper_finger, lower_finger, adiacent }]
    };
    check_both_ways(&[
        ('c', 'w', scissor(2, FingerKind::Ring, FingerKind::Middle, true)),
        ('c', 'q', scissor(2, FingerKind::Pinky, FingerKind::Middle, false)),
        ('z', 'f', scissor(1, FingerKind::Index, FingerKind::Pinky, false)),
        ('.', 'u', scissor(2, FingerKind::Index, FingerKind::Ring, false)),
        (',', 'o', scissor(2, FingerKind::Ring, FingerKind::Middle, true)),
    ]);
}

#[test]
fn it_calculates_bigram_other() {
    check_both_ways(&[
        ('a', 's', vec![BigramKind::Other]),
        ('d', 'y', vec![BigramKind::Other]),
        ('t', 'n', vec![BigramKind::Other]),
    ]);
}

#[test]
fn it_calculates_trigram_finger_skip() {
    let skip = |units, handedness| vec![TrigramKind::SameFingerSkip { units, handedness }];
    check_trigrams(&[
        ('q', 'w', 'a', skip(1, Handedness::Same)),
        ('q', 'w', 'z', skip(2, Handedness::Same)),
        ('q', 'h', 'a', skip(1, Handedness::Alternate)),
        ('q', 'h', 'z', skip(2, Handedness::Alternate)),
        ('r', 'w', 't', skip(1, Handedness::Same)),
        ('r', 'a', 'b', skip(2, Handedness::Same)),
        ('r', 'u', 't', skip(1, Handedness::Alternate)),
        ('u', 'i', 'j', skip(1, Handedness::Same)),
        ('u', 'i', 'm', skip(2, Handedness::Same)),
        ('u', 'g', 'j', skip(1, Handedness::Alternate)),
        ('u', 'g', 'm', skip(2, Handedness::Alternate)),
    ]);
}

#[test]
fn it_calculates_trigram_lateral_stretch() {
    let stretch = |finger, units, handedness| TrigramKind::LateralStretch { finger, units, handedness };
    check_trigrams(&[
        (
            's',
            'y',
            'g',
            vec![stretch(FingerKind::Ring, 3, Handedness::Alternate), TrigramKind::Alternation],
        ),
        (
            'd',
            'u',
            'g',
            vec![stretch(FingerKind::Index, 2, Handedness::Alternate), TrigramKind::Alternation],
        ),
        (
            'k',
            'e',
            'h',
            vec![stretch(FingerKind::Index, 2, Handedness::Alternate), TrigramKind::Alternation],
        ),
        (
            'l',
            'i',
            '\'',
            vec![
                stretch(FingerKind::Pinky, 2, Handedness::Same),
                TrigramKind::Redirect { strength: RedirectStrength::Weak },
            ],
        ),
    ]);
}

#[test]
fn it_calculates_trigram_scissor() {
    let scissor = |units, upper_finger, lower_finger, handedness, adiacent| TrigramKind::Scissor {
        units,
        upper_finger,
        lower_finger,
        handedness,
        adiacent,
    };
    check_trigrams(&[
        (
            'c',
            'a',
            'w',
            vec![
                scissor(2, FingerKind::Ring, FingerKind::Middle, Handedness::Same, true),
                TrigramKind::Redirect { strength: RedirectStrength::Weak },
            ],
        ),
        (
            'c',
            'j',
            'w',
            vec![
                scissor(2, FingerKind::Ring, FingerKind::Middle, Handedness::Alternate, true),
                TrigramKind::Alternation,
            ],
        ),
        (
            'c',
            'j',
            'q',
            vec![
                scissor(2, FingerKind::Pinky, FingerKind::Middle, Handedness::Alternate, false),
                TrigramKind::Alternation,
            ],
        ),
        (
            '.',
            'k',
            'u',
            vec![
                scissor(2, FingerKind::Index, FingerKind::Ring, Handedness::Same, false),
                TrigramKind::Roll { length: 3, direction: RollDirection::In },
            ],
        ),
        (
            ',',
            'f',
            'o',
            vec![
                scissor(2, FingerKind::Ring, FingerKind::Middle, Handedness::Alternate, true),
                TrigramKind::Alternation,
            ],
        ),
    ]);
}

#[test]
fn it_calculates_trigram_roll() {
    let roll = |length, direction| vec![TrigramKind::Roll { length, direction }];
    check_trigrams(&[
        ('q', 'w', 'e', roll(3, RollDirection::In)),
        ('q', 'e', 'r', roll(3, RollDirection::In)),
        ('r', 'e', 'q', roll(3, RollDirection::Out)),
        ('e', 'w', 'q', roll(3, RollDirection::Out)),
        ('o', 'i', 'u', roll(3, RollDirection::In)),
        ('p', 'i', 'u', roll(3, RollDirection::In)),
        ('u', 'i', 'p', roll(3, RollDirection::Out)),
        ('i', 'o', 'p', roll(3, RollDirection::Out)),
        ('a', 'w', 'd', roll(3, RollDirection::In)),
        ('q', 'w', 'p', roll(2, RollDirection::In)),
        ('q', 'e', 'p', roll(2, RollDirection::In)),
        ('t', 'e', 'p', roll(2, RollDirection::Out)),
        ('e', 'w', 'p', roll(2, RollDirection::Out)),
        ('o', 'i', 'a', roll(2, RollDirection::In)),
        ('p', 'i', 'a', roll(2, RollDirection::In)),
        ('y', 'i', 'a', roll(2, RollDirection::Out)),
        ('i', 'o', 'a', roll(2, RollDirection::Out)),
    ]);
}

#[test]
fn it_calculates_trigram_redirect() {
    check_trigrams(&[
        ('q', 'e', 'w', vec![TrigramKind::Redirect { strength: RedirectStrength::Weak }]),
        ('q', 't', 'e', vec![TrigramKind::Redirect { strength: RedirectStrength::Strong }]),
    ]);
}

#[test]
fn it_calculates_trigram_alternation() {
    check_trigrams(&[
        ('q', 'h', 'w', vec![TrigramKind::Alternation]),
        ('u', 'a', 'i', vec![TrigramKind::Alternation]),
    ]);
}

#[test]
fn it_calculates_trigram_other() {
    check_trigrams(&[
        ('q', 'q', 'a', vec![TrigramKind::Other]),
        ('t', 'r', 'e', vec![TrigramKind::Other]),
        ('q', 't', 'q', vec![TrigramKind::Other]),
    ]);
}

#[test]
fn thumb_bigrams_are_other() {
    let slots = vec![
        KeySlot {
            position: Pos { r: 0, c: 0 },
            finger: Finger { hand: Hand::Left, kind: FingerKind::Thumb },
            finger_home: true,
            x: 0,
            y: 0,
            effort: 1000,
        },
        KeySlot {
            position: Pos { r: 0, c: 1 },
            finger: Finger { hand: Hand::Left, kind: FingerKind::Thumb },
            finger_home: false,
            x: 3000,
            y: 0,
            effort: 1000,
        },
    ];
    let layout = Layout::new(&['a', 'b'], &slots).unwrap();
    assert_eq!(bigram_kinds(&layout, 'a', 'b'), vec![BigramKind::Other]);
}

#[test]
fn trigram_kinds_begin_with_the_lifted_outer_bigram_kinds() {
    let layout = qwerty();
    let lift = |kind: &BigramKind, handedness: Handedness| match *kind {
        BigramKind::SameFingerSkip { units } => TrigramKind::SameFingerSkip { units, handedness },
        BigramKind::LateralStretch { finger, units } => {
            TrigramKind::LateralStretch { finger, units, handedness }
        }
        BigramKind::Scissor { units, upper_finger, lower_finger, adiacent } => TrigramKind::Scissor {
            units,
            upper_finger,
            lower_finger,
            handedness,
            adiacent,
        },
        BigramKind::Other => TrigramKind::Other,
    };
    for (a, b, c, handedness) in [
        ('e', 'j', 'c', Handedness::Alternate),
        ('e', 's', 'c', Handedness::Same),
        ('q', 'l', 'c', Handedness::Alternate),
        ('t', 'w', 'g', Handedness::Same),
    ] {
        let outer: Vec<TrigramKind> = bigram_kinds(&layout, a, c)
            .iter()
            .filter(|k| **k != BigramKind::Other)
            .map(|k| lift(k, handedness))
            .collect();
        let kinds = trigram_kinds(&layout, a, b, c);
        assert!(!outer.is_empty() || a == 't');
        assert_eq!(kinds[..outer.len()], outer[..]);
    }
    // The middle key on an outer finger: no motion between the outer keys.
    let kinds = trigram_kinds(&layout, 'e', 'd', 'c');
    assert!(kinds.iter().all(|k| !matches!(
        k,
        TrigramKind::SameFingerSkip { .. }
            | TrigramKind::LateralStretch { .. }
            | TrigramKind::Scissor { .. }
    )));
}
