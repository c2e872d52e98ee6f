//! Sequences of one, two and three keys, and the typing motions they fall under.
use vstd::prelude::*;

use crate::layout::{whole_units, FingerKind, Key};

verus! {

/// One key.
#[derive(Clone, Copy, Debug, PartialEq, Eq, Structural)]
pub struct Unigram {
    pub key: Key,
}

impl Unigram {
    pub fn new(key: &Key) -> (r: Self)
        ensures
            r.key == *key,
    {
        Unigram { key: *key }
    }
}

/// Whether a motion stays on one hand or alternates hands.
#[derive(Clone, Copy, Debug, PartialEq, Eq, Hash, PartialOrd, Ord, Structural)]
pub enum Handedness {
    Same,
    Alternate,
}

/// The direction of a roll: towards the index finger (in) or the pinky (out).
#[derive(Clone, Copy, Debug, PartialEq, Eq, Hash, PartialOrd, Ord, Structural)]
pub enum RollDirection {
    In,
    Out,
}

/// How bad a redirect is: weak when neither thumb nor index takes part.
#[derive(Clone, Copy, Debug, PartialEq, Eq, Hash, PartialOrd, Ord, Structural)]
pub enum RedirectStrength {
    Weak,
    Strong,
}

/// Two keys typed in a row.
#[derive(Clone, Copy, Debug, PartialEq, Eq, Structural)]
pub struct Bigram {
    pub key1: Key,
    pub key2: Key,
}

/// The motions a bigram can fall under.
#[derive(Clone, Copy, Debug, PartialEq, Eq, Structural)]
pub enum BigramKind {
    SameFingerSkip { units: u8 },
    LateralStretch { finger: FingerKind, units: u8 },
    Scissor { units: u8, upper_finger: FingerKind, lower_finger: FingerKind, adiacent: bool },
    Other,
}

/// The ordered finger pairs that can stretch sideways apart.
pub open spec fn spec_is_lateral_pair(a: FingerKind, b: FingerKind) -> bool {
    ||| (a == FingerKind::Index && b == FingerKind::Middle)
    ||| (a == FingerKind::Ring && b == FingerKind::Middle)
    ||| (a == FingerKind::Ring && b == FingerKind::Index)
    ||| (a == FingerKind::Pinky && b == FingerKind::Ring)
    ||| (a == FingerKind::Pinky && b == FingerKind::Middle)
    ||| (a == FingerKind::Pinky && b == FingerKind::Index)
}

fn is_lateral_pair(a: FingerKind, b: FingerKind) -> (r: bool)
    ensures
        r == spec_is_lateral_pair(a, b),
{
    match (a, b) {
        (FingerKind::Index, FingerKind::Middle) => true,
        (FingerKind::Ring, FingerKind::Middle) => true,
        (FingerKind::Ring, FingerKind::Index) => true,
        (FingerKind::Pinky, FingerKind::Ring) => true,
        (FingerKind::Pinky, FingerKind::Middle) => true,
        (FingerKind::Pinky, FingerKind::Index) => true,
        _ => false,
    }
}

fn to_whole_units(d: u64) -> (r: u8)
    ensures
        r == whole_units(d as int),
{
    if d / 1000 >= 255 {
        255
    } else {
        (d / 1000) as u8
    }
}

/// A same-finger motion between two different places.
pub open spec fn skip_part(k1: Key, k2: Key) -> Seq<BigramKind> {
    if k1.spec_same_finger(k2) && (k1.spec_row_distance(k2) > 0 || k1.spec_column_distance(k2)
        > 0) {
        seq![BigramKind::SameFingerSkip { units: k1.spec_distance(k2) }]
    } else {
        Seq::empty()
    }
}

/// Sideways stretches between two fingers of a hand: the keys are at least one
/// key further apart than the fingers are.
pub open spec fn stretch_part(k1: Key, k2: Key) -> Seq<BigramKind> {
    match k1.finger.spec_distance(k2.finger) {
        Some(fd) => if fd > 0 && k1.spec_column_distance(k2) >= (fd + 1) * 1000 {
            let units = whole_units(k1.spec_column_distance(k2));
            (if spec_is_lateral_pair(k1.finger.kind, k2.finger.kind) {
                seq![BigramKind::LateralStretch { finger: k1.finger.kind, units }]
            } else {
                Seq::empty()
            }) + (if spec_is_lateral_pair(k2.finger.kind, k1.finger.kind) {
                seq![BigramKind::LateralStretch { finger: k2.finger.kind, units }]
            } else {
                Seq::empty()
            })
        } else {
            Seq::empty()
        },
        None => Seq::empty(),
    }
}

/// Two different fingers of a hand on rows at least a key apart.
pub open spec fn scissor_part(k1: Key, k2: Key) -> Seq<BigramKind> {
    match k1.finger.spec_distance(k2.finger) {
        Some(fd) => if fd >= 1 && k1.spec_row_distance(k2) >= 1000 {
            let upper = if k1.position.r < k2.position.r {
                k1
            } else {
                k2
            };
            let lower = if k1.position.r < k2.position.r {
                k2
            } else {
                k1
            };
            seq![
                BigramKind::Scissor {
                    units: whole_units(k1.spec_row_distance(k2)),
                    upper_finger: upper.finger.kind,
                    lower_finger: lower.finger.kind,
                    adiacent: fd == 1,
                },
            ]
        } else {
            Seq::empty()
        },
        None => Seq::empty(),
    }
}

/// The named motions of a bigram, in the order they are reported; none when a
/// thumb takes part.
pub open spec fn bigram_motions(k1: Key, k2: Key) -> Seq<BigramKind> {
    if k1.finger.kind == FingerKind::Thumb || k2.finger.kind == FingerKind::Thumb {
        Seq::empty()
    } else {
        skip_part(k1, k2) + stretch_part(k1, k2) + scissor_part(k1, k2)
    }
}

/// The kinds of a bigram: its named motions, or `Other` when it has none.
pub open spec fn bigram_kinds(k1: Key, k2: Key) -> Seq<BigramKind> {
    if bigram_motions(k1, k2).len() == 0 {
        seq![BigramKind::Other]
    } else {
        bigram_motions(k1, k2)
    }
}

/// A bigram falls under the same kinds typed in either order, unless its keys
/// share a row of the matrix yet lie a key or more apart vertically (then the
/// upper and lower finger of a scissor trade places).
pub proof fn lemma_bigram_kinds_symmetric(k1: Key, k2: Key)
    requires
        k1.position.r != k2.position.r || k1.spec_row_distance(k2) < 1000,
    ensures
        bigram_kinds(k1, k2) == bigram_kinds(k2, k1),
{
    assert(k1.spec_row_distance(k2) == k2.spec_row_distance(k1));
    assert(k1.spec_column_distance(k2) == k2.spec_column_distance(k1));
    assert(k1.spec_distance(k2) == k2.spec_distance(k1));
    assert(k1.finger.spec_distance(k2.finger) == k2.finger.spec_distance(k1.finger));
    assert(skip_part(k1, k2) =~= skip_part(k2, k1));
    assert(stretch_part(k1, k2) =~= stretch_part(k2, k1));
    assert(scissor_part(k1, k2) =~= scissor_part(k2, k1));
    assert(bigram_motions(k1, k2) =~= bigram_motions(k2, k1));
}

impl Bigram {
    pub fn new(key1: &Key, key2: &Key) -> (r: Self)
        ensures
            r.key1 == *key1,
            r.key2 == *key2,
    {
        Bigram { key1: *key1, key2: *key2 }
    }

    /// Every kind the bigram falls under, in the order they are reported.
    pub fn for_each_kind(&self) -> (r: Vec<BigramKind>)
        ensures
            r@ == bigram_kinds(self.key1, self.key2),
    {
        let mut kinds: Vec<BigramKind> = Vec::new();
        let k1 = self.key1;
        let k2 = self.key2;
        if k1.finger.kind == FingerKind::Thumb || k2.finger.kind == FingerKind::Thumb {
            kinds.push(BigramKind::Other);
            assert(kinds@ =~= bigram_kinds(k1, k2));
            return kinds;
        }
        let row_distance = k1.row_distance(&k2);
        let col_distance = k1.column_distance(&k2);
        let finger_distance = k1.finger.distance(&k2.finger);

        if k1.same_finger(&k2) && (row_distance > 0 || col_distance > 0) {
            kinds.push(BigramKind::SameFingerSkip { units: k1.distance(&k2) });
        }
        assert(kinds@ =~= skip_part(k1, k2));

        if let Some(fd) = finger_distance {
            if fd > 0 && col_distance >= (fd as u64 + 1) * 1000 {
                let units = to_whole_units(col_distance);
                if is_lateral_pair(k1.finger.kind, k2.finger.kind) {
                    kinds.push(BigramKind::LateralStretch { finger: k1.finger.kind, units });
                }
                if is_lateral_pair(k2.finger.kind, k1.finger.kind) {
                    kinds.push(BigramKind::LateralStretch { finger: k2.finger.kind, units });
                }
            }
        }
        assert(kinds@ =~= skip_part(k1, k2) + stretch_part(k1, k2));

        if let Some(fd) = finger_distance {
            if fd >= 1 && row_distance >= 1000 {
                let (upper, lower) = if k1.position.r < k2.position.r {
                    (k1, k2)
                } else {
                    (k2, k1)
                };
                kinds.push(
                    BigramKind::Scissor {
                        units: to_whole_units(row_distance),
                        upper_finger: upper.finger.kind,
                        lower_finger: lower.finger.kind,
                        adiacent: fd == 1,
                    },
                );
            }
        }
        assert(kinds@ =~= bigram_motions(k1, k2));

        if kinds.len() == 0 {
            kinds.push(BigramKind::Other);
        }
        assert(kinds@ =~= bigram_kinds(k1, k2));
        kinds
    }
}

/// Three keys typed in a row.
#[derive(Clone, Copy, Debug, PartialEq, Eq, Structural)]
pub struct Trigram {
    pub key1: Key,
    pub key2: Key,
    pub key3: Key,
}

/// The motions a trigram can fall under.
#[derive(Clone, Copy, Debug, PartialEq, Eq, Structural)]
pub enum TrigramKind {
    SameFingerSkip { units: u8, handedness: Handedness },
    LateralStretch { finger: FingerKind, units: u8, handedness: Handedness },
    Scissor {
        units: u8,
        upper_finger: FingerKind,
        lower_finger: FingerKind,
        handedness: Handedness,
        adiacent: bool,
    },
    Roll { length: u8, direction: RollDirection },
    Redirect { strength: RedirectStrength },
    Alternation,
    Other,
}

/// A motion between the outer keys of a trigram, with the hand of the middle key.
pub open spec fn lift_kind(kind: BigramKind, handedness: Handedness) -> TrigramKind {
    match kind {
        BigramKind::SameFingerSkip { units } => TrigramKind::SameFingerSkip { units, handedness },
        BigramKind::LateralStretch { finger, units } => TrigramKind::LateralStretch {
            finger,
            units,
            handedness,
        },
        BigramKind::Scissor { units, upper_finger, lower_finger, adiacent } => TrigramKind::Scissor {
            units,
            upper_finger,
            lower_finger,
            handedness,
            adiacent,
        },
        BigramKind::Other => TrigramKind::Other,
    }
}

/// `Same` when the middle key is on the hand of the first key.
pub open spec fn middle_handedness(k1: Key, k2: Key) -> Handedness {
    if k2.finger.hand == k1.finger.hand {
        Handedness::Same
    } else {
        Handedness::Alternate
    }
}

/// The motions between the outer keys, when the middle key uses neither of
/// their fingers.
pub open spec fn skip_motions(k1: Key, k2: Key, k3: Key) -> Seq<TrigramKind> {
    if !k1.spec_same_finger(k2) && !k3.spec_same_finger(k2) {
        bigram_motions(k1, k3).map_values(|b: BigramKind| lift_kind(b, middle_handedness(k1, k2)))
    } else {
        Seq::empty()
    }
}

/// Whether a finger is a thumb or an index finger.
pub open spec fn is_thumb_or_index(k: Key) -> bool {
    k.finger.kind == FingerKind::Thumb || k.finger.kind == FingerKind::Index
}

/// Rolls and redirects of three keys on one hand.
pub open spec fn one_hand_motions(k1: Key, k2: Key, k3: Key) -> Seq<TrigramKind> {
    let (f1, f2, f3) = (k1.finger, k2.finger, k3.finger);
    if f1.hand == f2.hand && f2.hand == f3.hand {
        (if f1.spec_precedes(f2) && f2.spec_precedes(f3) {
            seq![TrigramKind::Roll { length: 3, direction: RollDirection::In }]
        } else {
            Seq::empty()
        }) + (if f2.spec_precedes(f1) && f3.spec_precedes(f2) {
            seq![TrigramKind::Roll { length: 3, direction: RollDirection::Out }]
        } else {
            Seq::empty()
        }) + (if ((f1.spec_precedes(f2) && f3.spec_precedes(f2)) || (f2.spec_precedes(f1)
            && f2.spec_precedes(f3))) && !k1.spec_same_finger(k3) {
            seq![
                TrigramKind::Redirect {
                    strength: if !is_thumb_or_index(k1) && !is_thumb_or_index(k2)
                        && !is_thumb_or_index(k3) {
                        RedirectStrength::Weak
                    } else {
                        RedirectStrength::Strong
                    },
                },
            ]
        } else {
            Seq::empty()
        })
    } else {
        Seq::empty()
    }
}

/// Two keys on one hand, then the other hand.
pub open spec fn two_key_roll_motions(k1: Key, k2: Key, k3: Key) -> Seq<TrigramKind> {
    let (f1, f2, f3) = (k1.finger, k2.finger, k3.finger);
    if f1.hand == f2.hand && f2.hand != f3.hand {
        (if f1.spec_precedes(f2) {
            seq![TrigramKind::Roll { length: 2, direction: RollDirection::In }]
        } else {
            Seq::empty()
        }) + (if f2.spec_precedes(f1) {
            seq![TrigramKind::Roll { length: 2, direction: RollDirection::Out }]
        } else {
            Seq::empty()
        })
    } else {
        Seq::empty()
    }
}

/// The outer keys on one hand and the middle key on the other.
pub open spec fn alternation_motions(k1: Key, k2: Key, k3: Key) -> Seq<TrigramKind> {
    if k1.finger.hand == k3.finger.hand && k2.finger.hand != k1.finger.hand
        && !k1.spec_same_finger(k3) {
        seq![TrigramKind::Alternation]
    } else {
        Seq::empty()
    }
}

/// The named motions of a trigram, in the order they are reported.
pub open spec fn trigram_motions(k1: Key, k2: Key, k3: Key) -> Seq<TrigramKind> {
    skip_motions(k1, k2, k3) + one_hand_motions(k1, k2, k3) + two_key_roll_motions(k1, k2, k3)
        + alternation_motions(k1, k2, k3)
}

/// The kinds of a trigram: its named motions, or `Other` when it has none.
pub open spec fn trigram_kinds(k1: Key, k2: Key, k3: Key) -> Seq<TrigramKind> {
    if trigram_motions(k1, k2, k3).len() == 0 {
        seq![TrigramKind::Other]
    } else {
        trigram_motions(k1, k2, k3)
    }
}

fn lift(kind: &BigramKind, handedness: Handedness) -> (r: TrigramKind)
    ensures
        r == lift_kind(*kind, handedness),
{
    match *kind {
        BigramKind::SameFingerSkip { units } => TrigramKind::SameFingerSkip { units, handedness },
        BigramKind::LateralStretch { finger, units } => TrigramKind::LateralStretch {
            finger,
            units,
            handedness,
        },
        BigramKind::Scissor { units, upper_finger, lower_finger, adiacent } => TrigramKind::Scissor {
            units,
            upper_finger,
            lower_finger,
            handedness,
            adiacent,
        },
        BigramKind::Other => TrigramKind::Other,
    }
}

fn thumb_or_index(k: &Key) -> (r: bool)
    ensures
        r == is_thumb_or_index(*k),
{
    k.finger.kind == FingerKind::Thumb || k.finger.kind == FingerKind::Index
}

/// The named motions of a bigram never include `Other`.
proof fn lemma_motions_not_other(k1: Key, k2: Key)
    ensures
        forall|i: int|
            0 <= i < bigram_motions(k1, k2).len() ==> #[trigger] bigram_motions(k1, k2)[i]
                != BigramKind::Other,
{
}

impl Trigram {
    pub fn new(key1: &Key, key2: &Key, key3: &Key) -> (r: Self)
        ensures
            r.key1 == *key1,
            r.key2 == *key2,
            r.key3 == *key3,
    {
        Trigram { key1: *key1, key2: *key2, key3: *key3 }
    }

    /// Every kind the trigram falls under, in the order they are reported.
    pub fn for_each_kind(&self) -> (r: Vec<TrigramKind>)
        ensures
            r@ == trigram_kinds(self.key1, self.key2, self.key3),
    {
        let k1 = self.key1;
        let k2 = self.key2;
        let k3 = self.key3;
        let mut kinds: Vec<TrigramKind> = Vec::new();

        if !k1.same_finger(&k2) && !k3.same_finger(&k2) {
            let handedness = if k2.finger.hand == k1.finger.hand {
                Handedness::Same
            } else {
                Handedness::Alternate
            };
            let bigram_kinds_vec = Bigram::new(&k1, &k3).for_each_kind();
            let ghost motions = bigram_motions(k1, k3);
            proof {
                lemma_motions_not_other(k1, k3);
            }
            let mut i: usize = 0;
            while i < bigram_kinds_vec.len()
                invariant
                    i <= bigram_kinds_vec@.len(),
                    bigram_kinds_vec@ == bigram_kinds(k1, k3),
                    handedness == middle_handedness(k1, k2),
                    motions == bigram_motions(k1, k3),
                    forall|j: int| 0 <= j < motions.len() ==> #[trigger] motions[j] != BigramKind::Other,
                    motions.len() == 0 ==> kinds@.len() == 0,
                    motions.len() > 0 ==> kinds@ =~= motions.take(i as int).map_values(
                        |b: BigramKind| lift_kind(b, handedness),
                    ),
                decreases bigram_kinds_vec@.len() - i,
            {
                let kind = &bigram_kinds_vec[i];
                if *kind != BigramKind::Other {
                    kinds.push(lift(kind, handedness));
                }
                proof {
                    if motions.len() > 0 {
                        assert(motions.take(i + 1) =~= motions.take(i as int).push(motions[i as int]));
                    }
                }
                i = i + 1;
            }
            proof {
                if motions.len() > 0 {
                    assert(motions.take(i as int) =~= motions);
                }
            }
        }
        assert(kinds@ =~= skip_motions(k1, k2, k3));

        let f1 = k1.finger;
        let f2 = k2.finger;
        let f3 = k3.finger;
        if f1.hand == f2.hand && f2.hand == f3.hand {
            if f1.precedes(&f2) && f2.precedes(&f3) {
                kinds.push(TrigramKind::Roll { length: 3, direction: RollDirection::In });
            }
            if f2.precedes(&f1) && f3.precedes(&f2) {
                kinds.push(TrigramKind::Roll { length: 3, direction: RollDirection::Out });
            }
            if ((f1.precedes(&f2) && f3.precedes(&f2)) || (f2.precedes(&f1) && f2.precedes(&f3)))
                && !k1.same_finger(&k3) {
                if !thumb_or_index(&k1) && !thumb_or_index(&k2) && !thumb_or_index(&k3) {
                    kinds.push(TrigramKind::Redirect { strength: RedirectStrength::Weak });
                } else {
                    kinds.push(TrigramKind::Redirect { strength: RedirectStrength::Strong });
                }
            }
        }
        assert(kinds@ =~= skip_motions(k1, k2, k3) + one_hand_motions(k1, k2, k3));

        if f1.hand == f2.hand && f2.hand != f3.hand {
            if f1.precedes(&f2) {
                kinds.push(TrigramKind::Roll { length: 2, direction: RollDirection::In });
            }
            if f2.precedes(&f1) {
                kinds.push(TrigramKind::Roll { length: 2, direction: RollDirection::Out });
            }
        }
        assert(kinds@ =~= skip_motions(k1, k2, k3) + one_hand_motions(k1, k2, k3)
            + two_key_roll_motions(k1, k2, k3));

        if f1.hand == f3.hand && f2.hand != f1.hand && !k1.same_finger(&k3) {
            kinds.push(TrigramKind::Alternation);
        }
        assert(kinds@ =~= trigram_motions(k1, k2, k3));

        if kinds.len() == 0 {
            kinds.push(TrigramKind::Other);
        }
        assert(kinds@ =~= trigram_kinds(k1, k2, k3));
        kinds
    }
}

/// A motion between the outer keys of a trigram: a same-finger skip, a
/// lateral stretch or a scissor.
pub open spec fn is_outer_motion(kind: TrigramKind) -> bool {
    match kind {
        TrigramKind::SameFingerSkip { .. } => true,
        TrigramKind::LateralStretch { .. } => true,
        TrigramKind::Scissor { .. } => true,
        _ => false,
    }
}

/// No kind in the list is a motion between the outer keys.
pub open spec fn no_outer_motion(kinds: Seq<TrigramKind>) -> bool {
    forall|i: int| 0 <= i < kinds.len() ==> !is_outer_motion(#[trigger] kinds[i])
}

proof fn lemma_no_outer_concat(a: Seq<TrigramKind>, b: Seq<TrigramKind>)
    requires
        no_outer_motion(a),
        no_outer_motion(b),
    ensures
        no_outer_motion(a + b),
{
    assert forall|i: int| 0 <= i < (a + b).len() implies !is_outer_motion(#[trigger] (a + b)[i]) by {
        if i < a.len() {
            assert((a + b)[i] == a[i]);
        } else {
            assert((a + b)[i] == b[i - a.len()]);
        }
    }
}

/// The test that keeps the bigram kinds other than `Other`.
pub open spec fn named_kind() -> spec_fn(BigramKind) -> bool {
    |b: BigramKind| b != BigramKind::Other
}

/// A list in which every kind passes the test is kept whole by a filter on it.
proof fn lemma_filter_keeps_all(s: Seq<BigramKind>, keep: spec_fn(BigramKind) -> bool)
    requires
        forall|i: int| 0 <= i < s.len() ==> keep(#[trigger] s[i]),
    ensures
        s.filter(keep) == s,
    decreases s.len(),
{
    reveal(Seq::filter);
    if s.len() > 0 {
        let prev = s.drop_last();
        assert forall|i: int| 0 <= i < prev.len() implies keep(#[trigger] prev[i]) by {
            assert(prev[i] == s[i]);
        }
        lemma_filter_keeps_all(prev, keep);
        assert(keep(s[s.len() - 1]));
        assert(prev.push(s.last()) =~= s);
    }
}

/// The bigram kinds other than `Other` are the bigram's named motions.
proof fn lemma_named_kinds(k1: Key, k2: Key)
    ensures
        bigram_kinds(k1, k2).filter(named_kind()) == bigram_motions(k1, k2),
{
    let motions = bigram_motions(k1, k2);
    lemma_motions_not_other(k1, k2);
    if motions.len() == 0 {
        reveal_with_fuel(Seq::filter, 2);
        assert(seq![BigramKind::Other].drop_last() =~= Seq::<BigramKind>::empty());
        assert(bigram_kinds(k1, k2).filter(named_kind()) =~= Seq::<BigramKind>::empty());
    } else {
        lemma_filter_keeps_all(motions, named_kind());
    }
}

/// The one-hand motions, two-key rolls and alternations of a trigram are
/// never motions between its outer keys.
proof fn lemma_hand_motions(k1: Key, k2: Key, k3: Key)
    ensures
        no_outer_motion(
            one_hand_motions(k1, k2, k3) + two_key_roll_motions(k1, k2, k3) + alternation_motions(
                k1,
                k2,
                k3,
            ),
        ),
{
    let one = one_hand_motions(k1, k2, k3);
    let two = two_key_roll_motions(k1, k2, k3);
    let alt = alternation_motions(k1, k2, k3);
    let (f1, f2, f3) = (k1.finger, k2.finger, k3.finger);
    assert(no_outer_motion(one)) by {
        if f1.hand == f2.hand && f2.hand == f3.hand {
            let p1 = if f1.spec_precedes(f2) && f2.spec_precedes(f3) {
                seq![TrigramKind::Roll { length: 3, direction: RollDirection::In }]
            } else {
                Seq::empty()
            };
            let p2 = if f2.spec_precedes(f1) && f3.spec_precedes(f2) {
                seq![TrigramKind::Roll { length: 3, direction: RollDirection::Out }]
            } else {
                Seq::empty()
            };
            let p3 = if ((f1.spec_precedes(f2) && f3.spec_precedes(f2)) || (f2.spec_precedes(f1)
                && f2.spec_precedes(f3))) && !k1.spec_same_finger(k3) {
                seq![
                    TrigramKind::Redirect {
                        strength: if !is_thumb_or_index(k1) && !is_thumb_or_index(k2)
                            && !is_thumb_or_index(k3) {
                            RedirectStrength::Weak
                        } else {
                            RedirectStrength::Strong
                        },
                    },
                ]
            } else {
                Seq::empty()
            };
            assert(no_outer_motion(p1));
            assert(no_outer_motion(p2));
            assert(no_outer_motion(p3));
            lemma_no_outer_concat(p1, p2);
            lemma_no_outer_concat(p1 + p2, p3);
            assert(one == p1 + p2 + p3);
        }
    }
    assert(no_outer_motion(two)) by {
        if f1.hand == f2.hand && f2.hand != f3.hand {
            let p1 = if f1.spec_precedes(f2) {
                seq![TrigramKind::Roll { length: 2, direction: RollDirection::In }]
            } else {
                Seq::empty()
            };
            let p2 = if f2.spec_precedes(f1) {
                seq![TrigramKind::Roll { length: 2, direction: RollDirection::Out }]
            } else {
                Seq::empty()
            };
            assert(no_outer_motion(p1));
            assert(no_outer_motion(p2));
            lemma_no_outer_concat(p1, p2);
            assert(two == p1 + p2);
        }
    }
    assert(no_outer_motion(alt));
    lemma_no_outer_concat(one, two);
    lemma_no_outer_concat(one + two, alt);
}

/// Kinds made of a leading part and then a rest with no motion between the
/// outer keys (or `Other` alone when both are empty) begin with the leading
/// part, and nothing after it is such a motion.
proof fn lemma_kinds_shape(
    lead: Seq<TrigramKind>,
    rest: Seq<TrigramKind>,
    motions: Seq<TrigramKind>,
    kinds: Seq<TrigramKind>,
)
    requires
        motions == lead + rest,
        no_outer_motion(rest),
        kinds == (if motions.len() == 0 {
            seq![TrigramKind::Other]
        } else {
            motions
        }),
    ensures
        lead.len() <= kinds.len(),
        kinds.take(lead.len() as int) == lead,
        no_outer_motion(kinds.skip(lead.len() as int)),
        lead.len() == 0 ==> no_outer_motion(kinds),
{
    assert(no_outer_motion(seq![TrigramKind::Other]));
    if motions.len() == 0 {
        assert(kinds.take(0) =~= lead);
        assert(kinds.skip(0) =~= kinds);
    } else {
        assert(kinds.take(lead.len() as int) =~= lead);
        assert(kinds.skip(lead.len() as int) =~= rest);
        if lead.len() == 0 {
            assert(kinds =~= rest);
        }
    }
}

/// The kinds a trigram takes from its outer keys: when the middle key uses
/// neither outer finger, the trigram's kinds begin with the bigram kinds of
/// the outer keys other than `Other`, in their order, each lifted with the
/// hand of the middle key, and no later kind is a motion between the outer
/// keys; otherwise none of its kinds is such a motion.
pub proof fn lemma_trigram_lifts_outer_bigram(k1: Key, k2: Key, k3: Key)
    ensures
        ({
            let kinds = trigram_kinds(k1, k2, k3);
            let lifted = bigram_kinds(k1, k3).filter(named_kind()).map_values(
                |b: BigramKind| lift_kind(b, middle_handedness(k1, k2)),
            );
            if !k1.spec_same_finger(k2) && !k3.spec_same_finger(k2) {
                &&& lifted.len() <= kinds.len()
                &&& kinds.take(lifted.len() as int) == lifted
                &&& no_outer_motion(kinds.skip(lifted.len() as int))
            } else {
                no_outer_motion(kinds)
            }
        }),
{
    lemma_named_kinds(k1, k3);
    lemma_hand_motions(k1, k2, k3);
    let skip = skip_motions(k1, k2, k3);
    let one = one_hand_motions(k1, k2, k3);
    let two = two_key_roll_motions(k1, k2, k3);
    let alt = alternation_motions(k1, k2, k3);
    let rest = one + two + alt;
    assert(trigram_motions(k1, k2, k3) == skip + rest) by {
        assert(skip + one + two + alt =~= skip + rest);
    }
    lemma_kinds_shape(skip, rest, trigram_motions(k1, k2, k3), trigram_kinds(k1, k2, k3));
}

/// A bigram in which a thumb takes part falls under `Other` alone.
pub proof fn lemma_thumb_bigrams_are_other(k1: Key, k2: Key)
    requires
        k1.finger.kind == FingerKind::Thumb || k2.finger.kind == FingerKind::Thumb,
    ensures
        bigram_kinds(k1, k2) == seq![BigramKind::Other],
{
}

/// Every redirect in the list has strength `Weak` exactly when `weak` holds.
pub open spec fn redirects_weak_when(kinds: Seq<TrigramKind>, weak: bool) -> bool {
    forall|i: int|
        0 <= i < kinds.len() ==> match #[trigger] kinds[i] {
            TrigramKind::Redirect { strength } => (strength == RedirectStrength::Weak) == weak,
            _ => true,
        }
}

proof fn lemma_redirects_concat(a: Seq<TrigramKind>, b: Seq<TrigramKind>, weak: bool)
    requires
        redirects_weak_when(a, weak),
        redirects_weak_when(b, weak),
    ensures
        redirects_weak_when(a + b, weak),
{
    assert forall|i: int| 0 <= i < (a + b).len() implies match #[trigger] (a + b)[i] {
        TrigramKind::Redirect { strength } => (strength == RedirectStrength::Weak) == weak,
        _ => true,
    } by {
        if i < a.len() {
            assert((a + b)[i] == a[i]);
        } else {
            assert((a + b)[i] == b[i - a.len()]);
        }
    }
}

/// A redirect of a trigram is weak exactly when none of its three keys is on
/// a thumb or an index finger, and strong otherwise.
pub proof fn lemma_redirect_strength(k1: Key, k2: Key, k3: Key)
    ensures
        redirects_weak_when(
            trigram_kinds(k1, k2, k3),
            k1.finger.kind != FingerKind::Thumb && k1.finger.kind != FingerKind::Index
                && k2.finger.kind != FingerKind::Thumb && k2.finger.kind != FingerKind::Index
                && k3.finger.kind != FingerKind::Thumb && k3.finger.kind != FingerKind::Index,
        ),
{
    let weak = k1.finger.kind != FingerKind::Thumb && k1.finger.kind != FingerKind::Index
        && k2.finger.kind != FingerKind::Thumb && k2.finger.kind != FingerKind::Index
        && k3.finger.kind != FingerKind::Thumb && k3.finger.kind != FingerKind::Index;
    let skip = skip_motions(k1, k2, k3);
    let one = one_hand_motions(k1, k2, k3);
    let two = two_key_roll_motions(k1, k2, k3);
    let alt = alternation_motions(k1, k2, k3);
    assert(redirects_weak_when(skip, weak)) by {
        if !k1.spec_same_finger(k2) && !k3.spec_same_finger(k2) {
            let m = bigram_motions(k1, k3);
            assert forall|i: int| 0 <= i < skip.len() implies match #[trigger] skip[i] {
                TrigramKind::Redirect { strength } => (strength == RedirectStrength::Weak) == weak,
                _ => true,
            } by {
                assert(skip[i] == lift_kind(m[i], middle_handedness(k1, k2)));
            }
        }
    }
    let (f1, f2, f3) = (k1.finger, k2.finger, k3.finger);
    assert(redirects_weak_when(one, weak)) by {
        if f1.hand == f2.hand && f2.hand == f3.hand {
            let p1 = if f1.spec_precedes(f2) && f2.spec_precedes(f3) {
                seq![TrigramKind::Roll { length: 3, direction: RollDirection::In }]
            } else {
                Seq::empty()
            };
            let p2 = if f2.spec_precedes(f1) && f3.spec_precedes(f2) {
                seq![TrigramKind::Roll { length: 3, direction: RollDirection::Out }]
            } else {
                Seq::empty()
            };
            let p3 = if ((f1.spec_precedes(f2) && f3.spec_precedes(f2)) || (f2.spec_precedes(f1)
                && f2.spec_precedes(f3))) && !k1.spec_same_finger(k3) {
                seq![
                    TrigramKind::Redirect {
                        strength: if !is_thumb_or_index(k1) && !is_thumb_or_index(k2)
                            && !is_thumb_or_index(k3) {
                            RedirectStrength::Weak
                        } else {
                            RedirectStrength::Strong
                        },
                    },
                ]
            } else {
                Seq::empty()
            };
            assert(redirects_weak_when(p1, weak));
            assert(redirects_weak_when(p2, weak));
            assert(redirects_weak_when(p3, weak));
            lemma_redirects_concat(p1, p2, weak);
            lemma_redirects_concat(p1 + p2, p3, weak);
            assert(one == p1 + p2 + p3);
        }
    }
    assert(redirects_weak_when(two, weak)) by {
        if f1.hand == f2.hand && f2.hand != f3.hand {
            let p1 = if f1.spec_precedes(f2) {
                seq![TrigramKind::Roll { length: 2, direction: RollDirection::In }]
            } else {
                Seq::empty()
            };
            let p2 = if f2.spec_precedes(f1) {
                seq![TrigramKind::Roll { length: 2, direction: RollDirection::Out }]
            } else {
                Seq::empty()
            };
            assert(redirects_weak_when(p1, weak));
            assert(redirects_weak_when(p2, weak));
            lemma_redirects_concat(p1, p2, weak);
            assert(two == p1 + p2);
        }
    }
    assert(redirects_weak_when(alt, weak));
    lemma_redirects_concat(skip, one, weak);
    lemma_redirects_concat(skip + one, two, weak);
    lemma_redirects_concat(skip + one + two, alt, weak);
    assert(redirects_weak_when(seq![TrigramKind::Other], weak));
}

} // verus!
