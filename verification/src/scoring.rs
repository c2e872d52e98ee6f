//! Which motions each metric counts, and under which key. The counts are
//! carried through unchanged: what is summed, and how, is up to the caller.
use vstd::prelude::*;

use crate::layout::{Finger, FingerKind};
use crate::ngrams::{
    Bigram, BigramKind, Handedness, RedirectStrength, RollDirection, Trigram, TrigramKind, Unigram,
};

verus! {

/// The (lower, upper) finger pairs for which a one-row scissor is comfortable.
pub open spec fn spec_allowed_scissor(lower: FingerKind, upper: FingerKind) -> bool {
    ||| (lower == FingerKind::Index && upper == FingerKind::Middle)
    ||| (lower == FingerKind::Index && upper == FingerKind::Ring)
    ||| (lower == FingerKind::Middle && upper == FingerKind::Ring)
    ||| (lower == FingerKind::Ring && upper == FingerKind::Middle)
    ||| (lower == FingerKind::Ring && upper == FingerKind::Index)
    ||| (lower == FingerKind::Pinky && upper == FingerKind::Ring)
    ||| (lower == FingerKind::Pinky && upper == FingerKind::Middle)
    ||| (lower == FingerKind::Pinky && upper == FingerKind::Index)
}

/// A scissor counts when it spans more than one row, or one row with an
/// uncomfortable finger pair.
pub open spec fn spec_is_scissor_metric(units: u8, lower: FingerKind, upper: FingerKind) -> bool {
    units > 1 || (units == 1 && !spec_allowed_scissor(lower, upper))
}

fn allowed_scissor(lower: FingerKind, upper: FingerKind) -> (r: bool)
    ensures
        r == spec_allowed_scissor(lower, upper),
{
    match (lower, upper) {
        (FingerKind::Index, FingerKind::Middle) => true,
        (FingerKind::Index, FingerKind::Ring) => true,
        (FingerKind::Middle, FingerKind::Ring) => true,
        (FingerKind::Ring, FingerKind::Middle) => true,
        (FingerKind::Ring, FingerKind::Index) => true,
        (FingerKind::Pinky, FingerKind::Ring) => true,
        (FingerKind::Pinky, FingerKind::Middle) => true,
        (FingerKind::Pinky, FingerKind::Index) => true,
        _ => false,
    }
}

pub fn is_scissor_metric(units: u8, lower_finger: FingerKind, upper_finger: FingerKind) -> (r: bool)
    ensures
        r == spec_is_scissor_metric(units, lower_finger, upper_finger),
{
    units > 1 || (units == 1 && !allowed_scissor(lower_finger, upper_finger))
}

/// Every character counts.
pub fn total_chars<C: Copy>(_unigram: &Unigram, count: C) -> (r: Option<C>)
    ensures
        r == Some(count),
{
    Some(count)
}

/// A pinky key away from the pinky's home.
pub fn pinky_off_home<C: Copy>(unigram: &Unigram, count: C) -> (r: Option<C>)
    ensures
        r == (if unigram.key.finger.kind == FingerKind::Pinky && !unigram.key.finger_home {
            Some(count)
        } else {
            None
        }),
{
    if unigram.key.finger.kind == FingerKind::Pinky && !unigram.key.finger_home {
        Some(count)
    } else {
        None
    }
}

/// Usage by column.
pub fn column_usage<C: Copy>(unigram: &Unigram, count: C) -> (r: Option<(usize, C)>)
    ensures
        r == Some((unigram.key.position.c, count)),
{
    Some((unigram.key.position.c, count))
}

/// Usage by row.
pub fn row_usage<C: Copy>(unigram: &Unigram, count: C) -> (r: Option<(usize, C)>)
    ensures
        r == Some((unigram.key.position.r, count)),
{
    Some((unigram.key.position.r, count))
}

/// Usage by finger.
pub fn finger_usage<C: Copy>(unigram: &Unigram, count: C) -> (r: Option<(Finger, C)>)
    ensures
        r == Some((unigram.key.finger, count)),
{
    Some((unigram.key.finger, count))
}

/// Same-finger skips, by distance.
pub fn bigram_skips<C: Copy>(_bigram: &Bigram, kind: &BigramKind, count: C) -> (r: Option<(u8, C)>)
    ensures
        r == (match *kind {
            BigramKind::SameFingerSkip { units } => Some((units, count)),
            _ => None,
        }),
{
    match *kind {
        BigramKind::SameFingerSkip { units } => Some((units, count)),
        _ => None,
    }
}

/// Lateral stretches, by stretching finger.
pub fn bigram_lateral_stretches<C: Copy>(_bigram: &Bigram, kind: &BigramKind, count: C) -> (r:
    Option<(FingerKind, C)>)
    ensures
        r == (match *kind {
            BigramKind::LateralStretch { finger, .. } => Some((finger, count)),
            _ => None,
        }),
{
    match *kind {
        BigramKind::LateralStretch { finger, .. } => Some((finger, count)),
        _ => None,
    }
}

/// Scissors that count, by rows spanned.
pub fn bigram_scissors<C: Copy>(_bigram: &Bigram, kind: &BigramKind, count: C) -> (r: Option<
    (u8, C),
>)
    ensures
        r == (match *kind {
            BigramKind::Scissor { units, upper_finger, lower_finger, .. } => if spec_is_scissor_metric(
                units,
                lower_finger,
                upper_finger,
            ) {
                Some((units, count))
            } else {
                None
            },
            _ => None,
        }),
{
    match *kind {
        BigramKind::Scissor { units, upper_finger, lower_finger, .. } => {
            if is_scissor_metric(units, lower_finger, upper_finger) {
                Some((units, count))
            } else {
                None
            }
        },
        _ => None,
    }
}

/// Bigrams with no named motion.
pub fn bigram_others<C: Copy>(_bigram: &Bigram, kind: &BigramKind, count: C) -> (r: Option<C>)
    ensures
        r == (if *kind == BigramKind::Other {
            Some(count)
        } else {
            None
        }),
{
    match *kind {
        BigramKind::Other => Some(count),
        _ => None,
    }
}

/// Same-finger skips over a key of the same hand, by distance.
pub fn trigram_skips_same_hand<C: Copy>(_trigram: &Trigram, kind: &TrigramKind, count: C) -> (r:
    Option<(u8, C)>)
    ensures
        r == (match *kind {
            TrigramKind::SameFingerSkip { units, handedness: Handedness::Same } => Some(
                (units, count),
            ),
            _ => None,
        }),
{
    match *kind {
        TrigramKind::SameFingerSkip { units, handedness: Handedness::Same } => Some((units, count)),
        _ => None,
    }
}

/// Same-finger skips over a key of the other hand, by distance.
pub fn trigram_skips_alternation<C: Copy>(_trigram: &Trigram, kind: &TrigramKind, count: C) -> (r:
    Option<(u8, C)>)
    ensures
        r == (match *kind {
            TrigramKind::SameFingerSkip { units, handedness: Handedness::Alternate } => Some(
                (units, count),
            ),
            _ => None,
        }),
{
    match *kind {
        TrigramKind::SameFingerSkip { units, handedness: Handedness::Alternate } => Some(
            (units, count),
        ),
        _ => None,
    }
}

/// Skip scissors counted as same-hand: those over the other hand, or those
/// that count as a scissor metric.
pub fn trigram_scissors_same_hand<C: Copy>(_trigram: &Trigram, kind: &TrigramKind, count: C) -> (r:
    Option<(u8, C)>)
    ensures
        r == (match *kind {
            TrigramKind::Scissor { units, handedness, lower_finger, upper_finger, .. } => if handedness
                == Handedness::Alternate || spec_is_scissor_metric(
                units,
                lower_finger,
                upper_finger,
            ) {
                Some((units, count))
            } else {
                None
            },
            _ => None,
        }),
{
    match *kind {
        TrigramKind::Scissor { units, handedness, lower_finger, upper_finger, .. } => {
            if handedness == Handedness::Alternate || is_scissor_metric(
                units,
                lower_finger,
                upper_finger,
            ) {
                Some((units, count))
            } else {
                None
            }
        },
        _ => None,
    }
}

/// Skip scissors counted as alternation: those over the same hand, or those
/// that do not count as a scissor metric.
pub fn trigram_scissors_alternation<C: Copy>(_trigram: &Trigram, kind: &TrigramKind, count: C) -> (r:
    Option<(u8, C)>)
    ensures
        r == (match *kind {
            TrigramKind::Scissor { units, handedness, lower_finger, upper_finger, .. } => if handedness
                == Handedness::Same || !spec_is_scissor_metric(units, lower_finger, upper_finger) {
                Some((units, count))
            } else {
                None
            },
            _ => None,
        }),
{
    match *kind {
        TrigramKind::Scissor { units, handedness, lower_finger, upper_finger, .. } => {
            if handedness == Handedness::Same || !is_scissor_metric(
                units,
                lower_finger,
                upper_finger,
            ) {
                Some((units, count))
            } else {
                None
            }
        },
        _ => None,
    }
}

/// Lateral stretches over a key of the same hand, by stretching finger.
pub fn trigram_lateral_stretches_same_hand<C: Copy>(
    _trigram: &Trigram,
    kind: &TrigramKind,
    count: C,
) -> (r: Option<(FingerKind, C)>)
    ensures
        r == (match *kind {
            TrigramKind::LateralStretch { handedness: Handedness::Same, finger, .. } => Some(
                (finger, count),
            ),
            _ => None,
        }),
{
    match *kind {
        TrigramKind::LateralStretch { handedness: Handedness::Same, finger, .. } => Some(
            (finger, count),
        ),
        _ => None,
    }
}

/// Lateral stretches over a key of the other hand, by stretching finger.
pub fn trigram_lateral_stretches_alternation<C: Copy>(
    _trigram: &Trigram,
    kind: &TrigramKind,
    count: C,
) -> (r: Option<(FingerKind, C)>)
    ensures
        r == (match *kind {
            TrigramKind::LateralStretch { handedness: Handedness::Alternate, finger, .. } => Some(
                (finger, count),
            ),
            _ => None,
        }),
{
    match *kind {
        TrigramKind::LateralStretch { handedness: Handedness::Alternate, finger, .. } => Some(
            (finger, count),
        ),
        _ => None,
    }
}

/// Redirects, by strength.
pub fn trigram_redirects<C: Copy>(_trigram: &Trigram, kind: &TrigramKind, count: C) -> (r: Option<
    (RedirectStrength, C),
>)
    ensures
        r == (match *kind {
            TrigramKind::Redirect { strength } => Some((strength, count)),
            _ => None,
        }),
{
    match *kind {
        TrigramKind::Redirect { strength } => Some((strength, count)),
        _ => None,
    }
}

/// Three-key rolls, by direction.
pub fn trigram_roll<C: Copy>(_trigram: &Trigram, kind: &TrigramKind, count: C) -> (r: Option<
    (RollDirection, C),
>)
    ensures
        r == (match *kind {
            TrigramKind::Roll { length, direction } => if length == 3 {
                Some((direction, count))
            } else {
                None
            },
            _ => None,
        }),
{
    match *kind {
        TrigramKind::Roll { length: 3, direction } => Some((direction, count)),
        _ => None,
    }
}

/// Two-key rolls, by direction.
pub fn trigram_roll_bigrams<C: Copy>(_trigram: &Trigram, kind: &TrigramKind, count: C) -> (r:
    Option<(RollDirection, C)>)
    ensures
        r == (match *kind {
            TrigramKind::Roll { length, direction } => if length == 2 {
                Some((direction, count))
            } else {
                None
            },
            _ => None,
        }),
{
    match *kind {
        TrigramKind::Roll { length: 2, direction } => Some((direction, count)),
        _ => None,
    }
}

/// Alternations.
pub fn trigram_alternations<C: Copy>(_trigram: &Trigram, kind: &TrigramKind, count: C) -> (r:
    Option<C>)
    ensures
        r == (if *kind == TrigramKind::Alternation {
            Some(count)
        } else {
            None
        }),
{
    match *kind {
        TrigramKind::Alternation => Some(count),
        _ => None,
    }
}

/// Trigrams with no named motion.
pub fn trigram_others<C: Copy>(_trigram: &Trigram, kind: &TrigramKind, count: C) -> (r: Option<C>)
    ensures
        r == (if *kind == TrigramKind::Other {
            Some(count)
        } else {
            None
        }),
{
    match *kind {
        TrigramKind::Other => Some(count),
        _ => None,
    }
}

/// Which scissors count: every scissor over two rows or more, none over less
/// than one row, and over one row exactly those whose (lower, upper) finger
/// pair is not one of the comfortable pairs (index under middle or ring,
/// middle under ring, ring under middle or index, pinky under ring, middle or
/// index).
pub proof fn lemma_scissor_metric_pairs(units: u8, lower: FingerKind, upper: FingerKind)
    ensures
        units >= 2 ==> spec_is_scissor_metric(units, lower, upper),
        units == 0 ==> !spec_is_scissor_metric(units, lower, upper),
        units == 1 ==> (!spec_is_scissor_metric(units, lower, upper) <==> {
            ||| lower == FingerKind::Index && (upper == FingerKind::Middle || upper
                == FingerKind::Ring)
            ||| lower == FingerKind::Middle && upper == FingerKind::Ring
            ||| lower == FingerKind::Ring && (upper == FingerKind::Middle || upper
                == FingerKind::Index)
            ||| lower == FingerKind::Pinky && (upper == FingerKind::Ring || upper
                == FingerKind::Middle || upper == FingerKind::Index)
        }),
{
}

} // verus!
