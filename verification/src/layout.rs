//! The physical keyboard: hands, fingers, key positions and the assignment of
//! characters to keys.
//!
//! Geometry is kept in fixed point: a key center is given in thousandths of a
//! key unit (`UNIT` per key), and a key's effort in thousandths of an effort
//! point. All distances that the n-gram rules read are therefore exact integers.
use vstd::prelude::*;

verus! {

/// Thousandths per key unit: the scale of key-center coordinates.
pub const UNIT: u64 = 1000;

/// A hand of the typist.
#[derive(Clone, Copy, Debug, PartialEq, Eq, Hash, PartialOrd, Ord, Structural)]
pub enum Hand {
    Left,
    Right,
}

impl Hand {
    pub open spec fn spec_rank(self) -> u8 {
        match self {
            Hand::Left => 0,
            Hand::Right => 1,
        }
    }

    /// Left hand before right hand.
    pub fn rank(&self) -> (r: u8)
        ensures
            r == self.spec_rank(),
    {
        match self {
            Hand::Left => 0,
            Hand::Right => 1,
        }
    }
}

/// The kind of a finger, declared from the outside of the hand inwards.
#[derive(Clone, Copy, Debug, PartialEq, Eq, Hash, PartialOrd, Ord, Structural)]
pub enum FingerKind {
    Pinky,
    Ring,
    Middle,
    Index,
    Thumb,
}

impl FingerKind {
    pub open spec fn spec_rank(self) -> u8 {
        match self {
            FingerKind::Pinky => 0,
            FingerKind::Ring => 1,
            FingerKind::Middle => 2,
            FingerKind::Index => 3,
            FingerKind::Thumb => 4,
        }
    }

    /// The place of the finger on its hand, counted from the pinky.
    pub fn rank(&self) -> (r: u8)
        ensures
            r == self.spec_rank(),
    {
        match self {
            FingerKind::Pinky => 0,
            FingerKind::Ring => 1,
            FingerKind::Middle => 2,
            FingerKind::Index => 3,
            FingerKind::Thumb => 4,
        }
    }
}

/// A finger: a kind of finger on a hand.
#[derive(Clone, Copy, Debug, PartialEq, Eq, Hash, PartialOrd, Ord, Structural)]
pub struct Finger {
    pub hand: Hand,
    pub kind: FingerKind,
}

impl Finger {
    /// The order on fingers: by hand, then from the pinky inwards.
    pub open spec fn spec_precedes(self, other: Finger) -> bool {
        self.hand.spec_rank() < other.hand.spec_rank() || (self.hand == other.hand
            && self.kind.spec_rank() < other.kind.spec_rank())
    }

    /// Whether `self` comes strictly before `other` in the finger order.
    pub fn precedes(&self, other: &Finger) -> (r: bool)
        ensures
            r == self.spec_precedes(*other),
    {
        let h1 = self.hand.rank();
        let h2 = other.hand.rank();
        h1 < h2 || (h1 == h2 && self.kind.rank() < other.kind.rank())
    }

    /// How many fingers apart two fingers of the same hand are.
    pub open spec fn spec_distance(self, other: Finger) -> Option<u8> {
        if self.hand != other.hand {
            None
        } else if self.kind.spec_rank() >= other.kind.spec_rank() {
            Some((self.kind.spec_rank() - other.kind.spec_rank()) as u8)
        } else {
            Some((other.kind.spec_rank() - self.kind.spec_rank()) as u8)
        }
    }

    /// The number of fingers between two fingers of one hand; `None` across hands.
    pub fn distance(&self, other: &Finger) -> (r: Option<u8>)
        ensures
            r == self.spec_distance(*other),
    {
        if self.hand != other.hand {
            return None;
        }
        let a = self.kind.rank();
        let b = other.kind.rank();
        if a >= b {
            Some(a - b)
        } else {
            Some(b - a)
        }
    }
}

/// A position in the key matrix: row and column.
#[derive(Clone, Copy, Debug, PartialEq, Eq, Hash, PartialOrd, Ord, Structural)]
pub struct Pos {
    pub r: usize,
    pub c: usize,
}

/// A key of a layout: the character it types and the properties of its place.
#[derive(Clone, Copy, Debug, PartialEq, Eq, Structural)]
pub struct Key {
    pub ch: char,
    pub position: Pos,
    pub finger: Finger,
    /// Whether the key is the home key of its finger.
    pub finger_home: bool,
    /// Horizontal coordinate of the key center, in thousandths of a key.
    pub x: i32,
    /// Vertical coordinate of the key center, in thousandths of a key.
    pub y: i32,
    /// Effort of pressing the key, in thousandths.
    pub effort: u32,
}

/// `|a - b|` on integers.
pub open spec fn abs_diff(a: int, b: int) -> int {
    if a >= b {
        a - b
    } else {
        b - a
    }
}

/// Whether `u` is the number of whole key units in a distance whose square,
/// in thousandths squared, is `d2`; counts above 255 are held at 255.
pub open spec fn is_whole_units_of_square(d2: int, u: int) -> bool {
    &&& 0 <= u <= 255
    &&& u * u * 1_000_000 <= d2
    &&& (u == 255 || d2 < (u + 1) * (u + 1) * 1_000_000)
}

/// Whole key units in a straight distance of `d` thousandths, held at 255.
pub open spec fn whole_units(d: int) -> u8 {
    if d / 1000 >= 255 {
        255
    } else {
        (d / 1000) as u8
    }
}

/// The whole key units of the Euclidean distance whose square is `d2`.
pub open spec fn units_of_square(d2: int) -> u8 {
    (choose|u: int| is_whole_units_of_square(d2, u)) as u8
}

proof fn lemma_whole_units_unique(d2: int, u: int, v: int)
    requires
        is_whole_units_of_square(d2, u),
        is_whole_units_of_square(d2, v),
    ensures
        u == v,
{
    if u < v {
        assert((u + 1) * (u + 1) <= v * v) by (nonlinear_arith)
            requires
                0 <= u < v,
        ;
    } else if v < u {
        assert((v + 1) * (v + 1) <= u * u) by (nonlinear_arith)
            requires
                0 <= v < u,
        ;
    }
}

impl Key {
    pub open spec fn spec_same_finger(self, other: Key) -> bool {
        self.finger == other.finger
    }

    /// Whether both keys are typed by the same finger.
    pub fn same_finger(&self, other: &Key) -> (r: bool)
        ensures
            r == self.spec_same_finger(*other),
    {
        self.finger == other.finger
    }

    pub open spec fn spec_row_distance(self, other: Key) -> int {
        abs_diff(self.y as int, other.y as int)
    }

    pub open spec fn spec_column_distance(self, other: Key) -> int {
        abs_diff(self.x as int, other.x as int)
    }

    /// Vertical distance between the key centers, in thousandths of a key.
    pub fn row_distance(&self, other: &Key) -> (r: u64)
        ensures
            r == self.spec_row_distance(*other),
    {
        let a = self.y as i64;
        let b = other.y as i64;
        if a >= b {
            (a - b) as u64
        } else {
            (b - a) as u64
        }
    }

    /// Horizontal distance between the key centers, in thousandths of a key.
    pub fn column_distance(&self, other: &Key) -> (r: u64)
        ensures
            r == self.spec_column_distance(*other),
    {
        let a = self.x as i64;
        let b = other.x as i64;
        if a >= b {
            (a - b) as u64
        } else {
            (b - a) as u64
        }
    }

    pub open spec fn spec_distance(self, other: Key) -> u8 {
        let dx = self.spec_column_distance(other);
        let dy = self.spec_row_distance(other);
        units_of_square(dx * dx + dy * dy)
    }

    /// Whole key units of the straight-line distance between the key centers
    /// (held at 255).
    pub fn distance(&self, other: &Key) -> (r: u8)
        ensures
            r == self.spec_distance(*other),
            is_whole_units_of_square(
                self.spec_column_distance(*other) * self.spec_column_distance(*other)
                    + self.spec_row_distance(*other) * self.spec_row_distance(*other),
                r as int,
            ),
    {
        let dx = self.column_distance(other) as u128;
        let dy = self.row_distance(other) as u128;
        assert(dx * dx <= 0x1_0000_0000u128 * 0x1_0000_0000u128) by (nonlinear_arith)
            requires
                dx <= 0x1_0000_0000u128,
        ;
        assert(dy * dy <= 0x1_0000_0000u128 * 0x1_0000_0000u128) by (nonlinear_arith)
            requires
                dy <= 0x1_0000_0000u128,
        ;
        let d2: u128 = dx * dx + dy * dy;
        let mut u: u128 = 0;
        loop
            invariant
                0 <= u <= 255,
                u * u * 1_000_000 <= d2,
            ensures
                0 <= u <= 255,
                u * u * 1_000_000 <= d2,
                u == 255 || d2 < (u + 1) * (u + 1) * 1_000_000,
            decreases 255 - u,
        {
            if u >= 255 {
                break;
            }
            let v = u + 1;
            assert(v * v <= 65536) by (nonlinear_arith)
                requires
                    v <= 256,
            ;
            if v * v * 1_000_000 > d2 {
                break;
            }
            u = v;
        }
        proof {
            let ghost d: int = d2 as int;
            assert(is_whole_units_of_square(d, u as int));
            let c = choose|v: int| is_whole_units_of_square(d, v);
            lemma_whole_units_unique(d, u as int, c);
        }
        u as u8
    }
}

/// A place on the keyboard that a character of a layout string can take.
#[derive(Clone, Copy, Debug, PartialEq, Eq, Structural)]
pub struct KeySlot {
    pub position: Pos,
    pub finger: Finger,
    pub finger_home: bool,
    pub x: i32,
    pub y: i32,
    pub effort: u32,
}

/// Why a layout string could not be laid on a keyboard.
#[derive(Clone, Copy, Debug, PartialEq, Eq, Structural)]
pub enum LayoutError {
    /// The character at this position has no key slot.
    MissingSlot { ch: char, position: Pos },
}

/// The row and column that the character after `text` takes: rows are
/// separated by `'\n'`, columns count the characters of a row.
pub open spec fn cursor(text: Seq<char>) -> Pos
    decreases text.len(),
{
    if text.len() == 0 {
        Pos { r: 0, c: 0 }
    } else {
        let p = cursor(text.drop_last());
        if text.last() == '\n' {
            Pos { r: (p.r + 1) as usize, c: 0 }
        } else {
            Pos { r: p.r, c: (p.c + 1) as usize }
        }
    }
}

/// The characters of a layout string with the position each takes, in order.
pub open spec fn placed_chars(text: Seq<char>) -> Seq<(char, Pos)>
    decreases text.len(),
{
    if text.len() == 0 {
        Seq::empty()
    } else if text.last() == '\n' {
        placed_chars(text.drop_last())
    } else {
        placed_chars(text.drop_last()).push((text.last(), cursor(text.drop_last())))
    }
}

/// Whether some slot has this position.
pub open spec fn has_slot(slots: Seq<KeySlot>, p: Pos) -> bool {
    exists|i: int| 0 <= i < slots.len() && slots[i].position == p
}

/// The first slot with this position.
pub open spec fn slot_index(slots: Seq<KeySlot>, p: Pos) -> int {
    choose|i: int|
        0 <= i < slots.len() && slots[i].position == p && forall|j: int|
            0 <= j < i ==> slots[j].position != p
}

pub open spec fn key_in_slot(s: KeySlot, ch: char) -> Key {
    Key {
        ch,
        position: s.position,
        finger: s.finger,
        finger_home: s.finger_home,
        x: s.x,
        y: s.y,
        effort: s.effort,
    }
}

/// The key that character `ch` gets at position `p`.
pub open spec fn key_at(slots: Seq<KeySlot>, ch: char, p: Pos) -> Key {
    key_in_slot(slots[slot_index(slots, p)], ch)
}

/// No two keys share a position.
pub open spec fn positions_distinct(keys: Seq<Key>) -> bool {
    forall|i: int, j: int|
        0 <= i < keys.len() && 0 <= j < keys.len() && i != j ==> keys[i].position
            != keys[j].position
}

/// Whether some key has this position.
pub open spec fn holds_position(keys: Seq<Key>, p: Pos) -> bool {
    exists|i: int| 0 <= i < keys.len() && keys[i].position == p
}

/// The index of the key at position `p` (meaningful when one holds it).
pub open spec fn index_at(keys: Seq<Key>, p: Pos) -> int {
    choose|i: int| 0 <= i < keys.len() && keys[i].position == p
}

/// The character at position `p` (meaningful when a key holds it).
pub open spec fn char_at_pos(keys: Seq<Key>, p: Pos) -> char {
    keys[index_at(keys, p)].ch
}

pub open spec fn with_char(k: Key, ch: char) -> Key {
    Key { ch, ..k }
}

/// The keys after the characters at `p1` and `p2` trade places; unchanged when
/// either position holds no key.
pub open spec fn swap_spec(keys: Seq<Key>, p1: Pos, p2: Pos) -> Seq<Key> {
    if holds_position(keys, p1) && holds_position(keys, p2) {
        let c1 = char_at_pos(keys, p1);
        let c2 = char_at_pos(keys, p2);
        Seq::new(
            keys.len(),
            |k: int|
                if keys[k].position == p1 {
                    with_char(keys[k], c2)
                } else if keys[k].position == p2 {
                    with_char(keys[k], c1)
                } else {
                    keys[k]
                },
        )
    } else {
        keys
    }
}

/// The keys after `ch` is put at position `p`; unchanged when no key holds `p`.
pub open spec fn set_spec(keys: Seq<Key>, p: Pos, ch: char) -> Seq<Key> {
    Seq::new(
        keys.len(),
        |k: int|
            if keys[k].position == p {
                with_char(keys[k], ch)
            } else {
                keys[k]
            },
    )
}

/// The characters of the keys, in key order.
pub open spec fn chars_of(keys: Seq<Key>) -> Seq<char> {
    keys.map_values(|k: Key| k.ch)
}

/// Everything about a key but its character.
pub open spec fn place_of(k: Key) -> KeySlot {
    KeySlot {
        position: k.position,
        finger: k.finger,
        finger_home: k.finger_home,
        x: k.x,
        y: k.y,
        effort: k.effort,
    }
}

/// The same keys in the same order, possibly with other characters on them.
pub open spec fn same_places(a: Seq<Key>, b: Seq<Key>) -> bool {
    a.len() == b.len() && forall|i: int| 0 <= i < a.len() ==> #[trigger] place_of(a[i]) == place_of(b[i])
}

/// One step of FNV-1a on a 64-bit state.
pub open spec fn hash_step(h: u64, ch: char) -> u64 {
    ((h ^ (ch as u64)) as nat * 0x100000001b3nat % 0x1_0000_0000_0000_0000nat) as u64
}

/// FNV-1a over the characters, in order.
pub open spec fn chars_hash(chars: Seq<char>) -> u64
    decreases chars.len(),
{
    if chars.len() == 0 {
        0xcbf29ce484222325u64
    } else {
        hash_step(chars_hash(chars.drop_last()), chars.last())
    }
}

/// A keyboard with a character on each key.
#[derive(Debug)]
pub struct Layout {
    keys: Vec<Key>,
}

impl View for Layout {
    type V = Seq<Key>;

    closed spec fn view(&self) -> Seq<Key> {
        self.keys@
    }
}

impl Clone for Layout {
    fn clone(&self) -> (r: Self)
        ensures
            r@ == self@,
    {
        proof {
            use_type_invariant(self);
        }
        let keys = self.keys.clone();
        assert(keys@ =~= self.keys@);
        Layout { keys }
    }
}

impl Layout {
    #[verifier::type_invariant]
    spec fn inv(self) -> bool {
        positions_distinct(self.keys@)
    }

    /// Lays the characters of `text` on the key slots: each line of `text` is a
    /// row, each character of a line a column. Fails on the first character
    /// whose position has no slot.
    pub fn new(text: &[char], slots: &[KeySlot]) -> (r: Result<Layout, LayoutError>)
        ensures
            match r {
                Ok(l) => (forall|i: int|
                    0 <= i < placed_chars(text@).len() ==> has_slot(
                        slots@,
                        #[trigger] placed_chars(text@)[i].1,
                    )) && l@ == keys_in_slots(slots@, placed_chars(text@)),
                Err(LayoutError::MissingSlot { ch, position }) => exists|i: int|
                    0 <= i < placed_chars(text@).len() && placed_chars(text@)[i] == (ch, position)
                        && !has_slot(slots@, position) && forall|j: int|
                        0 <= j < i ==> has_slot(slots@, #[trigger] placed_chars(text@)[j].1),
            },
    {
        let mut keys: Vec<Key> = Vec::new();
        let mut row: usize = 0;
        let mut col: usize = 0;
        let mut n: usize = 0;
        let ghost mut placed: Seq<(char, Pos)> = Seq::empty();
        while n < text.len()
            invariant
                n <= text@.len(),
                placed == placed_chars(text@.take(n as int)),
                cursor(text@.take(n as int)) == (Pos { r: row, c: col }),
                row <= n,
                col <= n,
                keys@ == keys_in_slots(slots@, placed),
                forall|i: int| 0 <= i < placed.len() ==> has_slot(slots@, #[trigger] placed[i].1),
                forall|i: int|
                    0 <= i < keys@.len() ==> (#[trigger] keys@[i]).position.r < row || (
                    keys@[i].position.r == row && keys@[i].position.c < col),
                positions_distinct(keys@),
            decreases text@.len() - n,
        {
            let ch = text[n];
            proof {
                lemma_placed_chars_step(text@, n as int);
            }
            if ch == '\n' {
                row = row + 1;
                col = 0;
            } else {
                let here = Pos { r: row, c: col };
                match find_slot(slots, &here) {
                    None => {
                        proof {
                            lemma_placed_chars_prefix(text@, n + 1);
                            let pc = placed_chars(text@.take(n + 1));
                            let w = pc.len() - 1;
                            assert(pc[w] == (ch, here));
                            assert(placed_chars(text@)[w] == (ch, here));
                            assert forall|j: int| 0 <= j < w implies has_slot(
                                slots@,
                                #[trigger] placed_chars(text@)[j].1,
                            ) by {
                                assert(placed_chars(text@)[j] == pc[j]);
                                assert(pc[j] == placed[j]);
                            }
                        }
                        return Err(LayoutError::MissingSlot { ch, position: here });
                    },
                    Some(si) => {
                        let key = key_for_slot(&slots[si], ch);
                        proof {
                            lemma_slot_index(slots@, here, si as int);
                            lemma_keys_in_slots_push(slots@, placed, (ch, here));
                            placed = placed.push((ch, here));
                        }
                        keys.push(key);
                        col = col + 1;
                    },
                }
            }
            n = n + 1;
        }
        assert(text@.take(n as int) =~= text@);
        Ok(Layout { keys })
    }
}

impl Layout {
    /// The keys, in the order the layout string gave them.
    pub fn keys(&self) -> (r: &[Key])
        ensures
            r@ == self@,
            positions_distinct(self@),
    {
        proof {
            use_type_invariant(self);
        }
        self.keys.as_slice()
    }

    /// The number of keys.
    pub fn len(&self) -> (r: usize)
        ensures
            r == self@.len(),
    {
        self.keys.len()
    }

    fn index_of(&self, p: &Pos) -> (r: Option<usize>)
        ensures
            match r {
                Some(i) => i < self@.len() && self@[i as int].position == *p && index_at(self@, *p)
                    == i,
                None => !holds_position(self@, *p),
            },
    {
        proof {
            use_type_invariant(self);
        }
        let mut i: usize = 0;
        while i < self.keys.len()
            invariant
                i <= self.keys@.len(),
                positions_distinct(self.keys@),
                forall|j: int| 0 <= j < i ==> self.keys@[j].position != *p,
            decreases self.keys@.len() - i,
        {
            if self.keys[i].position == *p {
                proof {
                    lemma_index_at(self.keys@, *p, i as int);
                }
                return Some(i);
            }
            i = i + 1;
        }
        None
    }

    /// The first key that types `ch`.
    pub fn key_for(&self, ch: char) -> (r: Option<&Key>)
        ensures
            match r {
                Some(k) => exists|i: int|
                    0 <= i < self@.len() && self@[i] == *k && k.ch == ch && forall|j: int|
                        0 <= j < i ==> self@[j].ch != ch,
                None => forall|i: int| 0 <= i < self@.len() ==> self@[i].ch != ch,
            },
    {
        let mut i: usize = 0;
        while i < self.keys.len()
            invariant
                i <= self.keys@.len(),
                forall|j: int| 0 <= j < i ==> self.keys@[j].ch != ch,
            decreases self.keys@.len() - i,
        {
            if self.keys[i].ch == ch {
                return Some(&self.keys[i]);
            }
            i = i + 1;
        }
        None
    }

    /// The character on the key at `p`, if a key is there.
    pub fn char_at(&self, p: &Pos) -> (r: Option<char>)
        ensures
            r == (if holds_position(self@, *p) {
                Some(char_at_pos(self@, *p))
            } else {
                None
            }),
    {
        match self.index_of(p) {
            Some(i) => Some(self.keys[i].ch),
            None => None,
        }
    }

    /// Puts `ch` on the key at `p`; nothing changes when no key is at `p`.
    pub fn set_char(&mut self, p: &Pos, ch: char)
        ensures
            final(self)@ == set_spec(old(self)@, *p, ch),
            positions_distinct(final(self)@),
    {
        proof {
            use_type_invariant(&*self);
        }
        let ghost before = self.keys@;
        match self.index_of(p) {
            Some(i) => {
                let mut keys: Vec<Key> = Vec::new();
                std::mem::swap(&mut keys, &mut self.keys);
                let mut k = keys[i];
                k.ch = ch;
                keys.set(i, k);
                assert(keys@ =~= set_spec(before, *p, ch));
                self.keys = keys;
            },
            None => {
                assert(self.keys@ =~= set_spec(before, *p, ch));
            },
        }
    }

    /// Trades the characters of the keys at `p1` and `p2`; nothing changes
    /// when either position has no key.
    pub fn swap_chars(&mut self, p1: &Pos, p2: &Pos)
        ensures
            final(self)@ == swap_spec(old(self)@, *p1, *p2),
            positions_distinct(final(self)@),
    {
        proof {
            use_type_invariant(&*self);
        }
        let ghost before = self.keys@;
        let i1 = self.index_of(p1);
        let i2 = self.index_of(p2);
        match (i1, i2) {
            (Some(i), Some(j)) => {
                let mut keys: Vec<Key> = Vec::new();
                std::mem::swap(&mut keys, &mut self.keys);
                let c1 = keys[i].ch;
                let c2 = keys[j].ch;
                let mut k1 = keys[i];
                k1.ch = c2;
                keys.set(i, k1);
                let mut k2 = keys[j];
                k2.ch = c1;
                keys.set(j, k2);
                assert(keys@ =~= swap_spec(before, *p1, *p2));
                self.keys = keys;
            },
            _ => {
                assert(self.keys@ =~= swap_spec(before, *p1, *p2));
            },
        }
    }

    /// A fingerprint of the characters of the layout in key order
    /// (64-bit FNV-1a).
    pub fn hash(&self) -> (r: u64)
        ensures
            r == chars_hash(chars_of(self@)),
    {
        let mut h: u64 = 0xcbf29ce484222325u64;
        let mut i: usize = 0;
        while i < self.keys.len()
            invariant
                i <= self.keys@.len(),
                h == chars_hash(chars_of(self.keys@).take(i as int)),
            decreases self.keys@.len() - i,
        {
            let ch = self.keys[i].ch;
            proof {
                let t = chars_of(self.keys@).take(i + 1);
                assert(t.drop_last() =~= chars_of(self.keys@).take(i as int));
                assert(t.last() == ch);
            }
            h = (h ^ (ch as u64)).wrapping_mul(0x100000001b3u64);
            i = i + 1;
        }
        assert(chars_of(self.keys@).take(i as int) =~= chars_of(self.keys@));
        h
    }
}

/// With distinct positions, the key at a position is the only one there.
pub proof fn lemma_index_at(keys: Seq<Key>, p: Pos, i: int)
    requires
        positions_distinct(keys),
        0 <= i < keys.len(),
        keys[i].position == p,
    ensures
        holds_position(keys, p),
        index_at(keys, p) == i,
        char_at_pos(keys, p) == keys[i].ch,
{
    let c = index_at(keys, p);
    assert(0 <= c < keys.len() && keys[c].position == p);
}

/// The keys that the placed characters get on the slots.
pub open spec fn keys_in_slots(slots: Seq<KeySlot>, placed: Seq<(char, Pos)>) -> Seq<Key> {
    placed.map_values(|cp: (char, Pos)| key_at(slots, cp.0, cp.1))
}

proof fn lemma_keys_in_slots_push(slots: Seq<KeySlot>, placed: Seq<(char, Pos)>, cp: (char, Pos))
    ensures
        keys_in_slots(slots, placed.push(cp)) == keys_in_slots(slots, placed).push(
            key_at(slots, cp.0, cp.1),
        ),
{
    assert(keys_in_slots(slots, placed.push(cp)) =~= keys_in_slots(slots, placed).push(
        key_at(slots, cp.0, cp.1),
    ));
}

proof fn lemma_slot_index(slots: Seq<KeySlot>, p: Pos, i: int)
    requires
        0 <= i < slots.len(),
        slots[i].position == p,
        forall|j: int| 0 <= j < i ==> slots[j].position != p,
    ensures
        slot_index(slots, p) == i,
        has_slot(slots, p),
{
    let c = slot_index(slots, p);
    if c < i {
    } else if c > i {
    }
}

/// Reading one more character of a text places it unless it ends a line.
proof fn lemma_placed_chars_step(text: Seq<char>, n: int)
    requires
        0 <= n < text.len(),
    ensures
        text.take(n + 1).drop_last() == text.take(n),
        placed_chars(text.take(n + 1)) == (if text[n] == '\n' {
            placed_chars(text.take(n))
        } else {
            placed_chars(text.take(n)).push((text[n], cursor(text.take(n))))
        }),
        cursor(text.take(n + 1)) == (if text[n] == '\n' {
            Pos { r: (cursor(text.take(n)).r + 1) as usize, c: 0 }
        } else {
            Pos { r: cursor(text.take(n)).r, c: (cursor(text.take(n)).c + 1) as usize }
        }),
{
    assert(text.take(n + 1).drop_last() =~= text.take(n));
    assert(text.take(n + 1).last() == text[n]);
}

fn key_for_slot(s: &KeySlot, ch: char) -> (r: Key)
    ensures
        r == key_in_slot(*s, ch),
{
    Key {
        ch,
        position: s.position,
        finger: s.finger,
        finger_home: s.finger_home,
        x: s.x,
        y: s.y,
        effort: s.effort,
    }
}

/// The first slot at position `p`.
fn find_slot(slots: &[KeySlot], p: &Pos) -> (r: Option<usize>)
    ensures
        match r {
            Some(i) => i < slots@.len() && slots@[i as int].position == *p && forall|j: int|
                0 <= j < i ==> slots@[j].position != *p,
            None => !has_slot(slots@, *p),
        },
{
    let mut i: usize = 0;
    while i < slots.len()
        invariant
            i <= slots@.len(),
            forall|j: int| 0 <= j < i ==> slots@[j].position != *p,
        decreases slots@.len() - i,
    {
        if slots[i].position == *p {
            return Some(i);
        }
        i = i + 1;
    }
    None
}

/// The characters placed by a prefix of a text are a prefix of those placed
/// by the whole text.
proof fn lemma_placed_chars_prefix(text: Seq<char>, n: int)
    requires
        0 <= n <= text.len(),
    ensures
        placed_chars(text.take(n)).len() <= placed_chars(text).len(),
        forall|i: int|
            0 <= i < placed_chars(text.take(n)).len() ==> placed_chars(text)[i] == #[trigger] placed_chars(
                text.take(n),
            )[i],
    decreases text.len() - n,
{
    if n < text.len() {
        lemma_placed_chars_prefix(text, n + 1);
        assert(text.take(n + 1).drop_last() =~= text.take(n));
        let a = placed_chars(text.take(n));
        let b = placed_chars(text.take(n + 1));
        assert(b == a || b == a.push((text[n], cursor(text.take(n)))));
        assert forall|i: int| 0 <= i < a.len() implies placed_chars(text)[i] == #[trigger] a[i] by {
            assert(b[i] == a[i]);
        }
    } else {
        assert(text.take(n) =~= text);
    }
}

/// Trading the characters of two positions keeps every key in its place,
/// keeps positions distinct, leaves the keys at other positions alone and
/// keeps the characters of the layout, each as often.
pub proof fn lemma_swap_keeps(keys: Seq<Key>, p1: Pos, p2: Pos)
    requires
        positions_distinct(keys),
    ensures
        same_places(swap_spec(keys, p1, p2), keys),
        positions_distinct(swap_spec(keys, p1, p2)),
        forall|i: int|
            0 <= i < keys.len() && keys[i].position != p1 && keys[i].position != p2 ==> #[trigger] swap_spec(
                keys,
                p1,
                p2,
            )[i] == keys[i],
        chars_of(swap_spec(keys, p1, p2)).to_multiset() == chars_of(keys).to_multiset(),
{
    broadcast use vstd::seq_lib::to_multiset_update;

    let s = swap_spec(keys, p1, p2);
    assert(same_places(s, keys));
    if holds_position(keys, p1) && holds_position(keys, p2) {
        let i1 = index_at(keys, p1);
        let i2 = index_at(keys, p2);
        lemma_index_at(keys, p1, i1);
        lemma_index_at(keys, p2, i2);
        let c1 = keys[i1].ch;
        let c2 = keys[i2].ch;
        let cs = chars_of(keys);
        if i1 == i2 {
            assert(chars_of(s) =~= cs);
        } else {
            let u = cs.update(i1, c2);
            assert(chars_of(s) =~= u.update(i2, c1));
            assert(u[i2] == c2);
            assert(u.to_multiset() == cs.to_multiset().insert(c2).remove(c1));
            assert(u.update(i2, c1).to_multiset() == u.to_multiset().insert(c1).remove(c2));
            let m = cs.to_multiset();
            assert(cs[i1] == c1);
            assert(m.count(c1) > 0) by {
                broadcast use vstd::seq_lib::to_multiset_contains;

                assert(cs.contains(c1));
            }
            assert(m.insert(c2).remove(c1).insert(c1).remove(c2) =~= m) by {
                broadcast use vstd::multiset::group_multiset_axioms;

            }
        }
    } else {
        assert(chars_of(s) =~= chars_of(keys));
    }
}

/// Trading the characters of two positions twice gives back the layout.
pub proof fn lemma_swap_twice(keys: Seq<Key>, p1: Pos, p2: Pos)
    requires
        positions_distinct(keys),
    ensures
        swap_spec(swap_spec(keys, p1, p2), p1, p2) == keys,
{
    let s = swap_spec(keys, p1, p2);
    lemma_swap_keeps(keys, p1, p2);
    if holds_position(keys, p1) && holds_position(keys, p2) {
        let i1 = index_at(keys, p1);
        let i2 = index_at(keys, p2);
        lemma_index_at(keys, p1, i1);
        lemma_index_at(keys, p2, i2);
        assert(s[i1].position == p1 && s[i2].position == p2);
        lemma_index_at(s, p1, i1);
        lemma_index_at(s, p2, i2);
        assert(swap_spec(s, p1, p2) =~= keys);
    }
}

/// Keys in the same places hold the same positions, each at the same index.
proof fn lemma_same_positions(x: Seq<Key>, y: Seq<Key>)
    requires
        same_places(x, y),
        positions_distinct(x),
        positions_distinct(y),
    ensures
        forall|p: Pos| #[trigger] holds_position(x, p) == holds_position(y, p),
        forall|p: Pos| holds_position(y, p) ==> #[trigger] index_at(x, p) == index_at(y, p),
{
    assert forall|p: Pos| #[trigger] holds_position(x, p) == holds_position(y, p) by {
        if holds_position(y, p) {
            let i = choose|i: int| 0 <= i < y.len() && y[i].position == p;
            assert(place_of(x[i]) == place_of(y[i]));
        }
        if holds_position(x, p) {
            let i = choose|i: int| 0 <= i < x.len() && x[i].position == p;
            assert(place_of(x[i]) == place_of(y[i]));
        }
    }
    assert forall|p: Pos| holds_position(y, p) implies #[trigger] index_at(x, p) == index_at(y, p) by {
        let i = index_at(y, p);
        assert(0 <= i < y.len() && y[i].position == p);
        assert(place_of(x[i]) == place_of(y[i]));
        lemma_index_at(x, p, i);
    }
}

/// Trading the characters of two pairs of positions that share no position
/// gives the same keys in either order.
pub proof fn lemma_swap_commute(keys: Seq<Key>, a: Pos, b: Pos, c: Pos, d: Pos)
    requires
        positions_distinct(keys),
        a != c,
        a != d,
        b != c,
        b != d,
    ensures
        swap_spec(swap_spec(keys, a, b), c, d) == swap_spec(swap_spec(keys, c, d), a, b),
{
    let ab = swap_spec(keys, a, b);
    let cd = swap_spec(keys, c, d);
    lemma_swap_keeps(keys, a, b);
    lemma_swap_keeps(keys, c, d);
    lemma_same_positions(ab, keys);
    lemma_same_positions(cd, keys);
    if holds_position(keys, c) {
        let i = index_at(keys, c);
        assert(ab[i] == keys[i]);
        assert(char_at_pos(ab, c) == char_at_pos(keys, c));
    }
    if holds_position(keys, d) {
        let i = index_at(keys, d);
        assert(ab[i] == keys[i]);
        assert(char_at_pos(ab, d) == char_at_pos(keys, d));
    }
    if holds_position(keys, a) {
        let i = index_at(keys, a);
        assert(cd[i] == keys[i]);
        assert(char_at_pos(cd, a) == char_at_pos(keys, a));
    }
    if holds_position(keys, b) {
        let i = index_at(keys, b);
        assert(cd[i] == keys[i]);
        assert(char_at_pos(cd, b) == char_at_pos(keys, b));
    }
    assert(swap_spec(ab, c, d) =~= swap_spec(cd, a, b));
}

/// Putting a character on the key at a held position keeps every key in its
/// place, changes only that key, and trades one occurrence of the old
/// character for the new one.
pub proof fn lemma_set_keeps(keys: Seq<Key>, p: Pos, ch: char)
    requires
        positions_distinct(keys),
        holds_position(keys, p),
    ensures
        same_places(set_spec(keys, p, ch), keys),
        positions_distinct(set_spec(keys, p, ch)),
        forall|i: int|
            0 <= i < keys.len() && keys[i].position != p ==> #[trigger] set_spec(keys, p, ch)[i]
                == keys[i],
        holds_position(set_spec(keys, p, ch), p),
        char_at_pos(set_spec(keys, p, ch), p) == ch,
        chars_of(set_spec(keys, p, ch)).to_multiset() == chars_of(keys).to_multiset().insert(
            ch,
        ).remove(char_at_pos(keys, p)),
{
    broadcast use vstd::seq_lib::to_multiset_update;

    let s = set_spec(keys, p, ch);
    let i = index_at(keys, p);
    lemma_index_at(keys, p, i);
    assert(same_places(s, keys));
    assert(s[i].position == p);
    lemma_index_at(s, p, i);
    assert(chars_of(s) =~= chars_of(keys).update(i, ch));
}

} // verus!
