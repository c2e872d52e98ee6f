//! Layouts under optimization: the moves that respect pinned characters and a
//! limit on how many keys may differ from the start, and a cache of scores.
pub mod hill_climb;
pub mod simulated_annealing;

use std::collections::{HashMap, HashSet};
use vstd::prelude::*;

use rand::rngs::StdRng;

use crate::layout::{
    char_at_pos, chars_hash, chars_of, holds_position, index_at, lemma_index_at, lemma_set_keeps,
    place_of, positions_distinct, same_places, set_spec, Key, Layout, Pos,
};
use crate::random::{partial_shuffle, shuffle};
use crate::swaps::{
    all_moves_of, apply_pairs, built_groups, held, lemma_apply_keeps, lemma_built_within,
    pairs_avoid, pairs_within, total_weight, weight_of, SwapMoveBuilder, SwapMoveStrategy,
    SwapMoves,
};

verus! {

broadcast use vstd::std_specs::hash::group_hash_axioms;

/// How often `perturb` draws a move at most.
pub const MAX_PERTURB_ATTEMPTS: usize = 30;

/// How an optimization runs.
pub struct RunOptions {
    /// How many restarts of hill climbing, or steps of annealing.
    pub iterations: usize,
    /// The seed of the random choices.
    pub seed: u64,
    /// The characters that stay where they are.
    pub pinned: Vec<char>,
    /// The most keys that may differ from the start, if limited.
    pub max_swapped: Option<usize>,
    /// Whether to shuffle the layout before optimizing it.
    pub shuffle: bool,
}

/// The optimization algorithms.
#[derive(Clone, Copy, Debug, PartialEq, Eq, Structural)]
pub enum Algorithm {
    HillClimb,
    SimulatedAnnealing,
}

/// The key under which a layout's score is cached.
pub open spec fn layout_key(keys: Seq<Key>) -> u64 {
    chars_hash(chars_of(keys))
}

/// One use of the cache under `key`: a cached score is returned and nothing
/// changes; otherwise the returned score is cached under `key`.
pub open spec fn cache_lookup<S>(before: Map<u64, S>, key: u64, r: S, after: Map<u64, S>) -> bool {
    if before.contains_key(key) {
        r == before[key] && after == before
    } else {
        after == before.insert(key, r)
    }
}

/// Asking the cache twice for the same key gives the same score and leaves
/// the cache as the first ask left it.
pub proof fn lemma_cache_repeat<S>(
    m0: Map<u64, S>,
    key: u64,
    r1: S,
    m1: Map<u64, S>,
    r2: S,
    m2: Map<u64, S>,
)
    requires
        cache_lookup(m0, key, r1, m1),
        cache_lookup(m1, key, r2, m2),
    ensures
        r2 == r1,
        m2 == m1,
{
}

/// Some layout with these keys is scored `s` by `f`.
pub open spec fn scored<G: Fn(&Layout) -> u64>(f: G, keys: Seq<Key>, s: u64) -> bool {
    exists|c: Layout| c@ == keys && #[trigger] f.ensures((&c,), s)
}

/// The keys are those of `origin`, in the same places, with its characters
/// rearranged.
pub open spec fn rearrangement_of(origin: Seq<Key>, keys: Seq<Key>) -> bool {
    &&& same_places(keys, origin)
    &&& chars_of(keys).to_multiset() == chars_of(origin).to_multiset()
}

/// Some rearrangement of `origin` with the fingerprint of these keys is
/// scored `s` by `f`.
pub open spec fn fingerprint_scored<G: Fn(&Layout) -> u64>(
    f: G,
    origin: Seq<Key>,
    keys: Seq<Key>,
    s: u64,
) -> bool {
    exists|c: Layout|
        rearrangement_of(origin, c@) && layout_key(c@) == layout_key(keys) && #[trigger] f.ensures(
            (&c,),
            s,
        )
}

/// Every cached score is the score `f` gives some rearrangement of `origin`
/// with its fingerprint.
pub open spec fn cache_scored<G: Fn(&Layout) -> u64>(
    f: G,
    origin: Seq<Key>,
    m: Map<u64, u64>,
) -> bool {
    forall|k: u64|
        #[trigger] m.contains_key(k) ==> exists|c: Layout|
            rearrangement_of(origin, c@) && layout_key(c@) == k && f.ensures((&c,), m[k])
}

/// Looking up a rearrangement of `origin` in a cache of scores by `f`,
/// computing a missing score with `g` (whose results `f` would give too),
/// keeps the cache so and gives a score of a rearrangement with the same
/// fingerprint.
pub proof fn lemma_cache_step<G: Fn(&Layout) -> u64, H: Fn(&Layout) -> u64>(
    f: G,
    g: H,
    origin: Seq<Key>,
    m0: Map<u64, u64>,
    l: Layout,
    r: u64,
    m1: Map<u64, u64>,
)
    requires
        rearrangement_of(origin, l@),
        cache_scored(f, origin, m0),
        cache_lookup(m0, layout_key(l@), r, m1),
        !m0.contains_key(layout_key(l@)) ==> g.ensures((&l,), r),
        forall|x: &Layout, s: u64| g.ensures((x,), s) ==> f.ensures((x,), s),
    ensures
        cache_scored(f, origin, m1),
        fingerprint_scored(f, origin, l@, r),
{
    let key = layout_key(l@);
    if m0.contains_key(key) {
        let c = choose|c: Layout|
            rearrangement_of(origin, c@) && layout_key(c@) == key && f.ensures((&c,), m0[key]);
        assert(f.ensures((&c,), r));
    } else {
        assert(f.ensures((&l,), r));
        assert forall|k: u64| #[trigger] m1.contains_key(k) implies exists|c: Layout|
            rearrangement_of(origin, c@) && layout_key(c@) == k && f.ensures((&c,), m1[k]) by {
            if k == key {
                assert(rearrangement_of(origin, l@) && layout_key(l@) == k && f.ensures((&l,), m1[k]));
            } else {
                assert(m0.contains_key(k));
            }
        }
    }
}

/// A score at most the one the start had: `f` scores `start` `s0` and some
/// rearrangement of `origin` with the result's fingerprint `s`, `s <= s0`.
pub open spec fn no_worse<G: Fn(&Layout) -> u64>(
    f: G,
    origin: Seq<Key>,
    start: Seq<Key>,
    result: Seq<Key>,
) -> bool {
    exists|s0: u64, s: u64|
        #![trigger scored(f, start, s0), fingerprint_scored(f, origin, result, s)]
        s <= s0 && scored(f, start, s0) && fingerprint_scored(f, origin, result, s)
}

/// No move (of `groups`) from `current` gives an admissible layout (with no
/// tabu) that `f` scores below `s`.
pub open spec fn no_move_below_keys<F: Fn(&Layout) -> u64>(
    f: F,
    current: Seq<Key>,
    initial: Seq<Key>,
    groups: Seq<(SwapMoveStrategy, Seq<Seq<(Pos, Pos)>>)>,
    limit: Option<usize>,
    s: u64,
) -> bool {
    forall|j: int|
        0 <= j < all_moves_of(groups).len() && admissible(
            #[trigger] apply_pairs(current, all_moves_of(groups)[j]),
            initial,
            Set::empty(),
            limit,
        ) ==> exists|c: Layout, v: u64|
            c@ == apply_pairs(current, all_moves_of(groups)[j]) && #[trigger] f.ensures((&c,), v) && v
                >= s
}

/// Having no move below a score means having none below any lower score.
pub proof fn lemma_no_move_below_lower<F: Fn(&Layout) -> u64>(
    f: F,
    current: Seq<Key>,
    initial: Seq<Key>,
    groups: Seq<(SwapMoveStrategy, Seq<Seq<(Pos, Pos)>>)>,
    limit: Option<usize>,
    s1: u64,
    s2: u64,
)
    requires
        no_move_below_keys(f, current, initial, groups, limit, s1),
        s2 <= s1,
    ensures
        no_move_below_keys(f, current, initial, groups, limit, s2),
{
    assert forall|j: int|
        0 <= j < all_moves_of(groups).len() && admissible(
            #[trigger] apply_pairs(current, all_moves_of(groups)[j]),
            initial,
            Set::empty(),
            limit,
        ) implies exists|c: Layout, v: u64|
        c@ == apply_pairs(current, all_moves_of(groups)[j]) && #[trigger] f.ensures((&c,), v) && v
            >= s2 by {
        let (c, v) = choose|c: Layout, v: u64|
            c@ == apply_pairs(current, all_moves_of(groups)[j]) && #[trigger] f.ensures((&c,), v) && v
                >= s1;
    }
}

/// Scores of layouts already seen, by layout fingerprint.
pub struct LayoutScores<S> {
    scores: HashMap<u64, S>,
}

impl<S> View for LayoutScores<S> {
    type V = Map<u64, S>;

    closed spec fn view(&self) -> Map<u64, S> {
        self.scores@
    }
}

impl<S: Copy> LayoutScores<S> {
    pub fn new() -> (r: Self)
        ensures
            r@ == Map::<u64, S>::empty(),
    {
        LayoutScores { scores: HashMap::new() }
    }

    /// The cached score of the layout; computed with `score_fn`, and cached,
    /// when there is none.
    pub fn get_or_compute<F: Fn(&Layout) -> S>(&mut self, layout: &Layout, score_fn: F) -> (r: S)
        requires
            score_fn.requires((layout,)),
        ensures
            cache_lookup(old(self)@, layout_key(layout@), r, final(self)@),
            !old(self)@.contains_key(layout_key(layout@)) ==> score_fn.ensures((layout,), r),
    {
        let hash = layout.hash();
        match self.scores.get(&hash) {
            Some(score) => *score,
            None => {
                let score = score_fn(layout);
                self.scores.insert(hash, score);
                score
            },
        }
    }
}

/// The positions of the keys whose characters are not pinned, in key order.
pub open spec fn movable_positions(keys: Seq<Key>, pinned: Seq<char>) -> Seq<Pos>
    decreases keys.len(),
{
    if keys.len() == 0 {
        Seq::empty()
    } else {
        let m = movable_positions(keys.drop_last(), pinned);
        if pinned.contains(keys.last().ch) {
            m
        } else {
            m.push(keys.last().position)
        }
    }
}

/// Every movable position is the position of a key whose character is not
/// pinned.
proof fn lemma_movable_from_keys(keys: Seq<Key>, pinned: Seq<char>, t: int)
    requires
        0 <= t < movable_positions(keys, pinned).len(),
    ensures
        exists|i: int|
            0 <= i < keys.len() && keys[i].position == movable_positions(keys, pinned)[t]
                && !pinned.contains(keys[i].ch),
    decreases keys.len(),
{
    let m = movable_positions(keys.drop_last(), pinned);
    if t < m.len() {
        lemma_movable_from_keys(keys.drop_last(), pinned, t);
        let i = choose|i: int|
            0 <= i < keys.drop_last().len() && keys.drop_last()[i].position == m[t]
                && !pinned.contains(keys.drop_last()[i].ch);
        assert(keys[i] == keys.drop_last()[i]);
    } else {
        assert(keys[keys.len() - 1] == keys.last());
    }
}

/// A key whose character is pinned is not at a movable position.
pub proof fn lemma_pinned_not_movable(keys: Seq<Key>, pinned: Seq<char>, i: int)
    requires
        positions_distinct(keys),
        0 <= i < keys.len(),
        pinned.contains(keys[i].ch),
    ensures
        !movable_positions(keys, pinned).contains(keys[i].position),
{
    let m = movable_positions(keys, pinned);
    if m.contains(keys[i].position) {
        let t = choose|t: int| 0 <= t < m.len() && m[t] == keys[i].position;
        lemma_movable_from_keys(keys, pinned, t);
        let j = choose|j: int|
            0 <= j < keys.len() && keys[j].position == m[t] && !pinned.contains(keys[j].ch);
        assert(i != j);
    }
}

/// An optimizable layout started with `pinned` characters keeps each of them
/// on the key it started on, whatever moves were applied.
pub proof fn lemma_pinned_stay(
    initial: Seq<Key>,
    current: Seq<Key>,
    pinned: Seq<char>,
    groups: Seq<(SwapMoveStrategy, Seq<Seq<(Pos, Pos)>>)>,
)
    requires
        well_placed(initial, current, movable_positions(initial, pinned), groups),
    ensures
        forall|i: int|
            0 <= i < initial.len() && pinned.contains(initial[i].ch) ==> (#[trigger] current[i]).ch
                == initial[i].ch,
{
    assert forall|i: int| 0 <= i < initial.len() && pinned.contains(initial[i].ch) implies (
    #[trigger] current[i]).ch == initial[i].ch by {
        lemma_pinned_not_movable(initial, pinned, i);
    }
}

/// Among the first `n` keys, how many carry different characters.
pub open spec fn diff_upto(a: Seq<Key>, b: Seq<Key>, n: int) -> nat
    decreases n,
{
    if n <= 0 {
        0
    } else {
        diff_upto(a, b, n - 1) + if a[n - 1].ch != b[n - 1].ch {
            1nat
        } else {
            0nat
        }
    }
}

/// How many keys, paired in order, carry different characters.
pub open spec fn diff_count(a: Seq<Key>, b: Seq<Key>) -> nat {
    diff_upto(a, b, if a.len() <= b.len() { a.len() as int } else { b.len() as int })
}

/// What an optimizable layout keeps true: the current keys are the starting
/// keys with the characters rearranged, every move stays on movable positions,
/// and keys at other positions keep their starting characters.
pub open spec fn well_placed(
    initial: Seq<Key>,
    current: Seq<Key>,
    movable: Seq<Pos>,
    groups: Seq<(SwapMoveStrategy, Seq<Seq<(Pos, Pos)>>)>,
) -> bool {
    &&& positions_distinct(initial)
    &&& positions_distinct(current)
    &&& movable.no_duplicates()
    &&& forall|t: int| 0 <= t < movable.len() ==> holds_position(initial, #[trigger] movable[t])
    &&& same_places(current, initial)
    &&& chars_of(current).to_multiset() == chars_of(initial).to_multiset()
    &&& forall|m: int|
        0 <= m < all_moves_of(groups).len() ==> pairs_within(#[trigger] all_moves_of(groups)[m], movable)
    &&& forall|i: int|
        0 <= i < initial.len() && !movable.contains(initial[i].position) ==> (#[trigger] current[i]).ch
            == initial[i].ch
}

/// A move on movable positions keeps a layout well placed.
pub proof fn lemma_apply_well_placed(
    initial: Seq<Key>,
    current: Seq<Key>,
    movable: Seq<Pos>,
    groups: Seq<(SwapMoveStrategy, Seq<Seq<(Pos, Pos)>>)>,
    pairs: Seq<(Pos, Pos)>,
)
    requires
        well_placed(initial, current, movable, groups),
        pairs_within(pairs, movable),
    ensures
        well_placed(initial, apply_pairs(current, pairs), movable, groups),
{
    let next = apply_pairs(current, pairs);
    lemma_apply_keeps(current, pairs);
    assert forall|i: int|
        0 <= i < initial.len() && !movable.contains(initial[i].position) implies (#[trigger] next[i]).ch
        == initial[i].ch by {
        assert(place_of(current[i]) == place_of(initial[i]));
        assert(pairs_avoid(pairs, current[i].position));
    }
}

fn contains_char(chars: &[char], ch: char) -> (r: bool)
    ensures
        r == chars@.contains(ch),
{
    let mut i: usize = 0;
    while i < chars.len()
        invariant
            i <= chars@.len(),
            forall|j: int| 0 <= j < i ==> chars@[j] != ch,
        decreases chars@.len() - i,
    {
        if chars[i] == ch {
            assert(chars@[i as int] == ch);
            return true;
        }
        i = i + 1;
    }
    false
}

/// How many keys, paired in order, carry different characters.
fn diff_between(layout: &Layout, initial: &Layout) -> (r: usize)
    ensures
        r == diff_count(layout@, initial@),
{
    let a = layout.keys();
    let b = initial.keys();
    let n = if a.len() <= b.len() {
        a.len()
    } else {
        b.len()
    };
    let mut count: usize = 0;
    let mut i: usize = 0;
    while i < n
        invariant
            a@ == layout@,
            b@ == initial@,
            n <= a@.len(),
            n <= b@.len(),
            n == (if a@.len() <= b@.len() {
                a@.len()
            } else {
                b@.len()
            }),
            i <= n,
            count == diff_upto(a@, b@, i as int),
            count <= i,
        decreases n - i,
    {
        if a[i].ch != b[i].ch {
            count = count + 1;
        }
        i = i + 1;
    }
    count
}

/// A copy of the positions.
fn copy_positions(v: &Vec<Pos>) -> (r: Vec<Pos>)
    ensures
        r@ == v@,
{
    let mut out: Vec<Pos> = Vec::new();
    let mut t: usize = 0;
    while t < v.len()
        invariant
            t <= v@.len(),
            out@ == v@.take(t as int),
        decreases v@.len() - t,
    {
        out.push(v[t]);
        proof {
            assert(v@.take(t + 1) =~= v@.take(t as int).push(v@[t as int]));
        }
        t = t + 1;
    }
    assert(v@.take(t as int) =~= v@);
    out
}

/// A layout being optimized, with the layout it started from.
pub struct OptimizableLayout {
    initial_layout: Layout,
    layout: Layout,
    max_swapped: Option<usize>,
    swap_moves: SwapMoves,
    movable_positions: Vec<Pos>,
}

impl OptimizableLayout {
    #[verifier::type_invariant]
    spec fn inv(self) -> bool {
        well_placed(
            self.initial_layout@,
            self.layout@,
            self.movable_positions@,
            self.swap_moves@,
        )
    }

    /// The keys the optimization started from.
    pub closed spec fn initial(self) -> Seq<Key> {
        self.initial_layout@
    }

    /// The keys as they are now.
    pub closed spec fn current(self) -> Seq<Key> {
        self.layout@
    }

    /// The positions whose characters may move.
    pub closed spec fn movable(self) -> Seq<Pos> {
        self.movable_positions@
    }

    /// The moves, by family.
    pub closed spec fn groups(self) -> Seq<(SwapMoveStrategy, Seq<Seq<(Pos, Pos)>>)> {
        self.swap_moves@
    }

    /// The most keys that may differ from the start, if limited.
    pub closed spec fn limit(self) -> Option<usize> {
        self.max_swapped
    }

    /// All moves.
    pub open spec fn all_moves(self) -> Seq<Seq<(Pos, Pos)>> {
        all_moves_of(self.groups())
    }

    /// Starts from `layout`; the characters in `pinned` stay where they are,
    /// the others move by the moves of the builder's families.
    pub fn new(
        layout: Layout,
        pinned: &[char],
        max_swapped: Option<usize>,
        swap_move_builder: SwapMoveBuilder,
    ) -> (r: Self)
        ensures
            r.initial() == layout@,
            r.current() == layout@,
            r.movable() == movable_positions(layout@, pinned@),
            r.groups() == built_groups(swap_move_builder@, movable_positions(layout@, pinned@)),
            r.limit() == max_swapped,
            well_placed(r.initial(), r.current(), r.movable(), r.groups()),
    {
        let keys = layout.keys();
        let mut positions: Vec<Pos> = Vec::new();
        let mut i: usize = 0;
        while i < keys.len()
            invariant
                keys@ == layout@,
                i <= keys@.len(),
                positions@ == movable_positions(keys@.take(i as int), pinned@),
                positions_distinct(keys@),
                positions@.no_duplicates(),
                forall|t: int|
                    0 <= t < positions@.len() ==> exists|j: int|
                        0 <= j < i && keys@[j].position == #[trigger] positions@[t] && !pinned@.contains(
                            keys@[j].ch,
                        ),
            decreases keys@.len() - i,
        {
            let key = keys[i];
            proof {
                assert(keys@.take(i + 1).drop_last() =~= keys@.take(i as int));
                assert(keys@.take(i + 1).last() == key);
            }
            if !contains_char(pinned, key.ch) {
                proof {
                    assert forall|t: int| 0 <= t < positions@.len() implies positions@[t] != key.position by {
                        let j = choose|j: int|
                            0 <= j < i && keys@[j].position == positions@[t] && !pinned@.contains(
                                keys@[j].ch,
                            );
                    }
                }
                positions.push(key.position);
            }
            i = i + 1;
        }
        assert(keys@.take(i as int) =~= keys@);
        let swap_moves = swap_move_builder.build(positions.as_slice());
        proof {
            assert forall|t: int| 0 <= t < positions@.len() implies holds_position(
                layout@,
                #[trigger] positions@[t],
            ) by {
                let j = choose|j: int|
                    0 <= j < keys@.len() && keys@[j].position == positions@[t] && !pinned@.contains(
                        keys@[j].ch,
                    );
            }
            lemma_built_within(swap_move_builder@, positions@);
            assert(same_places(layout@, layout@));
        }
        let initial_layout = layout.clone();
        OptimizableLayout {
            initial_layout,
            layout,
            max_swapped,
            swap_moves,
            movable_positions: positions,
        }
    }

    /// The current layout.
    pub fn layout(&self) -> (r: &Layout)
        ensures
            r@ == self.current(),
            well_placed(self.initial(), self.current(), self.movable(), self.groups()),
    {
        proof {
            use_type_invariant(self);
        }
        &self.layout
    }

    /// The layout the optimization started from.
    pub fn initial_layout(&self) -> (r: &Layout)
        ensures
            r@ == self.initial(),
    {
        &self.initial_layout
    }

    /// The moves.
    pub fn swap_moves(&self) -> (r: &SwapMoves)
        ensures
            r@ == self.groups(),
    {
        &self.swap_moves
    }

    /// How many keys differ from the start.
    pub fn diff(&self) -> (r: usize)
        ensures
            r == diff_count(self.current(), self.initial()),
    {
        diff_between(&self.layout, &self.initial_layout)
    }
}

impl Clone for OptimizableLayout {
    fn clone(&self) -> (r: Self)
        ensures
            r.initial() == self.initial(),
            r.current() == self.current(),
            r.movable() == self.movable(),
            r.groups() == self.groups(),
            r.limit() == self.limit(),
    {
        proof {
            use_type_invariant(self);
        }
        OptimizableLayout {
            initial_layout: self.initial_layout.clone(),
            layout: self.layout.clone(),
            max_swapped: self.max_swapped,
            swap_moves: self.swap_moves.clone(),
            movable_positions: copy_positions(&self.movable_positions),
        }
    }
}

/// Whether a candidate layout may be scored: it is not in the tabu list and
/// stays within the limit of changed keys.
pub open spec fn admissible(
    candidate: Seq<Key>,
    initial: Seq<Key>,
    tabu: Set<u64>,
    limit: Option<usize>,
) -> bool {
    &&& !tabu.contains(layout_key(candidate))
    &&& match limit {
        Some(max) => diff_count(candidate, initial) <= max,
        None => true,
    }
}

/// The lowest score seen and where it was first seen.
pub open spec fn first_best(obs: Seq<Option<u64>>) -> Option<(u64, int)>
    decreases obs.len(),
{
    if obs.len() == 0 {
        None
    } else {
        let prev = first_best(obs.drop_last());
        match obs.last() {
            None => prev,
            Some(s) => match prev {
                None => Some((s, obs.len() - 1)),
                Some(b) => if s < b.0 {
                    Some((s, obs.len() - 1))
                } else {
                    prev
                },
            },
        }
    }
}

/// The lowest score seen is no higher than any score seen, and where it was
/// first seen no earlier score equals it; there is none only when no score
/// was seen.
pub proof fn lemma_first_best_lowest(obs: Seq<Option<u64>>)
    ensures
        first_best(obs) is None <==> forall|j: int| 0 <= j < obs.len() ==> #[trigger] obs[j] is None,
        first_best(obs) matches Some(b) ==> forall|j: int|
            0 <= j < obs.len() && #[trigger] obs[j] is Some ==> b.0 <= obs[j]->0 && (obs[j]->0 == b.0
                ==> b.1 <= j),
    decreases obs.len(),
{
    if obs.len() > 0 {
        let prev = obs.drop_last();
        lemma_first_best_lowest(prev);
        lemma_first_best_bounds(prev);
        assert forall|j: int| 0 <= j < prev.len() implies #[trigger] prev[j] == obs[j] by {}
        if first_best(prev) is None {
            assert forall|j: int| 0 <= j < prev.len() implies #[trigger] obs[j] is None by {
                assert(prev[j] == obs[j]);
            }
        }
        if let Some(b) = first_best(obs) {
            assert forall|j: int| 0 <= j < obs.len() && #[trigger] obs[j] is Some implies b.0
                <= obs[j]->0 && (obs[j]->0 == b.0 ==> b.1 <= j) by {
                if j < prev.len() {
                    assert(prev[j] == obs[j]);
                    assert(first_best(prev) is Some);
                } else {
                    assert(obs[j] == obs.last());
                }
            }
        }
    }
}

/// The lowest score seen is one of the scores seen, at the place given.
pub proof fn lemma_first_best_bounds(obs: Seq<Option<u64>>)
    ensures
        first_best(obs) matches Some(b) ==> 0 <= b.1 < obs.len() && obs[b.1] == Some(b.0),
    decreases obs.len(),
{
    if obs.len() > 0 {
        lemma_first_best_bounds(obs.drop_last());
    }
}

/// Some layout with these keys is scored `o` by `f`.
pub open spec fn scored_as<F: Fn(&Layout) -> Option<u64>>(f: F, keys: Seq<Key>, o: Option<u64>) -> bool {
    exists|c: Layout| c@ == keys && #[trigger] f.ensures((&c,), o)
}

/// What looking at one move gives: the score of the moved layout when it is
/// admissible, nothing otherwise.
pub open spec fn observed<F: Fn(&Layout) -> Option<u64>>(
    f: F,
    current: Seq<Key>,
    initial: Seq<Key>,
    tabu: Set<u64>,
    limit: Option<usize>,
    pairs: Seq<(Pos, Pos)>,
    o: Option<u64>,
) -> bool {
    if admissible(apply_pairs(current, pairs), initial, tabu, limit) {
        scored_as(f, apply_pairs(current, pairs), o)
    } else {
        o is None
    }
}

/// One round of improvement, given what each move gave (`obs`): the result
/// is the lowest score seen, and the layout is moved by the move that first
/// gave it; nothing changes when no move gave a score.
pub open spec fn improvement<F: Fn(&Layout) -> Option<u64>>(
    f: F,
    current: Seq<Key>,
    initial: Seq<Key>,
    tabu: Set<u64>,
    limit: Option<usize>,
    moves: Seq<Seq<(Pos, Pos)>>,
    obs: Seq<Option<u64>>,
    r: Option<u64>,
    next: Seq<Key>,
) -> bool {
    &&& obs.len() == moves.len()
    &&& forall|j: int|
        0 <= j < obs.len() ==> observed(f, current, initial, tabu, limit, moves[j], #[trigger] obs[j])
    &&& r == match first_best(obs) {
        Some(b) => Some(b.0),
        None => None,
    }
    &&& next == match first_best(obs) {
        Some(b) => apply_pairs(current, moves[b.1]),
        None => current,
    }
}

/// When a round of improvement gives a score, the moved layout is scored so.
pub proof fn lemma_improvement_scored<F: Fn(&Layout) -> Option<u64>>(
    f: F,
    current: Seq<Key>,
    initial: Seq<Key>,
    tabu: Set<u64>,
    limit: Option<usize>,
    moves: Seq<Seq<(Pos, Pos)>>,
    obs: Seq<Option<u64>>,
    r: Option<u64>,
    next: Seq<Key>,
)
    requires
        improvement(f, current, initial, tabu, limit, moves, obs, r, next),
        r is Some,
    ensures
        scored_as(f, next, r),
{
    lemma_first_best_bounds(obs);
    let b = first_best(obs)->0;
    assert(observed(f, current, initial, tabu, limit, moves[b.1], obs[b.1]));
}

impl OptimizableLayout {
    /// Tries every move on the current layout and applies the first one whose
    /// admissible result `score_check` scores lowest; returns that score, or
    /// `None` (and changes nothing) when no admissible result is scored.
    pub fn try_improve<F: Fn(&Layout) -> Option<u64>>(
        &mut self,
        tabu_list: &HashSet<u64>,
        score_check: F,
    ) -> (r: Option<u64>)
        requires
            forall|l: &Layout| score_check.requires((l,)),
        ensures
            final(self).initial() == old(self).initial(),
            final(self).movable() == old(self).movable(),
            final(self).groups() == old(self).groups(),
            final(self).limit() == old(self).limit(),
            exists|obs: Seq<Option<u64>>|
                #[trigger] improvement(
                    score_check,
                    old(self).current(),
                    old(self).initial(),
                    tabu_list@,
                    old(self).limit(),
                    old(self).all_moves(),
                    obs,
                    r,
                    final(self).current(),
                ),
            r is Some ==> admissible(
                final(self).current(),
                old(self).initial(),
                tabu_list@,
                old(self).limit(),
            ),
            r is None ==> final(self).current() == old(self).current(),
    {
        proof {
            use_type_invariant(&*self);
        }
        let ghost current = self.layout@;
        let ghost initial = self.initial_layout@;
        let ghost all = self.all_moves();
        let moves = self.swap_moves.moves();
        let mut best: Option<(u64, usize)> = None;
        let mut best_layout: Option<Layout> = None;
        let ghost mut obs: Seq<Option<u64>> = Seq::empty();
        let mut j: usize = 0;
        while j < moves.len()
            invariant
                current == self.layout@,
                initial == self.initial_layout@,
                all == self.all_moves(),
                moves@.len() == all.len(),
                forall|t: int| 0 <= t < moves@.len() ==> moves@[t].0@ == #[trigger] all[t],
                forall|l: &Layout| score_check.requires((l,)),
                j <= moves@.len(),
                obs.len() == j,
                forall|t: int|
                    0 <= t < j ==> observed(
                        score_check,
                        current,
                        initial,
                        tabu_list@,
                        self.max_swapped,
                        all[t],
                        #[trigger] obs[t],
                    ),
                match first_best(obs) {
                    Some(b) => best == Some((b.0, b.1 as usize)) && (best_layout matches Some(
                        l,
                    ) && l@ == apply_pairs(current, all[b.1])),
                    None => best is None,
                },
            decreases moves@.len() - j,
        {
            let mut candidate = self.layout.clone();
            moves[j].apply(&mut candidate);
            let hash = candidate.hash();
            let mut outcome: Option<u64> = None;
            if !tabu_list.contains(&hash) {
                let within = match self.max_swapped {
                    Some(max) => diff_between(&candidate, &self.initial_layout) <= max,
                    None => true,
                };
                if within {
                    outcome = score_check(&candidate);
                    assert(scored_as(score_check, candidate@, outcome));
                }
            }
            let ghost prev_obs = obs;
            proof {
                assert(observed(score_check, current, initial, tabu_list@, self.max_swapped, all[j as int], outcome));
                obs = obs.push(outcome);
                assert(obs.drop_last() =~= prev_obs);
                lemma_first_best_bounds(prev_obs);
            }
            if let Some(s) = outcome {
                let replace = match best {
                    None => true,
                    Some((b, _)) => s < b,
                };
                if replace {
                    best = Some((s, j));
                    best_layout = Some(candidate);
                }
            }
            j = j + 1;
        }
        proof {
            lemma_first_best_bounds(obs);
        }
        let r = match best {
            Some((s, idx)) => {
                match best_layout {
                    Some(l) => {
                        proof {
                            lemma_apply_well_placed(
                                initial,
                                current,
                                self.movable_positions@,
                                self.swap_moves@,
                                all[idx as int],
                            );
                        }
                        self.layout = l;
                    },
                    None => {},
                }
                Some(s)
            },
            None => None,
        };
        assert(improvement(
            score_check,
            old(self).current(),
            old(self).initial(),
            tabu_list@,
            old(self).limit(),
            old(self).all_moves(),
            obs,
            r,
            self.current(),
        ));
        proof {
            if let Some(b) = first_best(obs) {
                assert(observed(
                    score_check,
                    current,
                    initial,
                    tabu_list@,
                    self.max_swapped,
                    all[b.1],
                    obs[b.1],
                ));
            }
        }
        r
    }
}

/// The positions among the first `n` keys that are in `sel`.
pub open spec fn selected_upto(keys: Seq<Key>, sel: Seq<Pos>, n: int) -> Set<Pos>
    decreases n,
{
    if n <= 0 {
        Set::empty()
    } else if sel.contains(keys[n - 1].position) {
        selected_upto(keys, sel, n - 1).insert(keys[n - 1].position)
    } else {
        selected_upto(keys, sel, n - 1)
    }
}

proof fn lemma_diff_upto_selected(a: Seq<Key>, b: Seq<Key>, sel: Seq<Pos>, n: int)
    requires
        0 <= n <= b.len(),
        a.len() == b.len(),
        positions_distinct(b),
        forall|i: int| 0 <= i < b.len() && !sel.contains(b[i].position) ==> #[trigger] a[i] == b[i],
    ensures
        selected_upto(b, sel, n).finite(),
        selected_upto(b, sel, n) <= sel.to_set(),
        diff_upto(a, b, n) <= selected_upto(b, sel, n).len(),
        forall|p: Pos|
            #[trigger] selected_upto(b, sel, n).contains(p) ==> exists|i: int|
                0 <= i < n && b[i].position == p,
    decreases n,
{
    if n > 0 {
        lemma_diff_upto_selected(a, b, sel, n - 1);
        let prev = selected_upto(b, sel, n - 1);
        let p = b[n - 1].position;
        if sel.contains(p) {
            assert(!prev.contains(p)) by {
                if prev.contains(p) {
                    let i = choose|i: int| 0 <= i < n - 1 && b[i].position == p;
                    assert(b[i].position != b[n - 1].position);
                }
            }
            assert(sel.to_set().contains(p));
            assert forall|q: Pos| #[trigger] selected_upto(b, sel, n).contains(q) implies exists|i: int|
                0 <= i < n && b[i].position == q by {
                if q != p {
                    assert(prev.contains(q));
                    let i = choose|i: int| 0 <= i < n - 1 && b[i].position == q;
                    assert(0 <= i < n && b[i].position == q);
                } else {
                    assert(0 <= n - 1 < n && b[n - 1].position == q);
                }
            }
        } else {
            assert(a[n - 1] == b[n - 1]);
            assert forall|q: Pos| #[trigger] selected_upto(b, sel, n).contains(q) implies exists|i: int|
                0 <= i < n && b[i].position == q by {
                let i = choose|i: int| 0 <= i < n - 1 && b[i].position == q;
                assert(0 <= i < n && b[i].position == q);
            }
        }
    }
}

/// Keys that differ only at positions in `sel` differ in at most as many
/// places as `sel` has entries.
pub proof fn lemma_changed_within(a: Seq<Key>, b: Seq<Key>, sel: Seq<Pos>)
    requires
        a.len() == b.len(),
        positions_distinct(b),
        forall|i: int| 0 <= i < b.len() && !sel.contains(b[i].position) ==> #[trigger] a[i] == b[i],
    ensures
        diff_count(a, b) <= sel.len(),
{
    lemma_diff_upto_selected(a, b, sel, b.len() as int);
    vstd::set_lib::lemma_len_subset(selected_upto(b, sel, b.len() as int), sel.to_set());
    sel.lemma_cardinality_of_set();
}

/// The characters at the positions `sel`, in order.
pub open spec fn selected_chars(keys: Seq<Key>, sel: Seq<Pos>) -> Seq<char> {
    sel.map_values(|p: Pos| char_at_pos(keys, p))
}

/// The keys after `chars[k]` is put on the key at `sel[k]`, for each `k` in
/// turn.
pub open spec fn placed(keys: Seq<Key>, sel: Seq<Pos>, chars: Seq<char>) -> Seq<Key>
    decreases sel.len(),
{
    if sel.len() == 0 {
        keys
    } else {
        set_spec(placed(keys, sel.drop_last(), chars.take(sel.len() - 1)), sel.last(), chars[sel.len() - 1])
    }
}

/// `result` is what `shuffle` may leave of `keys`: `shuffle_count` distinct
/// movable positions `sel` get the characters found at them, rearranged as
/// `chars`.
pub open spec fn shuffled_by(
    keys: Seq<Key>,
    movable: Seq<Pos>,
    limit: Option<usize>,
    sel: Seq<Pos>,
    chars: Seq<char>,
    result: Seq<Key>,
) -> bool {
    &&& sel.len() == shuffle_count(movable.len(), limit)
    &&& sel.no_duplicates()
    &&& forall|t: int| 0 <= t < sel.len() ==> movable.contains(#[trigger] sel[t])
    &&& chars.len() == sel.len()
    &&& chars.to_multiset() == selected_chars(keys, sel).to_multiset()
    &&& result == placed(keys, sel, chars)
    &&& forall|i: int|
        0 <= i < keys.len() && !sel.contains(keys[i].position) ==> #[trigger] result[i] == keys[i]
}

/// How many positions `shuffle` draws: none when at most one position can
/// move, else the limit (if any) but no more than there are positions.
pub open spec fn shuffle_count(movable_len: nat, limit: Option<usize>) -> nat {
    if movable_len <= 1 {
        0
    } else {
        match limit {
            Some(m) => if m < movable_len {
                m as nat
            } else {
                movable_len
            },
            None => movable_len,
        }
    }
}

/// The keys after the characters of the keys at `sel` were replaced, in
/// order, by `chars` differ from `keys` only at `sel`, keep their places and
/// hold the same characters when `chars` holds those it replaces.
proof fn lemma_reassign_step(
    start: Seq<Key>,
    cur: Seq<Key>,
    sel: Seq<Pos>,
    old_chars: Seq<char>,
    new_chars: Seq<char>,
    k: int,
)
    requires
        positions_distinct(start),
        positions_distinct(cur),
        same_places(cur, start),
        sel.no_duplicates(),
        0 <= k < sel.len(),
        sel.len() == old_chars.len(),
        sel.len() == new_chars.len(),
        forall|t: int| 0 <= t < sel.len() ==> holds_position(start, #[trigger] sel[t]),
        forall|t: int| 0 <= t < sel.len() ==> char_at_pos(start, sel[t]) == #[trigger] old_chars[t],
        forall|i: int|
            0 <= i < start.len() && !sel.take(k).contains(start[i].position) ==> #[trigger] cur[i]
                == start[i],
        chars_of(cur).to_multiset().add(old_chars.take(k).to_multiset()) == chars_of(
            start,
        ).to_multiset().add(new_chars.take(k).to_multiset()),
    ensures
        same_places(set_spec(cur, sel[k], new_chars[k]), start),
        positions_distinct(set_spec(cur, sel[k], new_chars[k])),
        forall|i: int|
            0 <= i < start.len() && !sel.take(k + 1).contains(start[i].position) ==> #[trigger] set_spec(
                cur,
                sel[k],
                new_chars[k],
            )[i] == start[i],
        chars_of(set_spec(cur, sel[k], new_chars[k])).to_multiset().add(
            old_chars.take(k + 1).to_multiset(),
        ) == chars_of(start).to_multiset().add(new_chars.take(k + 1).to_multiset()),
{
    broadcast use vstd::multiset::group_multiset_axioms;
    broadcast use vstd::seq_lib::to_multiset_contains;

    let p = sel[k];
    let i0 = index_at(start, p);
    lemma_index_at(start, p, i0);
    assert(!sel.take(k).contains(p)) by {
        if sel.take(k).contains(p) {
            let t = choose|t: int| 0 <= t < sel.take(k).len() && sel.take(k)[t] == p;
            assert(sel[t] == sel[k]);
        }
    }
    assert(cur[i0] == start[i0]);
    assert(place_of(cur[i0]) == place_of(start[i0]));
    lemma_index_at(cur, p, i0);
    assert(holds_position(cur, p));
    lemma_set_keeps(cur, p, new_chars[k]);
    let next = set_spec(cur, p, new_chars[k]);
    assert forall|i: int| 0 <= i < start.len() implies #[trigger] place_of(next[i]) == place_of(
        start[i],
    ) by {
        assert(place_of(next[i]) == place_of(cur[i]));
        assert(place_of(cur[i]) == place_of(start[i]));
    }
    assert forall|i: int|
        0 <= i < start.len() && !sel.take(k + 1).contains(start[i].position) implies #[trigger] next[i]
        == start[i] by {
        assert(sel.take(k + 1) =~= sel.take(k).push(p));
        assert(sel.take(k + 1)[k] == p);
        assert(start[i].position != p);
        assert(!sel.take(k).contains(start[i].position));
        assert(place_of(cur[i]) == place_of(start[i]));
    }
    let oc = old_chars[k];
    let nc = new_chars[k];
    assert(char_at_pos(cur, p) == oc);
    let mc = chars_of(cur).to_multiset();
    assert(chars_of(cur)[i0] == oc);
    assert(mc.count(oc) > 0);
    assert(old_chars.take(k + 1) =~= old_chars.take(k).push(oc));
    assert(new_chars.take(k + 1) =~= new_chars.take(k).push(nc));
    vstd::seq_lib::to_multiset_build(old_chars.take(k), oc);
    vstd::seq_lib::to_multiset_build(new_chars.take(k), nc);
    assert(old_chars.take(k).push(oc).to_multiset() == old_chars.take(k).to_multiset().insert(oc));
    assert(new_chars.take(k).push(nc).to_multiset() == new_chars.take(k).to_multiset().insert(nc));
    assert(mc.insert(nc).remove(oc).add(old_chars.take(k).to_multiset().insert(oc)) =~= mc.add(
        old_chars.take(k).to_multiset(),
    ).insert(nc));
    assert(chars_of(start).to_multiset().add(new_chars.take(k).to_multiset().insert(nc))
        =~= chars_of(start).to_multiset().add(new_chars.take(k).to_multiset()).insert(nc));
}

impl OptimizableLayout {
    /// Puts a random choice of movable characters on each other's keys: as
    /// many positions as `shuffle_count` gives are drawn, and their characters
    /// shuffled among them. Keys at other positions keep their characters.
    pub fn shuffle(&mut self, rng: &mut StdRng)
        ensures
            final(self).initial() == old(self).initial(),
            final(self).movable() == old(self).movable(),
            final(self).groups() == old(self).groups(),
            final(self).limit() == old(self).limit(),
            same_places(final(self).current(), old(self).current()),
            chars_of(final(self).current()).to_multiset() == chars_of(
                old(self).current(),
            ).to_multiset(),
            diff_count(final(self).current(), old(self).current()) <= shuffle_count(
                old(self).movable().len(),
                old(self).limit(),
            ),
            old(self).current() == old(self).initial() ==> match old(self).limit() {
                Some(m) => diff_count(final(self).current(), final(self).initial()) <= m,
                None => true,
            },
            exists|sel: Seq<Pos>, chars: Seq<char>|
                #[trigger] shuffled_by(
                    old(self).current(),
                    old(self).movable(),
                    old(self).limit(),
                    sel,
                    chars,
                    final(self).current(),
                ),
    {
        proof {
            use_type_invariant(&*self);
        }
        let ghost start = self.layout@;
        let n = self.movable_positions.len();
        if n <= 1 {
            proof {
                broadcast use vstd::seq_lib::group_to_multiset_ensures;

                assert(Seq::<Pos>::empty().no_duplicates());
                assert(selected_chars(start, Seq::<Pos>::empty()) =~= Seq::<char>::empty());
                assert(Seq::<char>::empty().to_multiset() =~= selected_chars(
                    start,
                    Seq::<Pos>::empty(),
                ).to_multiset());
                assert(shuffled_by(
                    start,
                    self.movable(),
                    self.limit(),
                    Seq::<Pos>::empty(),
                    Seq::<char>::empty(),
                    start,
                ));
            }
            proof {
                lemma_changed_within(start, start, Seq::<Pos>::empty());
            }
            return;
        }
        let max_to_swap = match self.max_swapped {
            Some(m) => if m < n {
                m
            } else {
                n
            },
            None => n,
        };
        let mut positions = copy_positions(&self.movable_positions);
        partial_shuffle(&mut positions, rng, max_to_swap);
        let ghost movable = self.movable_positions@;
        let ghost sel = positions@.take(max_to_swap as int);
        proof {
            broadcast use vstd::seq_lib::to_multiset_contains;
            broadcast use vstd::multiset::group_multiset_axioms;

            movable.lemma_multiset_has_no_duplicates();
            assert forall|x: Pos| positions@.to_multiset().contains(x) implies positions@.to_multiset().count(x) == 1 by {
                assert(movable.to_multiset().count(x) == positions@.to_multiset().count(x));
            }
            positions@.lemma_multiset_has_no_duplicates_conv();
            assert forall|t: int| 0 <= t < positions@.len() implies movable.contains(#[trigger] positions@[t]) by {
                assert(positions@.to_multiset().count(positions@[t]) > 0);
            }
        }

        let mut chars: Vec<char> = Vec::new();
        let mut t: usize = 0;
        while t < max_to_swap
            invariant
                max_to_swap <= positions@.len(),
                sel == positions@.take(max_to_swap as int),
                start == self.layout@,
                positions_distinct(start),
                forall|u: int| 0 <= u < positions@.len() ==> movable.contains(#[trigger] positions@[u]),
                forall|u: int| 0 <= u < movable.len() ==> holds_position(self.initial_layout@, #[trigger] movable[u]),
                same_places(start, self.initial_layout@),
                t <= max_to_swap,
                chars@.len() == t,
                forall|u: int| 0 <= u < t ==> char_at_pos(start, sel[u]) == #[trigger] chars@[u],
            decreases max_to_swap - t,
        {
            let p = positions[t];
            proof {
                let u = choose|u: int| 0 <= u < movable.len() && movable[u] == p;
                assert(holds_position(self.initial_layout@, movable[u]));
                let i = choose|i: int| 0 <= i < self.initial_layout@.len() && self.initial_layout@[i].position == p;
                assert(place_of(start[i]) == place_of(self.initial_layout@[i]));
                assert(holds_position(start, p));
            }
            let c = match self.layout.char_at(&p) {
                Some(c) => c,
                None => ' ',
            };
            chars.push(c);
            t = t + 1;
        }
        let ghost old_chars = chars@;
        shuffle(&mut chars, rng);
        let mut selected: Vec<Pos> = Vec::new();
        let mut t: usize = 0;
        while t < max_to_swap
            invariant
                max_to_swap <= positions@.len(),
                t <= max_to_swap,
                selected@ == positions@.take(t as int),
            decreases max_to_swap - t,
        {
            selected.push(positions[t]);
            proof {
                assert(positions@.take(t + 1) =~= positions@.take(t as int).push(positions@[t as int]));
            }
            t = t + 1;
        }
        proof {
            assert(selected@ == sel);
            assert(old_chars =~= selected_chars(start, sel));
            assert forall|t: int| 0 <= t < sel.len() implies movable.contains(#[trigger] sel[t]) by {
                assert(sel[t] == positions@[t]);
            }
        }
        self.place(selected.as_slice(), chars.as_slice());
        proof {
            assert(shuffled_by(start, movable, self.limit(), sel, chars@, self.current()));
        }
    }

    /// Puts `chars[k]` on the key at `sel[k]`, for each `k` in turn. The
    /// positions must be distinct movable ones, and `chars` must hold the
    /// characters found at them, each as often.
    pub fn place(&mut self, sel: &[Pos], chars: &[char])
        requires
            sel@.len() == chars@.len(),
            sel@.no_duplicates(),
            forall|t: int| 0 <= t < sel@.len() ==> old(self).movable().contains(#[trigger] sel@[t]),
            chars@.to_multiset() == selected_chars(old(self).current(), sel@).to_multiset(),
        ensures
            final(self).initial() == old(self).initial(),
            final(self).movable() == old(self).movable(),
            final(self).groups() == old(self).groups(),
            final(self).limit() == old(self).limit(),
            final(self).current() == placed(old(self).current(), sel@, chars@),
            same_places(final(self).current(), old(self).current()),
            chars_of(final(self).current()).to_multiset() == chars_of(
                old(self).current(),
            ).to_multiset(),
            forall|i: int|
                0 <= i < old(self).current().len() && !sel@.contains(old(self).current()[i].position)
                    ==> #[trigger] final(self).current()[i] == old(self).current()[i],
            diff_count(final(self).current(), old(self).current()) <= sel@.len(),
    {
        proof {
            use_type_invariant(&*self);
        }
        let ghost start = self.layout@;
        let ghost movable = self.movable_positions@;
        let ghost old_chars = selected_chars(start, sel@);
        let ghost new_chars = chars@;
        let mut layout = self.layout.clone();
        proof {
            broadcast use vstd::multiset::group_multiset_axioms;
            broadcast use vstd::seq_lib::group_to_multiset_ensures;

            assert(old_chars.take(0) =~= Seq::<char>::empty());
            assert(new_chars.take(0) =~= Seq::<char>::empty());
            assert(sel@.take(0) =~= Seq::<Pos>::empty());
            assert(chars_of(start).to_multiset().add(Seq::<char>::empty().to_multiset()) =~= chars_of(
                start,
            ).to_multiset());
            assert forall|t: int| 0 <= t < sel@.len() implies holds_position(start, #[trigger] sel@[t]) by {
                let p = sel@[t];
                let u = choose|u: int| 0 <= u < movable.len() && movable[u] == p;
                assert(holds_position(self.initial_layout@, movable[u]));
                let i = choose|i: int|
                    0 <= i < self.initial_layout@.len() && self.initial_layout@[i].position == p;
                assert(place_of(start[i]) == place_of(self.initial_layout@[i]));
            }
        }
        let mut k: usize = 0;
        while k < sel.len()
            invariant
                sel@.no_duplicates(),
                sel@.len() == chars@.len(),
                old_chars == selected_chars(start, sel@),
                new_chars == chars@,
                positions_distinct(start),
                positions_distinct(layout@),
                same_places(layout@, start),
                forall|t: int| 0 <= t < sel@.len() ==> holds_position(start, #[trigger] sel@[t]),
                k <= sel@.len(),
                layout@ == placed(start, sel@.take(k as int), chars@.take(k as int)),
                forall|i: int|
                    0 <= i < start.len() && !sel@.take(k as int).contains(start[i].position)
                        ==> #[trigger] layout@[i] == start[i],
                chars_of(layout@).to_multiset().add(old_chars.take(k as int).to_multiset())
                    == chars_of(start).to_multiset().add(new_chars.take(k as int).to_multiset()),
            decreases sel@.len() - k,
        {
            proof {
                assert forall|t: int| 0 <= t < sel@.len() implies char_at_pos(start, sel@[t])
                    == #[trigger] old_chars[t] by {}
                lemma_reassign_step(start, layout@, sel@, old_chars, new_chars, k as int);
                assert(sel@.take(k + 1).drop_last() =~= sel@.take(k as int));
                assert(chars@.take(k + 1).drop_last() =~= chars@.take(k as int));
                assert(sel@.take(k + 1).last() == sel@[k as int]);
                assert(chars@.take(k + 1)[k as int] == chars@[k as int]);
            }
            layout.set_char(&sel[k], chars[k]);
            k = k + 1;
        }
        proof {
            broadcast use vstd::multiset::group_multiset_axioms;

            assert(old_chars.take(k as int) =~= old_chars);
            assert(new_chars.take(k as int) =~= new_chars);
            assert(sel@.take(k as int) =~= sel@);
            assert(chars@.take(k as int) =~= chars@);
            let a = chars_of(layout@).to_multiset();
            let b = chars_of(start).to_multiset();
            let x = old_chars.to_multiset();
            assert(a.add(x) == b.add(x));
            assert(a =~= b) by {
                assert forall|c: char| a.count(c) == b.count(c) by {
                    assert(a.add(x).count(c) == b.add(x).count(c));
                }
            }
            assert forall|i: int|
                0 <= i < self.initial_layout@.len() && !movable.contains(self.initial_layout@[i].position)
                implies (#[trigger] layout@[i]).ch == self.initial_layout@[i].ch by {
                assert(place_of(start[i]) == place_of(self.initial_layout@[i]));
                assert(layout@[i] == start[i]);
            }
            assert forall|i: int| 0 <= i < layout@.len() implies #[trigger] place_of(layout@[i])
                == place_of(self.initial_layout@[i]) by {
                assert(place_of(layout@[i]) == place_of(start[i]));
                assert(place_of(start[i]) == place_of(self.initial_layout@[i]));
            }
            lemma_changed_within(layout@, start, sel@);
        }
        self.layout = layout;
    }
}


/// One draw of `perturb`: the move is applied; when a limit is set and the
/// keys then differ from the start in more places than it allows, the keys
/// from before the move are kept and the draw is not counted.
pub open spec fn perturb_step(
    keys: Seq<Key>,
    m: Seq<(Pos, Pos)>,
    initial: Seq<Key>,
    limit: Option<usize>,
) -> (Seq<Key>, bool) {
    let a = apply_pairs(keys, m);
    match limit {
        Some(max) => if diff_count(a, initial) > max {
            (keys, false)
        } else {
            (a, true)
        },
        None => (a, true),
    }
}

/// The keys after the draws `ms`, in turn, and how many of them were counted.
pub open spec fn perturb_run(
    keys: Seq<Key>,
    ms: Seq<Seq<(Pos, Pos)>>,
    initial: Seq<Key>,
    limit: Option<usize>,
) -> (Seq<Key>, nat)
    decreases ms.len(),
{
    if ms.len() == 0 {
        (keys, 0)
    } else {
        let prev = perturb_run(keys, ms.drop_last(), initial, limit);
        let step = perturb_step(prev.0, ms.last(), initial, limit);
        (step.0, prev.1 + if step.1 {
            1nat
        } else {
            0nat
        })
    }
}

/// A move that `SwapMoves::sample` may give: one of a family with positive
/// weight, or the empty move when no family has weight.
pub open spec fn drawable(
    groups: Seq<(SwapMoveStrategy, Seq<Seq<(Pos, Pos)>>)>,
    weights: Seq<(SwapMoveStrategy, usize)>,
    m: Seq<(Pos, Pos)>,
) -> bool {
    if total_weight(groups, weights) == 0 {
        m.len() == 0
    } else {
        exists|k: int, i: int|
            0 <= k < groups.len() && weight_of(weights, groups[k].0) > 0 && 0 <= i
                < groups[k].1.len() && m == #[trigger] groups[k].1[i]
    }
}

/// How many moves `perturb` aims to count: `n`, but no more than there are.
pub open spec fn perturb_target(n: usize, moves: nat) -> nat {
    if n < held(moves) {
        n as nat
    } else {
        held(moves) as nat
    }
}

/// `result` is what `perturb` leaves after drawing `ms` from `keys`: every
/// draw is drawable, it stopped once `perturb_target` draws were counted or
/// after `MAX_PERTURB_ATTEMPTS` draws, and not before.
pub open spec fn perturbed_by(
    keys: Seq<Key>,
    initial: Seq<Key>,
    limit: Option<usize>,
    groups: Seq<(SwapMoveStrategy, Seq<Seq<(Pos, Pos)>>)>,
    weights: Seq<(SwapMoveStrategy, usize)>,
    n: usize,
    ms: Seq<Seq<(Pos, Pos)>>,
    result: Seq<Key>,
) -> bool {
    let run = perturb_run(keys, ms, initial, limit);
    let target = perturb_target(n, all_moves_of(groups).len());
    &&& ms.len() <= MAX_PERTURB_ATTEMPTS
    &&& forall|t: int| 0 <= t < ms.len() ==> drawable(groups, weights, #[trigger] ms[t])
    &&& run.0 == result
    &&& run.1 <= target
    &&& (run.1 == target || ms.len() == MAX_PERTURB_ATTEMPTS)
    &&& forall|j: int|
        0 <= j < ms.len() ==> (#[trigger] perturb_run(keys, ms.take(j), initial, limit)).1 < target
}

/// Each element of one of the pieces is an element of the flattened sequence.
proof fn lemma_flatten_member<A>(s: Seq<Seq<A>>, i: int, j: int)
    requires
        0 <= i < s.len(),
        0 <= j < s[i].len(),
    ensures
        exists|k: int| 0 <= k < s.flatten().len() && s.flatten()[k] == s[i][j],
    decreases s.len(),
{
    assert(s.flatten() == s[0] + s.drop_first().flatten());
    if i == 0 {
        assert(s.flatten()[j] == s[0][j]);
    } else {
        lemma_flatten_member(s.drop_first(), i - 1, j);
        let k = choose|k: int|
            0 <= k < s.drop_first().flatten().len() && s.drop_first().flatten()[k] == s.drop_first()[i
                - 1][j];
        assert(s.flatten()[s[0].len() + k] == s[i][j]);
    }
}

/// A drawable move stays on the movable positions.
proof fn lemma_drawable_within(
    initial: Seq<Key>,
    current: Seq<Key>,
    movable: Seq<Pos>,
    groups: Seq<(SwapMoveStrategy, Seq<Seq<(Pos, Pos)>>)>,
    weights: Seq<(SwapMoveStrategy, usize)>,
    m: Seq<(Pos, Pos)>,
)
    requires
        well_placed(initial, current, movable, groups),
        drawable(groups, weights, m),
    ensures
        pairs_within(m, movable),
{
    if total_weight(groups, weights) != 0 {
        let (k, i) = choose|k: int, i: int|
            0 <= k < groups.len() && weight_of(weights, groups[k].0) > 0 && 0 <= i
                < groups[k].1.len() && m == #[trigger] groups[k].1[i];
        let s = groups.map_values(|g: (SwapMoveStrategy, Seq<Seq<(Pos, Pos)>>)| g.1);
        assert(s[k] == groups[k].1);
        lemma_flatten_member(s, k, i);
        let t = choose|t: int| 0 <= t < s.flatten().len() && s.flatten()[t] == s[k][i];
        assert(pairs_within(all_moves_of(groups)[t], movable));
    }
}

impl OptimizableLayout {
    /// Draws up to `MAX_PERTURB_ATTEMPTS` moves by the weights and applies
    /// them, until `n` of them (but no more than there are moves) were
    /// counted. A move after which more keys than the limit differ from the
    /// start is taken back and not counted, so a layout within the limit stays
    /// within it.
    pub fn perturb(&mut self, rng: &mut StdRng, n: usize, weights: &[(SwapMoveStrategy, usize)])
        requires
            total_weight(old(self).groups(), weights@) <= usize::MAX,
        ensures
            final(self).initial() == old(self).initial(),
            final(self).movable() == old(self).movable(),
            final(self).groups() == old(self).groups(),
            final(self).limit() == old(self).limit(),
            exists|ms: Seq<Seq<(Pos, Pos)>>|
                #[trigger] perturbed_by(
                    old(self).current(),
                    old(self).initial(),
                    old(self).limit(),
                    old(self).groups(),
                    weights@,
                    n,
                    ms,
                    final(self).current(),
                ),
            match old(self).limit() {
                Some(m) => diff_count(old(self).current(), old(self).initial()) <= m ==> diff_count(
                    final(self).current(),
                    final(self).initial(),
                ) <= m,
                None => true,
            },
    {
        proof {
            use_type_invariant(&*self);
        }
        let ghost start = self.layout@;
        let ghost initial = self.initial_layout@;
        let ghost movable = self.movable_positions@;
        let ghost groups = self.swap_moves@;
        let ghost limit = self.max_swapped;
        let count = self.swap_moves.len();
        let target = if n < count {
            n
        } else {
            count
        };
        let mut layout = self.layout.clone();
        let mut applied: usize = 0;
        let mut attempt: usize = 0;
        let ghost mut ms: Seq<Seq<(Pos, Pos)>> = Seq::empty();
        assert(ms.len() == 0);
        while attempt < MAX_PERTURB_ATTEMPTS
            invariant
                start == old(self).current(),
                initial == self.initial_layout@,
                initial == old(self).initial(),
                movable == self.movable_positions@,
                groups == self.swap_moves@,
                groups == old(self).groups(),
                limit == self.max_swapped,
                limit == old(self).limit(),
                target == perturb_target(n, all_moves_of(groups).len()),
                total_weight(groups, weights@) <= usize::MAX,
                attempt <= MAX_PERTURB_ATTEMPTS,
                ms.len() == attempt,
                forall|t: int| 0 <= t < ms.len() ==> drawable(groups, weights@, #[trigger] ms[t]),
                perturb_run(start, ms, initial, limit).0 == layout@,
                perturb_run(start, ms, initial, limit).1 == applied,
                applied <= target,
                forall|j: int|
                    0 <= j < ms.len() ==> (#[trigger] perturb_run(start, ms.take(j), initial, limit)).1
                        < target,
                well_placed(initial, layout@, movable, groups),
            ensures
                perturb_run(start, ms, initial, limit).0 == layout@,
                perturb_run(start, ms, initial, limit).1 == applied,
                applied <= target,
                applied == target || ms.len() == MAX_PERTURB_ATTEMPTS,
                ms.len() <= MAX_PERTURB_ATTEMPTS,
                forall|t: int| 0 <= t < ms.len() ==> drawable(groups, weights@, #[trigger] ms[t]),
                forall|j: int|
                    0 <= j < ms.len() ==> (#[trigger] perturb_run(start, ms.take(j), initial, limit)).1
                        < target,
                well_placed(initial, layout@, movable, groups),
            decreases MAX_PERTURB_ATTEMPTS - attempt,
        {
            if applied >= target {
                break;
            }
            let swap = self.swap_moves.sample(rng, weights);
            let ghost m = swap.0@;
            let ghost before = layout@;
            proof {
                assert(drawable(groups, weights@, m));
                lemma_drawable_within(initial, before, movable, groups, weights@, m);
                lemma_apply_well_placed(initial, before, movable, groups, m);
            }
            let saved = layout.clone();
            swap.apply(&mut layout);
            let mut counted = true;
            if let Some(max) = self.max_swapped {
                if diff_between(&layout, &self.initial_layout) > max {
                    layout = saved;
                    counted = false;
                }
            }
            proof {
                let next = ms.push(m);
                assert(next.drop_last() =~= ms);
                assert(next.last() == m);
                assert forall|j: int| 0 <= j < next.len() implies (#[trigger] perturb_run(
                    start,
                    next.take(j),
                    initial,
                    limit,
                )).1 < target by {
                    if j == ms.len() {
                        assert(next.take(j) =~= ms);
                    } else {
                        assert(next.take(j) =~= ms.take(j));
                    }
                }
                ms = next;
            }
            if counted {
                applied = applied + 1;
            }
            attempt = attempt + 1;
        }
        self.layout = layout;
        assert(perturbed_by(start, initial, limit, groups, weights@, n, ms, self.current()));
        proof {
            if let Some(m) = limit {
                if diff_count(start, initial) <= m {
                    lemma_run_within_limit(start, ms, initial, m);
                }
            }
        }
    }
}


/// A run of `perturb` started within the limit of changed keys stays within
/// it, whatever the draws: a draw that goes beyond is taken back.
pub proof fn lemma_run_within_limit(
    keys: Seq<Key>,
    ms: Seq<Seq<(Pos, Pos)>>,
    initial: Seq<Key>,
    max: usize,
)
    requires
        diff_count(keys, initial) <= max,
    ensures
        diff_count(perturb_run(keys, ms, initial, Some(max)).0, initial) <= max,
    decreases ms.len(),
{
    if ms.len() > 0 {
        lemma_run_within_limit(keys, ms.drop_last(), initial, max);
    }
}

} // verus!
