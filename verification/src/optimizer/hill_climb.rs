//! Hill climbing with restarts: from the best layout so far, shuffle, then
//! take the best move until no move is better for a while.
use std::collections::HashSet;
use vstd::prelude::*;

use crate::layout::{chars_of, positions_distinct, same_places, Key, Layout, Pos};
use crate::optimizer::{
    admissible, cache_scored, first_best, fingerprint_scored, improvement, layout_key,
    lemma_cache_step, lemma_first_best_bounds, lemma_first_best_lowest,
    lemma_no_move_below_lower, lemma_pinned_stay, movable_positions, no_move_below_keys,
    no_worse, observed, scored, shuffled_by, well_placed, LayoutScores, OptimizableLayout,
    RunOptions, cache_lookup,
};
use crate::random::seeded_rng;
use crate::swaps::{
    all_moves_of, apply_pairs, built_groups, held, SwapMoveBuilder, SwapMoveStrategy,
};

verus! {

broadcast use vstd::std_specs::hash::group_hash_axioms;

/// Every family of moves, as `SwapMoveBuilder::full` lists them.
pub open spec fn every_family() -> Seq<SwapMoveStrategy> {
    seq![
        SwapMoveStrategy::Single,
        SwapMoveStrategy::Column,
        SwapMoveStrategy::Row,
        SwapMoveStrategy::ThreeCycle,
    ]
}

/// What an optimizer gives back: the start's keys with the characters
/// rearranged, and the pinned characters where they were.
pub open spec fn rearranged(start: Seq<Key>, pinned: Seq<char>, result: Seq<Key>) -> bool {
    &&& same_places(result, start)
    &&& positions_distinct(result)
    &&& chars_of(result).to_multiset() == chars_of(start).to_multiset()
    &&& forall|i: int|
        0 <= i < start.len() && pinned.contains(start[i].ch) ==> (#[trigger] result[i]).ch
            == start[i].ch
}

/// The optimizable layout started from `start` with `opts`.
pub open spec fn started_from(o: OptimizableLayout, start: Seq<Key>, opts: &RunOptions) -> bool {
    &&& o.initial() == start
    &&& o.movable() == movable_positions(start, opts.pinned@)
    &&& o.limit() == opts.max_swapped
    &&& o.groups() == built_groups(every_family(), movable_positions(start, opts.pinned@))
}

/// A layout that `started_from` a start is rearranged from it.
pub proof fn lemma_started_rearranged(o: OptimizableLayout, start: Seq<Key>, opts: &RunOptions)
    requires
        started_from(o, start, opts),
        well_placed(o.initial(), o.current(), o.movable(), o.groups()),
    ensures
        rearranged(start, opts.pinned@, o.current()),
{
    lemma_pinned_stay(o.initial(), o.current(), opts.pinned@, o.groups());
}

/// The moves of a run from `start` with `opts`, by family.
pub open spec fn run_groups(start: Seq<Key>, opts: &RunOptions) -> Seq<(SwapMoveStrategy, Seq<Seq<(Pos, Pos)>>)> {
    built_groups(every_family(), movable_positions(start, opts.pinned@))
}

/// What a hill-climbing run from `first` gives back: `first` is the start
/// rearranged (the start itself unless `opts.shuffle` asks to shuffle), the
/// result scores no worse than `first`, and after at least one climb no
/// admissible move from `first` scores below the result.
pub open spec fn climbed_from<F: Fn(&Layout) -> u64>(
    score: F,
    start: Seq<Key>,
    opts: &RunOptions,
    first: Seq<Key>,
    result: Seq<Key>,
) -> bool {
    &&& rearranged(start, opts.pinned@, first)
    &&& !opts.shuffle ==> first == start
    &&& no_worse(score, start, first, result)
    &&& opts.iterations >= 1 ==> exists|s: u64|
        #![trigger fingerprint_scored(score, start, result, s)]
        fingerprint_scored(score, start, result, s) && no_move_below_keys(
            score,
            first,
            start,
            run_groups(start, opts),
            opts.max_swapped,
            s,
        )
}

/// One round of improvement by the scores of `f`, given what each move gave
/// (`obs`): an admissible moved layout gives a score `f` gives it, another
/// gives nothing; the result is the lowest score seen, and the layout moves
/// by the move that first gave it (nothing moves when no move gave a score).
pub open spec fn score_round<F: Fn(&Layout) -> u64>(
    f: F,
    current: Seq<Key>,
    initial: Seq<Key>,
    tabu: Set<u64>,
    limit: Option<usize>,
    moves: Seq<Seq<(Pos, Pos)>>,
    obs: Seq<Option<u64>>,
    r: Option<u64>,
    next: Seq<Key>,
) -> bool {
    &&& obs.len() == moves.len()
    &&& forall|j: int|
        0 <= j < obs.len() ==> if admissible(apply_pairs(current, moves[j]), initial, tabu, limit) {
            (#[trigger] obs[j]) matches Some(w) && scored(f, apply_pairs(current, moves[j]), w)
        } else {
            obs[j] is None
        }
    &&& r == match first_best(obs) {
        Some(b) => Some(b.0),
        None => None,
    }
    &&& next == match first_best(obs) {
        Some(b) => apply_pairs(current, moves[b.1]),
        None => current,
    }
}

/// A round of improvement by a check that scores every layout as `f` does is
/// a round by the scores of `f`.
proof fn lemma_round_from_check<F: Fn(&Layout) -> u64, G: Fn(&Layout) -> Option<u64>>(
    f: F,
    check: G,
    current: Seq<Key>,
    initial: Seq<Key>,
    tabu: Set<u64>,
    limit: Option<usize>,
    moves: Seq<Seq<(Pos, Pos)>>,
    obs: Seq<Option<u64>>,
    r: Option<u64>,
    next: Seq<Key>,
)
    requires
        improvement(check, current, initial, tabu, limit, moves, obs, r, next),
        forall|x: &Layout, o: Option<u64>| check.ensures((x,), o) ==> o is Some,
        forall|x: &Layout, v: u64| check.ensures((x,), Some(v)) ==> f.ensures((x,), v),
    ensures
        score_round(f, current, initial, tabu, limit, moves, obs, r, next),
{
    assert forall|j: int| 0 <= j < obs.len() implies if admissible(
        apply_pairs(current, moves[j]),
        initial,
        tabu,
        limit,
    ) {
        (#[trigger] obs[j]) matches Some(w) && scored(f, apply_pairs(current, moves[j]), w)
    } else {
        obs[j] is None
    } by {
        assert(observed(check, current, initial, tabu, limit, moves[j], obs[j]));
        if admissible(apply_pairs(current, moves[j]), initial, tabu, limit) {
            let c = choose|c: Layout|
                c@ == apply_pairs(current, moves[j]) && #[trigger] check.ensures((&c,), obs[j]);
            let w = obs[j]->0;
            assert(check.ensures((&c,), Some(w)));
            assert(f.ensures((&c,), w));
        }
    }
}

/// The state of a climb: the keys reached, the fingerprints already tried,
/// the climb's best score, the keys that first reached it, and the steps
/// since it last went down.
pub open spec fn climb_state(
    current: Seq<Key>,
    tried: Set<u64>,
    best_score: u64,
    best: Seq<Key>,
    stalled: nat,
) -> (Seq<Key>, Set<u64>, u64, Seq<Key>, nat) {
    (current, tried, best_score, best, stalled)
}

/// One step of a climb from `s` to `t`: a round of improvement from the keys
/// reached, with the fingerprints tried as tabu, gave `v`; the keys move and
/// their fingerprint is tried; a score below the climb's best becomes its
/// best (with the keys that reached it) and ends the stall, another adds a
/// step to it.
pub open spec fn climb_step<F: Fn(&Layout) -> u64>(
    f: F,
    initial: Seq<Key>,
    limit: Option<usize>,
    moves: Seq<Seq<(Pos, Pos)>>,
    s: (Seq<Key>, Set<u64>, u64, Seq<Key>, nat),
    obs: Seq<Option<u64>>,
    v: u64,
    t: (Seq<Key>, Set<u64>, u64, Seq<Key>, nat),
) -> bool {
    &&& score_round(f, s.0, initial, s.1, limit, moves, obs, Some(v), t.0)
    &&& t.1 == s.1.insert(layout_key(t.0))
    &&& if v < s.2 {
        t.2 == v && t.3 == t.0 && t.4 == 0
    } else {
        t.2 == s.2 && t.3 == s.3 && t.4 == s.4 + 1
    }
}

/// A step of a climb from a state whose stall is within `patience`.
pub open spec fn climb_goes_on<F: Fn(&Layout) -> u64>(
    f: F,
    initial: Seq<Key>,
    limit: Option<usize>,
    moves: Seq<Seq<(Pos, Pos)>>,
    patience: nat,
    s: (Seq<Key>, Set<u64>, u64, Seq<Key>, nat),
    obs: Seq<Option<u64>>,
    v: u64,
    t: (Seq<Key>, Set<u64>, u64, Seq<Key>, nat),
) -> bool {
    s.4 <= patience && climb_step(f, initial, limit, moves, s, obs, v, t)
}

/// A climb from `current` scored `s0`, state by state: it starts with
/// nothing tried and no stall, each state but the last steps to the next
/// with its stall within `patience`, and it ends when the stall exceeds
/// `patience` or a round from the last state finds no admissible move.
pub open spec fn climb_run<F: Fn(&Layout) -> u64>(
    f: F,
    initial: Seq<Key>,
    limit: Option<usize>,
    moves: Seq<Seq<(Pos, Pos)>>,
    patience: nat,
    current: Seq<Key>,
    s0: u64,
    states: Seq<(Seq<Key>, Set<u64>, u64, Seq<Key>, nat)>,
    rounds: Seq<Seq<Option<u64>>>,
    found: Seq<u64>,
) -> bool {
    &&& states.len() == rounds.len() + 1
    &&& found.len() == rounds.len()
    &&& states[0] == climb_state(current, Set::empty(), s0, current, 0)
    &&& forall|i: int|
        #![trigger rounds[i]]
        0 <= i < rounds.len() ==> climb_goes_on(
            f,
            initial,
            limit,
            moves,
            patience,
            states[i],
            rounds[i],
            found[i],
            states[i + 1],
        )
    &&& states.last().4 > patience || exists|obs: Seq<Option<u64>>|
        #[trigger] score_round(
            f,
            states.last().0,
            initial,
            states.last().1,
            limit,
            moves,
            obs,
            None,
            states.last().0,
        )
}

/// The patience of a climb on these moves: half as many steps as there are
/// moves.
pub open spec fn patience_of(o: OptimizableLayout) -> nat {
    (held(o.all_moves().len()) / 2) as nat
}

/// A round of improvement with no tabu finds no move from `current` that
/// scores below the round's result.
proof fn lemma_probe<F: Fn(&Layout) -> u64>(
    score: F,
    current: Seq<Key>,
    initial: Seq<Key>,
    groups: Seq<(SwapMoveStrategy, Seq<Seq<(Pos, Pos)>>)>,
    limit: Option<usize>,
    obs: Seq<Option<u64>>,
    r: Option<u64>,
    next: Seq<Key>,
    s: u64,
)
    requires
        score_round(score, current, initial, Set::empty(), limit, all_moves_of(groups), obs, r, next),
        r matches Some(v) ==> s <= v,
    ensures
        no_move_below_keys(score, current, initial, groups, limit, s),
{
    lemma_first_best_lowest(obs);
    assert forall|j: int|
        0 <= j < all_moves_of(groups).len() && admissible(
            #[trigger] apply_pairs(current, all_moves_of(groups)[j]),
            initial,
            Set::empty(),
            limit,
        ) implies exists|c: Layout, v: u64|
        c@ == apply_pairs(current, all_moves_of(groups)[j]) && #[trigger] score.ensures((&c,), v) && v
            >= s by {
        assert(obs[j] is Some);
        let w = obs[j]->0;
        assert(scored(score, apply_pairs(current, all_moves_of(groups)[j]), w));
        let c = choose|c: Layout|
            c@ == apply_pairs(current, all_moves_of(groups)[j]) && #[trigger] score.ensures((&c,), w);
    }
}

/// Climbs from `start`, scored `start_score`, by `score` (lower is better):
/// applies the best move not tried in this climb, and stops when no move is
/// left or the best score has not gone down for more than half as many steps
/// as there are moves. Returns the layout that first reached the climb's best
/// score, and that score; below it no admissible move from the start scores.
pub fn climb<F: Fn(&Layout) -> u64>(start: &OptimizableLayout, start_score: u64, score: &F) -> (r: (
    OptimizableLayout,
    u64,
))
    requires
        forall|l: &Layout| score.requires((l,)),
    ensures
        r.0.initial() == start.initial(),
        r.0.movable() == start.movable(),
        r.0.groups() == start.groups(),
        r.0.limit() == start.limit(),
        exists|
            states: Seq<(Seq<Key>, Set<u64>, u64, Seq<Key>, nat)>,
            rounds: Seq<Seq<Option<u64>>>,
            found: Seq<u64>,
        |
            #[trigger] climb_run(
                score,
                start.initial(),
                start.limit(),
                start.all_moves(),
                patience_of(*start),
                start.current(),
                start_score,
                states,
                rounds,
                found,
            ) && r.1 == states.last().2 && r.0.current() == states.last().3,
        r.1 <= start_score,
        r.1 == start_score && r.0.current() == start.current() || scored(score, r.0.current(), r.1),
        no_move_below_keys(score, start.current(), start.initial(), start.groups(), start.limit(), r.1),
{
    let check = |l: &Layout| -> (s: Option<u64>)
        requires
            score.requires((l,)),
        ensures
            s is Some,
            s matches Some(v) ==> score.ensures((l,), v),
        { Some(score(l)) };
    assert(forall|l: &Layout| check.requires((l,)));
    assert(forall|x: &Layout, v: u64| check.ensures((x,), Some(v)) ==> score.ensures((x,), v));
    assert(forall|x: &Layout, o: Option<u64>| check.ensures((x,), o) ==> o is Some);
    let mut candidate = start.clone();
    let mut best_candidate = start.clone();
    let mut current_score = start_score;
    let mut tabu_list: HashSet<u64> = HashSet::new();
    let half = candidate.swap_moves().len() / 2;
    let mut step: usize = 0;
    let ghost c0 = start.current();
    let ghost initial = start.initial();
    let ghost limit = start.limit();
    let ghost moves = start.all_moves();
    let ghost patience = patience_of(*start);
    let ghost mut states = seq![climb_state(c0, Set::empty(), start_score, c0, 0)];
    let ghost mut rounds: Seq<Seq<Option<u64>>> = Seq::empty();
    let ghost mut found: Seq<u64> = Seq::empty();
    loop
        invariant_except_break
            step <= half,
        invariant
            forall|l: &Layout| check.requires((l,)),
            forall|x: &Layout, v: u64| check.ensures((x,), Some(v)) ==> score.ensures((x,), v),
            forall|x: &Layout, o: Option<u64>| check.ensures((x,), o) ==> o is Some,
            c0 == start.current(),
            initial == start.initial(),
            limit == start.limit(),
            moves == start.all_moves(),
            patience == patience_of(*start),
            half == patience,
            candidate.initial() == initial,
            candidate.movable() == start.movable(),
            candidate.groups() == start.groups(),
            candidate.limit() == limit,
            best_candidate.initial() == initial,
            best_candidate.movable() == start.movable(),
            best_candidate.groups() == start.groups(),
            best_candidate.limit() == limit,
            states.len() == rounds.len() + 1,
            found.len() == rounds.len(),
            states[0] == climb_state(c0, Set::empty(), start_score, c0, 0),
            forall|i: int|
                #![trigger rounds[i]]
                0 <= i < rounds.len() ==> climb_goes_on(
                    score,
                    initial,
                    limit,
                    moves,
                    patience,
                    states[i],
                    rounds[i],
                    found[i],
                    states[i + 1],
                ),
            states.last() == climb_state(
                candidate.current(),
                tabu_list@,
                current_score,
                best_candidate.current(),
                step as nat,
            ),
            current_score <= start_score,
            current_score == start_score && best_candidate.current() == c0 || scored(
                score,
                best_candidate.current(),
                current_score,
            ),
            rounds.len() > 0 ==> no_move_below_keys(
                score,
                c0,
                initial,
                start.groups(),
                limit,
                current_score,
            ),
        ensures
            climb_run(score, initial, limit, moves, patience, c0, start_score, states, rounds, found),
            states.last().2 == current_score,
            states.last().3 == best_candidate.current(),
            best_candidate.initial() == initial,
            best_candidate.movable() == start.movable(),
            best_candidate.groups() == start.groups(),
            best_candidate.limit() == limit,
            current_score <= start_score,
            current_score == start_score && best_candidate.current() == c0 || scored(
                score,
                best_candidate.current(),
                current_score,
            ),
            no_move_below_keys(score, c0, initial, start.groups(), limit, current_score),
        decreases current_score, half - step,
    {
        let ghost before = candidate;
        let ghost score_before = current_score;
        let ghost last = states.last();
        let improved = candidate.try_improve(&tabu_list, check);
        let ghost obs = choose|obs: Seq<Option<u64>>|
            #[trigger] improvement(
                check,
                before.current(),
                before.initial(),
                tabu_list@,
                before.limit(),
                before.all_moves(),
                obs,
                improved,
                candidate.current(),
            );
        proof {
            lemma_round_from_check(
                score,
                check,
                before.current(),
                initial,
                tabu_list@,
                limit,
                moves,
                obs,
                improved,
                candidate.current(),
            );
        }
        match improved {
            None => {
                proof {
                    if rounds.len() == 0 {
                        lemma_probe(
                            score,
                            c0,
                            initial,
                            start.groups(),
                            limit,
                            obs,
                            improved,
                            candidate.current(),
                            current_score,
                        );
                    }
                    assert(score_round(
                        score,
                        states.last().0,
                        initial,
                        states.last().1,
                        limit,
                        moves,
                        obs,
                        None,
                        states.last().0,
                    ));
                }
                break;
            },
            Some(v) => {
                proof {
                    lemma_first_best_bounds(obs);
                    let b = first_best(obs)->0;
                    assert(scored(score, candidate.current(), v));
                }
                let moved = candidate.layout();
                let fingerprint = moved.hash();
                tabu_list.insert(fingerprint);
                if current_score > v {
                    current_score = v;
                    best_candidate = candidate.clone();
                    step = 0;
                } else {
                    step = step + 1;
                }
                proof {
                    if rounds.len() == 0 {
                        lemma_probe(
                            score,
                            c0,
                            initial,
                            start.groups(),
                            limit,
                            obs,
                            improved,
                            candidate.current(),
                            current_score,
                        );
                    } else {
                        lemma_no_move_below_lower(
                            score,
                            c0,
                            initial,
                            start.groups(),
                            limit,
                            score_before,
                            current_score,
                        );
                    }
                    let next = climb_state(
                        candidate.current(),
                        tabu_list@,
                        current_score,
                        best_candidate.current(),
                        step as nat,
                    );
                    assert(climb_goes_on(score, initial, limit, moves, patience, last, obs, v, next));
                    let old_states = states;
                    let old_rounds = rounds;
                    let old_found = found;
                    states = states.push(next);
                    rounds = rounds.push(obs);
                    found = found.push(v);
                    assert forall|i: int|
                        #![trigger rounds[i]]
                        0 <= i < rounds.len() implies climb_goes_on(
                            score,
                            initial,
                            limit,
                            moves,
                            patience,
                            states[i],
                            rounds[i],
                            found[i],
                            states[i + 1],
                        ) by {
                        if i < old_rounds.len() {
                            assert(old_rounds[i] == rounds[i]);
                            assert(states[i] == old_states[i]);
                            assert(states[i + 1] == old_states[i + 1]);
                            assert(found[i] == old_found[i]);
                        } else {
                            assert(states[i] == last);
                            assert(states[i + 1] == next);
                        }
                    }
                }
                if step > half {
                    break;
                }
            },
        }
    }
    (best_candidate, current_score)
}

/// How a restart begins: the first from the best layout so far as it is,
/// each later one from a shuffle of it.
pub open spec fn restarted(
    start: Seq<Key>,
    opts: &RunOptions,
    i: int,
    best: Seq<Key>,
    candidate: Seq<Key>,
) -> bool {
    if i == 0 {
        candidate == best
    } else {
        exists|sel: Seq<Pos>, chars: Seq<char>|
            #[trigger] shuffled_by(
                best,
                movable_positions(start, opts.pinned@),
                opts.max_swapped,
                sel,
                chars,
                candidate,
            )
    }
}

/// A lookup of `keys` in the score cache `before`, leaving `after`: a cached
/// score is given back, a missing one is a score `f` gives the keys, and is
/// cached.
pub open spec fn looked_up<F: Fn(&Layout) -> u64>(
    f: F,
    before: Map<u64, u64>,
    keys: Seq<Key>,
    s: u64,
    after: Map<u64, u64>,
) -> bool {
    &&& cache_lookup(before, layout_key(keys), s, after)
    &&& !before.contains_key(layout_key(keys)) ==> scored(f, keys, s)
}

/// A climb of a run from `start` with `opts`, from `from` scored `s0`, that
/// ends with `reached` as its best layout and `s` as its best score.
pub open spec fn climb_reaches<F: Fn(&Layout) -> u64>(
    f: F,
    start: Seq<Key>,
    opts: &RunOptions,
    from: Seq<Key>,
    s0: u64,
    reached: Seq<Key>,
    s: u64,
) -> bool {
    exists|
        states: Seq<(Seq<Key>, Set<u64>, u64, Seq<Key>, nat)>,
        rounds: Seq<Seq<Option<u64>>>,
        found: Seq<u64>,
    |
        #[trigger] climb_run(
            f,
            start,
            opts.max_swapped,
            all_moves_of(run_groups(start, opts)),
            (held(all_moves_of(run_groups(start, opts)).len()) / 2) as nat,
            from,
            s0,
            states,
            rounds,
            found,
        ) && s == states.last().2 && reached == states.last().3
}

/// Restart `i` of a hill-climbing run: from the best layout so far (`best`,
/// scored `s`) and the score cache `cache`, the restart begins at
/// `candidate`, looks its score `cs` up, and climbs to `reached` with score
/// `rs`; the climb's layout becomes the best exactly when it scores below
/// the best so far.
pub open spec fn restart_step<F: Fn(&Layout) -> u64>(
    f: F,
    start: Seq<Key>,
    opts: &RunOptions,
    i: int,
    best: Seq<Key>,
    s: u64,
    cache: Map<u64, u64>,
    candidate: Seq<Key>,
    cs: u64,
    reached: Seq<Key>,
    rs: u64,
    next_cache: Map<u64, u64>,
    next_best: Seq<Key>,
    next_s: u64,
) -> bool {
    &&& restarted(start, opts, i, best, candidate)
    &&& looked_up(f, cache, candidate, cs, next_cache)
    &&& climb_reaches(f, start, opts, candidate, cs, reached, rs)
    &&& if rs < s {
        next_best == reached && next_s == rs
    } else {
        next_best == best && next_s == s
    }
}

/// Where a run from `start` with `opts` begins: the start, shuffled when
/// `opts.shuffle` asks.
pub open spec fn first_of(start: Seq<Key>, opts: &RunOptions, first: Seq<Key>) -> bool {
    if opts.shuffle {
        exists|sel: Seq<Pos>, chars: Seq<char>|
            #[trigger] shuffled_by(
                start,
                movable_positions(start, opts.pinned@),
                opts.max_swapped,
                sel,
                chars,
                first,
            )
    } else {
        first == start
    }
}

/// A hill-climbing run from `start` with `opts`, restart by restart: `first`
/// is the start (shuffled when `opts.shuffle` asks), looked up in an empty
/// cache; then `opts.iterations` restarts, each a `restart_step` from the
/// best layout, best score and cache the one before left.
pub open spec fn hill_climb_run<F: Fn(&Layout) -> u64>(
    f: F,
    start: Seq<Key>,
    opts: &RunOptions,
    first: Seq<Key>,
    bests: Seq<Seq<Key>>,
    best_scores: Seq<u64>,
    caches: Seq<Map<u64, u64>>,
    candidates: Seq<Seq<Key>>,
    candidate_scores: Seq<u64>,
    reached: Seq<Seq<Key>>,
    reached_scores: Seq<u64>,
) -> bool {
    &&& first_of(start, opts, first)
    &&& bests.len() == opts.iterations + 1
    &&& best_scores.len() == opts.iterations + 1
    &&& caches.len() == opts.iterations + 1
    &&& candidates.len() == opts.iterations
    &&& candidate_scores.len() == opts.iterations
    &&& reached.len() == opts.iterations
    &&& reached_scores.len() == opts.iterations
    &&& bests[0] == first
    &&& looked_up(f, Map::empty(), first, best_scores[0], caches[0])
    &&& forall|i: int|
        #![trigger candidates[i]]
        0 <= i < opts.iterations ==> restart_step(
            f,
            start,
            opts,
            i,
            bests[i],
            best_scores[i],
            caches[i],
            candidates[i],
            candidate_scores[i],
            reached[i],
            reached_scores[i],
            caches[i + 1],
            bests[i + 1],
            best_scores[i + 1],
        )
}

/// Optimizes `layout` by hill climbing, scoring layouts with `score` (lower
/// is better): each restart shuffles the best layout so far (but the first,
/// unless `opts.shuffle` asks to shuffle before starting), then applies the
/// best move not tried in this climb until the score has not improved for
/// more than half as many steps as there are moves; a climb that ends lower
/// than the best so far replaces it. Scores are cached by layout fingerprint,
/// so the result is compared with the start through the fingerprints.
/// `hill_climb_run` states the run restart by restart, whatever the shuffles
/// draw.
pub fn hill_climb<F: Fn(&Layout) -> u64>(layout: &Layout, opts: &RunOptions, score: &F) -> (r: Layout)
    requires
        forall|l: &Layout| score.requires((l,)),
    ensures
        exists|
            first: Seq<Key>,
            bests: Seq<Seq<Key>>,
            best_scores: Seq<u64>,
            caches: Seq<Map<u64, u64>>,
            candidates: Seq<Seq<Key>>,
            candidate_scores: Seq<u64>,
            reached: Seq<Seq<Key>>,
            reached_scores: Seq<u64>,
        |
            #[trigger] hill_climb_run(
                score,
                layout@,
                opts,
                first,
                bests,
                best_scores,
                caches,
                candidates,
                candidate_scores,
                reached,
                reached_scores,
            ) && r@ == bests.last(),
        rearranged(layout@, opts.pinned@, r@),
        exists|first: Seq<Key>| #[trigger] climbed_from(score, layout@, opts, first, r@),
        opts.iterations == 0 && !opts.shuffle ==> r@ == layout@,
{
    let ghost start = layout@;
    let mut rng = seeded_rng(opts.seed);
    let mut best_layout = OptimizableLayout::new(
        layout.clone(),
        opts.pinned.as_slice(),
        opts.max_swapped,
        SwapMoveBuilder::full(),
    );
    if opts.shuffle {
        best_layout.shuffle(&mut rng);
    }
    let ghost first = best_layout.current();
    assert(first_of(start, opts, first));
    let ghost groups = run_groups(start, opts);
    let mut scores: LayoutScores<u64> = LayoutScores::new();
    let score_of = |l: &Layout| -> (s: u64)
        requires
            score.requires((l,)),
        ensures
            score.ensures((l,), s),
        { score(l) };
    assert(forall|l: &Layout| score_of.requires((l,)));
    assert(forall|x: &Layout, s: u64| score_of.ensures((x,), s) ==> score.ensures((x,), s));
    let start_layout = best_layout.layout();
    proof {
        lemma_started_rearranged(best_layout, start, opts);
    }
    let mut best_score = scores.get_or_compute(start_layout, score_of);
    let ghost s0 = best_score;
    proof {
        assert(cache_scored(score, start, Map::<u64, u64>::empty()));
        lemma_cache_step(
            score,
            score_of,
            start,
            Map::<u64, u64>::empty(),
            *start_layout,
            best_score,
            scores@,
        );
        assert(score.ensures((start_layout,), s0));
        assert(scored(score, first, s0));
    }
    let ghost mut bests: Seq<Seq<Key>> = seq![first];
    let ghost mut best_scores: Seq<u64> = seq![s0];
    let ghost mut caches: Seq<Map<u64, u64>> = seq![scores@];
    let ghost mut candidates: Seq<Seq<Key>> = Seq::empty();
    let ghost mut candidate_scores: Seq<u64> = Seq::empty();
    let ghost mut reached_keys: Seq<Seq<Key>> = Seq::empty();
    let ghost mut reached_scores: Seq<u64> = Seq::empty();
    assert(looked_up(score, Map::empty(), first, best_scores[0], caches[0]));
    let mut iteration: usize = 0;
    while opts.iterations > iteration
        invariant
            forall|l: &Layout| score.requires((l,)),
            forall|l: &Layout| score_of.requires((l,)),
            forall|x: &Layout, s: u64| score_of.ensures((x,), s) ==> score.ensures((x,), s),
            iteration <= opts.iterations,
            groups == run_groups(start, opts),
            started_from(best_layout, start, opts),
            first_of(start, opts, first),
            !opts.shuffle ==> first == start,
            iteration == 0 ==> best_layout.current() == first,
            rearranged(start, opts.pinned@, first),
            scored(score, first, s0),
            cache_scored(score, start, scores@),
            fingerprint_scored(score, start, best_layout.current(), best_score),
            best_score <= s0,
            iteration >= 1 ==> no_move_below_keys(
                score,
                first,
                start,
                groups,
                opts.max_swapped,
                best_score,
            ),
            bests.len() == iteration + 1,
            best_scores.len() == iteration + 1,
            caches.len() == iteration + 1,
            candidates.len() == iteration,
            candidate_scores.len() == iteration,
            reached_keys.len() == iteration,
            reached_scores.len() == iteration,
            bests[0] == first,
            looked_up(score, Map::empty(), first, best_scores[0], caches[0]),
            bests.last() == best_layout.current(),
            best_scores.last() == best_score,
            caches.last() == scores@,
            forall|i: int|
                #![trigger candidates[i]]
                0 <= i < iteration ==> restart_step(
                    score,
                    start,
                    opts,
                    i,
                    bests[i],
                    best_scores[i],
                    caches[i],
                    candidates[i],
                    candidate_scores[i],
                    reached_keys[i],
                    reached_scores[i],
                    caches[i + 1],
                    bests[i + 1],
                    best_scores[i + 1],
                ),
        decreases opts.iterations - iteration,
    {
        let ghost best_before = best_layout.current();
        let ghost score_before = best_score;
        let mut candidate = best_layout.clone();
        if iteration > 0 {
            candidate.shuffle(&mut rng);
        }
        proof {
            assert(restarted(start, opts, iteration as int, best_before, candidate.current()));
        }
        let ghost cache_before = scores@;
        let candidate_layout = candidate.layout();
        let candidate_score = scores.get_or_compute(candidate_layout, score_of);
        proof {
            lemma_cache_step(
                score,
                score_of,
                start,
                cache_before,
                *candidate_layout,
                candidate_score,
                scores@,
            );
            if !cache_before.contains_key(layout_key(candidate.current())) {
                assert(score.ensures((candidate_layout,), candidate_score));
                assert(scored(score, candidate.current(), candidate_score));
            }
            assert(looked_up(score, cache_before, candidate.current(), candidate_score, scores@));
        }
        let (best_candidate, current_score) = climb(&candidate, candidate_score, score);
        let reached = best_candidate.layout();
        proof {
            assert(reached@ == best_candidate.current());
            if !(current_score == candidate_score && best_candidate.current() == candidate.current()) {
                let c = choose|c: Layout|
                    c@ == best_candidate.current() && #[trigger] score.ensures((&c,), current_score);
                assert(fingerprint_scored(score, start, best_candidate.current(), current_score));
            }
            let (states, rounds, found) = choose|
                states: Seq<(Seq<Key>, Set<u64>, u64, Seq<Key>, nat)>,
                rounds: Seq<Seq<Option<u64>>>,
                found: Seq<u64>,
            |
                #[trigger] climb_run(
                    score,
                    candidate.initial(),
                    candidate.limit(),
                    candidate.all_moves(),
                    patience_of(candidate),
                    candidate.current(),
                    candidate_score,
                    states,
                    rounds,
                    found,
                ) && current_score == states.last().2 && best_candidate.current() == states.last().3;
            assert(climb_run(
                score,
                start,
                opts.max_swapped,
                all_moves_of(run_groups(start, opts)),
                (held(all_moves_of(run_groups(start, opts)).len()) / 2) as nat,
                candidate.current(),
                candidate_score,
                states,
                rounds,
                found,
            ));
            assert(climb_reaches(
                score,
                start,
                opts,
                candidate.current(),
                candidate_score,
                best_candidate.current(),
                current_score,
            ));
        }
        if best_score > current_score {
            best_score = current_score;
            best_layout = best_candidate;
        }
        proof {
            if iteration == 0 {
                lemma_no_move_below_lower(
                    score,
                    first,
                    start,
                    groups,
                    opts.max_swapped,
                    current_score,
                    best_score,
                );
            }
            let n = iteration as int;
            let old_bests = bests;
            let old_best_scores = best_scores;
            let old_caches = caches;
            let old_candidates = candidates;
            let old_candidate_scores = candidate_scores;
            let old_reached = reached_keys;
            let old_reached_scores = reached_scores;
            bests = bests.push(best_layout.current());
            best_scores = best_scores.push(best_score);
            caches = caches.push(scores@);
            candidates = candidates.push(candidate.current());
            candidate_scores = candidate_scores.push(candidate_score);
            reached_keys = reached_keys.push(best_candidate.current());
            reached_scores = reached_scores.push(current_score);
            assert(restart_step(
                score,
                start,
                opts,
                n,
                best_before,
                score_before,
                cache_before,
                candidate.current(),
                candidate_score,
                best_candidate.current(),
                current_score,
                scores@,
                best_layout.current(),
                best_score,
            ));
            assert forall|i: int|
                #![trigger candidates[i]]
                0 <= i < n + 1 implies restart_step(
                    score,
                    start,
                    opts,
                    i,
                    bests[i],
                    best_scores[i],
                    caches[i],
                    candidates[i],
                    candidate_scores[i],
                    reached_keys[i],
                    reached_scores[i],
                    caches[i + 1],
                    bests[i + 1],
                    best_scores[i + 1],
                ) by {
                if i < n {
                    assert(old_candidates[i] == candidates[i]);
                    assert(bests[i] == old_bests[i] && bests[i + 1] == old_bests[i + 1]);
                    assert(best_scores[i] == old_best_scores[i] && best_scores[i + 1]
                        == old_best_scores[i + 1]);
                    assert(caches[i] == old_caches[i] && caches[i + 1] == old_caches[i + 1]);
                    assert(candidate_scores[i] == old_candidate_scores[i]);
                    assert(reached_keys[i] == old_reached[i]);
                    assert(reached_scores[i] == old_reached_scores[i]);
                } else {
                    assert(bests[i] == best_before);
                    assert(best_scores[i] == score_before);
                    assert(caches[i] == cache_before);
                }
            }
        }
        iteration = iteration + 1;
    }
    let result = best_layout.layout().clone();
    proof {
        lemma_started_rearranged(best_layout, start, opts);
        assert(no_worse(score, start, first, result@));
        assert(climbed_from(score, start, opts, first, result@));
        assert(hill_climb_run(
            score,
            start,
            opts,
            first,
            bests,
            best_scores,
            caches,
            candidates,
            candidate_scores,
            reached_keys,
            reached_scores,
        ));
    }
    result
}

} // verus!
