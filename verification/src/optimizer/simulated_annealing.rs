//! Simulated annealing: random moves, a worse one kept by chance while the
//! temperature allows, then plain descent from the best layout found.
use std::collections::HashSet;
use vstd::prelude::*;

use crate::layout::{Key, Layout, Pos};
use crate::optimizer::hill_climb::{
    every_family, first_of, lemma_started_rearranged, looked_up, rearranged, run_groups,
    started_from,
};
use crate::optimizer::{
    admissible, cache_scored, fingerprint_scored, improvement, layout_key, lemma_cache_step,
    lemma_first_best_lowest, lemma_improvement_scored, no_move_below_keys, no_worse, observed,
    perturbed_by, scored, LayoutScores, OptimizableLayout, RunOptions,
};
use crate::random::{random_u64, seeded_rng};
use crate::swaps::{
    all_moves_of, apply_pairs, lemma_built_len, lemma_total_weight_bound, SwapMoveBuilder,
    SwapMoveStrategy,
};

verus! {

broadcast use vstd::std_specs::hash::group_hash_axioms;

/// No move of the optimizable layout gives an admissible layout (with no
/// tabu) that `f` scores below `s`.
pub open spec fn no_move_below<F: Fn(&Layout) -> u64>(f: F, o: OptimizableLayout, s: u64) -> bool {
    no_move_below_keys(f, o.current(), o.initial(), o.groups(), o.limit(), s)
}

/// Applies, while there is one, the best move whose layout `score` puts below
/// the best score so far (starting from `best_score`); returns the last best
/// score, below which no move then scores. Only the current layout changes.
pub fn descend<F: Fn(&Layout) -> u64>(
    optimizable: &mut OptimizableLayout,
    best_score: u64,
    score: &F,
) -> (r: u64)
    requires
        forall|l: &Layout| score.requires((l,)),
    ensures
        r == best_score && final(optimizable).current() == old(optimizable).current() || r
            < best_score && scored(score, final(optimizable).current(), r),
        no_move_below(score, *final(optimizable), r),
        final(optimizable).initial() == old(optimizable).initial(),
        final(optimizable).movable() == old(optimizable).movable(),
        final(optimizable).groups() == old(optimizable).groups(),
        final(optimizable).limit() == old(optimizable).limit(),
{
    let empty: HashSet<u64> = HashSet::new();
    let mut best = best_score;
    loop
        invariant
            forall|l: &Layout| score.requires((l,)),
            empty@ == Set::<u64>::empty(),
            best == best_score && optimizable.current() == old(optimizable).current() || best
                < best_score && scored(score, optimizable.current(), best),
            optimizable.initial() == old(optimizable).initial(),
            optimizable.movable() == old(optimizable).movable(),
            optimizable.groups() == old(optimizable).groups(),
            optimizable.limit() == old(optimizable).limit(),
        ensures
            best == best_score && optimizable.current() == old(optimizable).current() || best
                < best_score && scored(score, optimizable.current(), best),
            no_move_below(score, *optimizable, best),
            optimizable.initial() == old(optimizable).initial(),
            optimizable.movable() == old(optimizable).movable(),
            optimizable.groups() == old(optimizable).groups(),
            optimizable.limit() == old(optimizable).limit(),
        decreases best,
    {
        let bound = best;
        let check = |l: &Layout| -> (s: Option<u64>)
            requires
                score.requires((l,)),
            ensures
                s matches Some(v) ==> bound > v && score.ensures((l,), v),
                s is None ==> exists|v: u64| score.ensures((l,), v) && v >= bound,
            {
                let v = score(l);
                if bound > v {
                    Some(v)
                } else {
                    None
                }
            };
        let ghost before = *optimizable;
        let improved = optimizable.try_improve(&empty, check);
        match improved {
            None => {
                proof {
                    let obs = choose|obs: Seq<Option<u64>>|
                        #[trigger] improvement(
                            check,
                            before.current(),
                            before.initial(),
                            empty@,
                            before.limit(),
                            before.all_moves(),
                            obs,
                            improved,
                            optimizable.current(),
                        );
                    lemma_first_best_lowest(obs);
                    let o = *optimizable;
                    assert forall|j: int|
                        0 <= j < all_moves_of(o.groups()).len() && admissible(
                            #[trigger] apply_pairs(o.current(), all_moves_of(o.groups())[j]),
                            o.initial(),
                            Set::empty(),
                            o.limit(),
                        ) implies exists|c: Layout, v: u64|
                        c@ == apply_pairs(o.current(), all_moves_of(o.groups())[j])
                            && #[trigger] score.ensures((&c,), v) && v >= best by {
                        assert(obs[j] is None);
                        assert(observed(
                            check,
                            before.current(),
                            before.initial(),
                            empty@,
                            before.limit(),
                            before.all_moves()[j],
                            obs[j],
                        ));
                        let c = choose|c: Layout|
                            c@ == apply_pairs(o.current(), all_moves_of(o.groups())[j])
                                && #[trigger] check.ensures((&c,), None);
                        let v = choose|v: u64| score.ensures((&c,), v) && v >= bound;
                        assert(score.ensures((&c,), v) && v >= best);
                    }
                }
                break;
            },
            Some(v) => {
                proof {
                    let obs = choose|obs: Seq<Option<u64>>|
                        #[trigger] improvement(
                            check,
                            before.current(),
                            before.initial(),
                            empty@,
                            before.limit(),
                            before.all_moves(),
                            obs,
                            improved,
                            optimizable.current(),
                        );
                    lemma_improvement_scored(
                        check,
                        before.current(),
                        before.initial(),
                        empty@,
                        before.limit(),
                        before.all_moves(),
                        obs,
                        improved,
                        optimizable.current(),
                    );
                    let c = choose|c: Layout|
                        c@ == optimizable.current() && #[trigger] check.ensures((&c,), Some(v));
                    assert(score.ensures((&c,), v));
                    assert(scored(score, optimizable.current(), v));
                }
                best = v;
            },
        }
    }
    best
}

/// Where an annealing run stands between iterations: the score of the
/// current layout, the best score so far, how many candidates in a row were
/// rejected, and the temperature.
pub struct AnnealState<T> {
    pub current_score: u64,
    pub best_score: u64,
    pub stall: usize,
    pub temp: T,
}

/// The decision on a candidate scored `cs`, with `random` the bits drawn
/// for it, from `state`: whether it is `accepted`, and the state `next`.
/// A candidate that scores no higher than the current layout is accepted; a
/// higher one as `accept_worse` decides for the temperature, the candidate's
/// score, the current score and the bits. An accepted candidate becomes
/// current (and best when it scores below the best) and ends the stall; a
/// rejected one adds to the stall. The temperature goes through `cool`.
pub open spec fn anneal_decision<T, A: Fn(T, u64, u64, u64) -> bool, C: Fn(T) -> T>(
    accept_worse: A,
    cool: C,
    state: AnnealState<T>,
    cs: u64,
    random: u64,
    accepted: bool,
    next: AnnealState<T>,
) -> bool {
    &&& cs <= state.current_score ==> accepted
    &&& cs > state.current_score ==> accept_worse.ensures(
        (state.temp, cs, state.current_score, random),
        accepted,
    )
    &&& next.current_score == if accepted {
        cs
    } else {
        state.current_score
    }
    &&& next.best_score == if accepted && cs < state.best_score {
        cs
    } else {
        state.best_score
    }
    &&& next.stall == if accepted {
        0
    } else {
        state.stall + 1
    }
    &&& cool.ensures((state.temp,), next.temp)
}

/// One iteration's decision on a candidate scored `candidate_score`, with
/// `random` the bits drawn for it (read only when the candidate scores
/// higher than the current layout). A candidate that scores no higher is
/// accepted; a higher one when `accept_worse` says so, given the temperature,
/// the candidate's score, the current score and the bits. An accepted
/// candidate becomes current (and best when it scores below the best) and
/// ends the stall; a rejected one adds to the stall. The temperature then
/// goes through `cool`. Returns whether the candidate was accepted, and the
/// next state.
pub fn anneal_step<T: Copy, A: Fn(T, u64, u64, u64) -> bool, C: Fn(T) -> T>(
    state: &AnnealState<T>,
    candidate_score: u64,
    random: u64,
    accept_worse: &A,
    cool: &C,
) -> (r: (bool, AnnealState<T>))
    requires
        state.stall < usize::MAX,
        accept_worse.requires((state.temp, candidate_score, state.current_score, random)),
        cool.requires((state.temp,)),
    ensures
        anneal_decision(*accept_worse, *cool, *state, candidate_score, random, r.0, r.1),
{
    let accept = if state.current_score >= candidate_score {
        true
    } else {
        accept_worse(state.temp, candidate_score, state.current_score, random)
    };
    let temp = cool(state.temp);
    if accept {
        let best_score = if state.best_score > candidate_score {
            candidate_score
        } else {
            state.best_score
        };
        (accept, AnnealState { current_score: candidate_score, best_score, stall: 0, temp })
    } else {
        (
            accept,
            AnnealState {
                current_score: state.current_score,
                best_score: state.best_score,
                stall: state.stall + 1,
                temp,
            },
        )
    }
}

/// The weights by which an annealing run draws its moves: single swaps ten
/// times as often as three-cycles.
pub open spec fn anneal_weights() -> Seq<(SwapMoveStrategy, usize)> {
    seq![(SwapMoveStrategy::Single, 10usize), (SwapMoveStrategy::ThreeCycle, 1usize)]
}

/// Iteration `i` of an annealing run from `start` with `opts`: from the
/// current keys `cur`, the best keys `best`, the state `st` and the score
/// cache `cache`, one move drawn by `anneal_weights` gives `cand`, whose
/// score `cs` is looked up; the bits `random` are drawn only when `cs` is
/// above the current score (they are 0 otherwise); `anneal_decision` gives
/// `accepted` and the next state; an accepted candidate becomes current, and
/// best when it scores below the best score.
pub open spec fn anneal_iteration<
    T,
    F: Fn(&Layout) -> u64,
    A: Fn(T, u64, u64, u64) -> bool,
    C: Fn(T) -> T,
>(
    f: F,
    accept_worse: A,
    cool: C,
    start: Seq<Key>,
    opts: &RunOptions,
    cur: Seq<Key>,
    best: Seq<Key>,
    st: AnnealState<T>,
    cache: Map<u64, u64>,
    cand: Seq<Key>,
    cs: u64,
    random: u64,
    accepted: bool,
    next_cache: Map<u64, u64>,
    next_cur: Seq<Key>,
    next_best: Seq<Key>,
    next_st: AnnealState<T>,
) -> bool {
    &&& exists|ms: Seq<Seq<(Pos, Pos)>>|
        #[trigger] perturbed_by(
            cur,
            start,
            opts.max_swapped,
            run_groups(start, opts),
            anneal_weights(),
            1,
            ms,
            cand,
        )
    &&& looked_up(f, cache, cand, cs, next_cache)
    &&& cs <= st.current_score ==> random == 0
    &&& anneal_decision(accept_worse, cool, st, cs, random, accepted, next_st)
    &&& next_cur == if accepted {
        cand
    } else {
        cur
    }
    &&& next_best == if accepted && cs < st.best_score {
        cand
    } else {
        best
    }
}

/// An annealing run from `start` with `opts`, iteration by iteration: it
/// begins at `first` (the start, shuffled when asked), looked up in an empty
/// cache, as both the current and the best keys, with no stall and the
/// temperature `temperature`; each iteration is an `anneal_iteration`; it
/// runs no iteration when there is no move, and otherwise stops after
/// `opts.iterations` iterations or once the stall reaches `stall_accepted`,
/// and not before.
pub open spec fn anneal_run<
    T,
    F: Fn(&Layout) -> u64,
    A: Fn(T, u64, u64, u64) -> bool,
    C: Fn(T) -> T,
>(
    f: F,
    accept_worse: A,
    cool: C,
    start: Seq<Key>,
    opts: &RunOptions,
    stall_accepted: usize,
    temperature: T,
    first: Seq<Key>,
    curs: Seq<Seq<Key>>,
    bests: Seq<Seq<Key>>,
    states: Seq<AnnealState<T>>,
    caches: Seq<Map<u64, u64>>,
    cands: Seq<Seq<Key>>,
    cand_scores: Seq<u64>,
    randoms: Seq<u64>,
    accepts: Seq<bool>,
) -> bool {
    let k = cands.len();
    &&& first_of(start, opts, first)
    &&& curs.len() == k + 1
    &&& bests.len() == k + 1
    &&& states.len() == k + 1
    &&& caches.len() == k + 1
    &&& cand_scores.len() == k
    &&& randoms.len() == k
    &&& accepts.len() == k
    &&& curs[0] == first
    &&& bests[0] == first
    &&& looked_up(f, Map::empty(), first, states[0].current_score, caches[0])
    &&& states[0].best_score == states[0].current_score
    &&& states[0].stall == 0
    &&& states[0].temp == temperature
    &&& forall|i: int|
        #![trigger cands[i]]
        0 <= i < k ==> anneal_iteration(
            f,
            accept_worse,
            cool,
            start,
            opts,
            curs[i],
            bests[i],
            states[i],
            caches[i],
            cands[i],
            cand_scores[i],
            randoms[i],
            accepts[i],
            caches[i + 1],
            curs[i + 1],
            bests[i + 1],
            states[i + 1],
        )
    &&& forall|i: int| 0 < i < k ==> (#[trigger] states[i]).stall < stall_accepted
    &&& k <= opts.iterations
    &&& all_moves_of(run_groups(start, opts)).len() == 0 ==> k == 0
    &&& all_moves_of(run_groups(start, opts)).len() > 0 ==> (k == opts.iterations || (k >= 1
        && states[k as int].stall >= stall_accepted))
}

/// What the closing descent from `from`, scored `s`, gives: `result` is
/// `from` with the score `s`, or a layout scored lower, and no admissible
/// move from `result` scores below that score.
pub open spec fn descended<F: Fn(&Layout) -> u64>(
    f: F,
    start: Seq<Key>,
    opts: &RunOptions,
    from: Seq<Key>,
    s: u64,
    result: Seq<Key>,
) -> bool {
    exists|d: u64|
        #![trigger no_move_below_keys(f, result, start, run_groups(start, opts), opts.max_swapped, d)]
        (d == s && result == from || d < s && scored(f, result, d)) && no_move_below_keys(
            f,
            result,
            start,
            run_groups(start, opts),
            opts.max_swapped,
            d,
        )
}

/// Optimizes `layout` by simulated annealing, scoring layouts with `score`
/// (lower is better). Each iteration perturbs the current layout by one move
/// (single swaps ten times as often as three-cycles) and decides on it by
/// `anneal_step`, drawing 64 random bits only for a candidate that scores
/// higher. It stops after `opts.iterations` iterations, when no move exists,
/// or after `stall_accepted` rejections in a row; then the best layout found
/// descends while a move scores lower. Scores are cached by layout
/// fingerprint. `anneal_run` states the run iteration by iteration, whatever
/// the generator draws, and `descended` the closing descent.
pub fn anneal<T: Copy, F: Fn(&Layout) -> u64, A: Fn(T, u64, u64, u64) -> bool, C: Fn(T) -> T>(
    layout: &Layout,
    opts: &RunOptions,
    stall_accepted: usize,
    temperature: T,
    score: &F,
    accept_worse: &A,
    cool: &C,
) -> (r: Layout)
    requires
        forall|l: &Layout| score.requires((l,)),
        forall|t: T, a: u64, b: u64, x: u64| accept_worse.requires((t, a, b, x)),
        forall|t: T| cool.requires((t,)),
    ensures
        exists|
            first: Seq<Key>,
            curs: Seq<Seq<Key>>,
            bests: Seq<Seq<Key>>,
            states: Seq<AnnealState<T>>,
            caches: Seq<Map<u64, u64>>,
            cands: Seq<Seq<Key>>,
            cand_scores: Seq<u64>,
            randoms: Seq<u64>,
            accepts: Seq<bool>,
        |
            #[trigger] anneal_run(
                score,
                *accept_worse,
                *cool,
                layout@,
                opts,
                stall_accepted,
                temperature,
                first,
                curs,
                bests,
                states,
                caches,
                cands,
                cand_scores,
                randoms,
                accepts,
            ) && descended(score, layout@, opts, bests.last(), states.last().best_score, r@),
        rearranged(layout@, opts.pinned@, r@),
        exists|first: Seq<Key>|
            #![trigger no_worse(score, layout@, first, r@)]
            rearranged(layout@, opts.pinned@, first) && (!opts.shuffle ==> first == layout@)
                && no_worse(score, layout@, first, r@),
        exists|s: u64|
            #![trigger fingerprint_scored(score, layout@, r@, s)]
            fingerprint_scored(score, layout@, r@, s) && no_move_below_keys(
                score,
                r@,
                layout@,
                run_groups(layout@, opts),
                opts.max_swapped,
                s,
            ),
{
    let ghost start = layout@;
    let mut rng = seeded_rng(opts.seed);
    let mut best_layout = OptimizableLayout::new(
        layout.clone(),
        opts.pinned.as_slice(),
        opts.max_swapped,
        SwapMoveBuilder::full(),
    );
    if opts.shuffle {
        best_layout.shuffle(&mut rng);
    }
    let ghost first = best_layout.current();
    assert(first_of(start, opts, first));
    let score_of = |l: &Layout| -> (s: u64)
        requires
            score.requires((l,)),
        ensures
            score.ensures((l,), s),
        { score(l) };
    assert(forall|l: &Layout| score_of.requires((l,)));
    assert(forall|x: &Layout, s: u64| score_of.ensures((x,), s) ==> score.ensures((x,), s));
    let mut scores: LayoutScores<u64> = LayoutScores::new();
    let start_layout = best_layout.layout();
    proof {
        lemma_started_rearranged(best_layout, start, opts);
    }
    let start_score = scores.get_or_compute(start_layout, score_of);
    let ghost s0 = start_score;
    proof {
        assert(cache_scored(score, start, Map::<u64, u64>::empty()));
        lemma_cache_step(
            score,
            score_of,
            start,
            Map::<u64, u64>::empty(),
            *start_layout,
            start_score,
            scores@,
        );
        assert(score.ensures((start_layout,), s0));
        assert(scored(score, first, s0));
        assert(looked_up(score, Map::empty(), first, s0, scores@));
    }
    let mut current = best_layout.clone();
    let mut state = AnnealState {
        current_score: start_score,
        best_score: start_score,
        stall: 0,
        temp: temperature,
    };
    let weights = vec![(SwapMoveStrategy::Single, 10usize), (SwapMoveStrategy::ThreeCycle, 1usize)];
    proof {
        assert(weights@ =~= anneal_weights());
        let groups = best_layout.groups();
        lemma_built_len(every_family(), best_layout.movable());
        assert forall|t: int| 0 <= t < weights@.len() implies (#[trigger] weights@[t]).1 <= 10nat by {}
        lemma_total_weight_bound(groups, weights@, 10);
        assert(10 * groups.len() <= 40) by (nonlinear_arith)
            requires
                groups.len() <= 4,
        ;
    }
    let ghost mut curs: Seq<Seq<Key>> = seq![first];
    let ghost mut bests: Seq<Seq<Key>> = seq![first];
    let ghost mut states: Seq<AnnealState<T>> = seq![state];
    let ghost mut caches: Seq<Map<u64, u64>> = seq![scores@];
    let ghost mut cands: Seq<Seq<Key>> = Seq::empty();
    let ghost mut cand_scores: Seq<u64> = Seq::empty();
    let ghost mut randoms: Seq<u64> = Seq::empty();
    let ghost mut accepts: Seq<bool> = Seq::empty();
    let ghost moves = all_moves_of(run_groups(start, opts));
    let mut iteration: usize = 0;
    while iteration < opts.iterations
        invariant_except_break
            state.stall <= iteration,
            cands.len() == iteration,
            iteration > 0 ==> state.stall < stall_accepted,
        invariant
            forall|l: &Layout| score_of.requires((l,)),
            forall|x: &Layout, s: u64| score_of.ensures((x,), s) ==> score.ensures((x,), s),
            !opts.shuffle ==> first == start,
            first_of(start, opts, first),
            rearranged(start, opts.pinned@, first),
            scored(score, first, s0),
            cache_scored(score, start, scores@),
            fingerprint_scored(score, start, best_layout.current(), state.best_score),
            state.best_score <= s0,
            forall|t: T, a: u64, b: u64, x: u64| accept_worse.requires((t, a, b, x)),
            forall|t: T| cool.requires((t,)),
            started_from(best_layout, start, opts),
            started_from(current, start, opts),
            crate::swaps::total_weight(current.groups(), weights@) <= 40,
            weights@ == anneal_weights(),
            moves == all_moves_of(run_groups(start, opts)),
            iteration <= opts.iterations,
            cands.len() <= opts.iterations,
            cands.len() > 0 ==> moves.len() > 0,
            curs.len() == cands.len() + 1,
            bests.len() == cands.len() + 1,
            states.len() == cands.len() + 1,
            caches.len() == cands.len() + 1,
            cand_scores.len() == cands.len(),
            randoms.len() == cands.len(),
            accepts.len() == cands.len(),
            curs[0] == first,
            bests[0] == first,
            looked_up(score, Map::empty(), first, states[0].current_score, caches[0]),
            states[0].best_score == states[0].current_score,
            states[0].stall == 0,
            states[0].temp == temperature,
            curs.last() == current.current(),
            bests.last() == best_layout.current(),
            states.last() == state,
            caches.last() == scores@,
            forall|i: int|
                #![trigger cands[i]]
                0 <= i < cands.len() ==> anneal_iteration(
                    score,
                    *accept_worse,
                    *cool,
                    start,
                    opts,
                    curs[i],
                    bests[i],
                    states[i],
                    caches[i],
                    cands[i],
                    cand_scores[i],
                    randoms[i],
                    accepts[i],
                    caches[i + 1],
                    curs[i + 1],
                    bests[i + 1],
                    states[i + 1],
                ),
            forall|i: int| 0 < i < cands.len() ==> (#[trigger] states[i]).stall < stall_accepted,
        ensures
            cands.len() <= opts.iterations,
            moves.len() == 0 ==> cands.len() == 0,
            moves.len() > 0 ==> (cands.len() == opts.iterations || (cands.len() >= 1
                && state.stall >= stall_accepted)),
        decreases opts.iterations - iteration,
    {
        if current.swap_moves().is_empty() {
            proof {
                assert(current.all_moves() == moves);
                if cands.len() > 0 {
                    assert(moves.len() > 0);
                }
            }
            break;
        }
        proof {
            assert(current.all_moves() == moves);
        }
        let mut candidate = current.clone();
        candidate.perturb(&mut rng, 1, weights.as_slice());
        let ghost cache_before = scores@;
        let candidate_layout = candidate.layout();
        let candidate_score = scores.get_or_compute(candidate_layout, score_of);
        proof {
            lemma_cache_step(
                score,
                score_of,
                start,
                cache_before,
                *candidate_layout,
                candidate_score,
                scores@,
            );
            if !cache_before.contains_key(layout_key(candidate.current())) {
                assert(score.ensures((candidate_layout,), candidate_score));
                assert(scored(score, candidate.current(), candidate_score));
            }
            assert(looked_up(score, cache_before, candidate.current(), candidate_score, scores@));
        }
        let random = if state.current_score >= candidate_score {
            0
        } else {
            random_u64(&mut rng)
        };
        let ghost state_before = state;
        let ghost cur_before = current.current();
        let ghost best_before = best_layout.current();
        let (accepted, next) = anneal_step(&state, candidate_score, random, accept_worse, cool);
        if accepted {
            if state.best_score > candidate_score {
                best_layout = candidate.clone();
            }
            current = candidate;
        }
        state = next;
        proof {
            let n = cands.len() as int;
            let old_curs = curs;
            let old_bests = bests;
            let old_states = states;
            let old_caches = caches;
            let old_cands = cands;
            let old_cand_scores = cand_scores;
            let old_randoms = randoms;
            let old_accepts = accepts;
            curs = curs.push(current.current());
            bests = bests.push(best_layout.current());
            states = states.push(state);
            caches = caches.push(scores@);
            cands = cands.push(candidate_layout@);
            cand_scores = cand_scores.push(candidate_score);
            randoms = randoms.push(random);
            accepts = accepts.push(accepted);
            assert(anneal_iteration(
                score,
                *accept_worse,
                *cool,
                start,
                opts,
                cur_before,
                best_before,
                state_before,
                cache_before,
                candidate_layout@,
                candidate_score,
                random,
                accepted,
                scores@,
                current.current(),
                best_layout.current(),
                state,
            ));
            assert forall|i: int|
                #![trigger cands[i]]
                0 <= i < cands.len() implies anneal_iteration(
                    score,
                    *accept_worse,
                    *cool,
                    start,
                    opts,
                    curs[i],
                    bests[i],
                    states[i],
                    caches[i],
                    cands[i],
                    cand_scores[i],
                    randoms[i],
                    accepts[i],
                    caches[i + 1],
                    curs[i + 1],
                    bests[i + 1],
                    states[i + 1],
                ) by {
                if i < n {
                    assert(old_cands[i] == cands[i]);
                    assert(curs[i] == old_curs[i] && curs[i + 1] == old_curs[i + 1]);
                    assert(bests[i] == old_bests[i] && bests[i + 1] == old_bests[i + 1]);
                    assert(states[i] == old_states[i] && states[i + 1] == old_states[i + 1]);
                    assert(caches[i] == old_caches[i] && caches[i + 1] == old_caches[i + 1]);
                    assert(cand_scores[i] == old_cand_scores[i]);
                    assert(randoms[i] == old_randoms[i]);
                    assert(accepts[i] == old_accepts[i]);
                } else {
                    assert(curs[i] == cur_before);
                    assert(bests[i] == best_before);
                    assert(states[i] == state_before);
                    assert(caches[i] == cache_before);
                }
            }
            assert forall|i: int| 0 < i < cands.len() implies (#[trigger] states[i]).stall
                < stall_accepted by {
                if i < n {
                    assert(states[i] == old_states[i]);
                } else {
                    assert(states[i] == state_before);
                }
            }
        }
        if state.stall >= stall_accepted {
            break;
        }
        iteration = iteration + 1;
    }
    let best_score = state.best_score;
    let ghost best_start = best_layout.current();
    let final_score = descend(&mut best_layout, best_score, score);
    let result = best_layout.layout().clone();
    proof {
        lemma_started_rearranged(best_layout, start, opts);
        if final_score < best_score {
            let c = choose|c: Layout|
                c@ == best_layout.current() && #[trigger] score.ensures((&c,), final_score);
            assert(fingerprint_scored(score, start, result@, final_score));
        }
        assert(no_worse(score, start, first, result@));
        assert(fingerprint_scored(score, start, result@, final_score));
        assert(descended(score, start, opts, best_start, best_score, result@));
        assert(anneal_run(
            score,
            *accept_worse,
            *cool,
            start,
            opts,
            stall_accepted,
            temperature,
            first,
            curs,
            bests,
            states,
            caches,
            cands,
            cand_scores,
            randoms,
            accepts,
        ));
    }
    result
}

} // verus!
