//! Moves that rearrange the characters of a layout: single swaps, whole
//! column or row exchanges, and three-cycles.
use vstd::prelude::*;

use crate::layout::{
    char_at_pos, chars_of, holds_position, lemma_index_at, lemma_swap_commute, lemma_swap_keeps,
    lemma_swap_twice, positions_distinct, same_places, swap_spec, with_char, Key, Layout, Pos,
};
use crate::random::random_below;
use rand::rngs::StdRng;
use std::collections::BTreeMap;
use vstd::std_specs::btree::increasing_seq;
use vstd::std_specs::cmp::OrdSpec;
use vstd::std_specs::iter::IteratorSpec;

verus! {

broadcast use {Seq::lemma_flatten_push, vstd::laws_cmp::group_laws_cmp};

/// A family of moves.
#[derive(Clone, Copy, Debug, PartialEq, Eq, Hash, Structural)]
pub enum SwapMoveStrategy {
    Single,
    Column,
    Row,
    ThreeCycle,
}

/// A sequence of swaps applied one after the other.
#[derive(Clone, Debug, PartialEq)]
pub struct SwapMove(pub Vec<(Pos, Pos)>);

/// The keys after each pair of positions has traded characters, in order.
pub open spec fn apply_pairs(keys: Seq<Key>, pairs: Seq<(Pos, Pos)>) -> Seq<Key>
    decreases pairs.len(),
{
    if pairs.len() == 0 {
        keys
    } else {
        swap_spec(apply_pairs(keys, pairs.drop_last()), pairs.last().0, pairs.last().1)
    }
}

/// The pairs of each move, in order.
pub open spec fn pairs_of(moves: Seq<SwapMove>) -> Seq<Seq<(Pos, Pos)>> {
    moves.map_values(|m: SwapMove| m.0@)
}

proof fn lemma_pairs_of_push(moves: Seq<SwapMove>, m: SwapMove)
    ensures
        pairs_of(moves.push(m)) == pairs_of(moves).push(m.0@),
{
    assert(pairs_of(moves.push(m)) =~= pairs_of(moves).push(m.0@));
}

impl SwapMove {
    /// Performs the swaps of the move on the layout, in order.
    pub fn apply(&self, layout: &mut Layout)
        ensures
            final(layout)@ == apply_pairs(old(layout)@, self.0@),
    {
        let mut i: usize = 0;
        while i < self.0.len()
            invariant
                i <= self.0@.len(),
                layout@ == apply_pairs(old(layout)@, self.0@.take(i as int)),
            decreases self.0@.len() - i,
        {
            let (p1, p2) = self.0[i];
            layout.swap_chars(&p1, &p2);
            proof {
                let t = self.0@.take(i + 1);
                assert(t.drop_last() =~= self.0@.take(i as int));
                assert(t.last() == (p1, p2));
            }
            i = i + 1;
        }
        assert(self.0@.take(i as int) =~= self.0@);
    }
}

/// The number of positions after index `j` among `n`.
pub open spec fn after(n: int, j: int) -> nat {
    if j + 1 < n {
        (n - j - 1) as nat
    } else {
        0
    }
}

/// The single swaps of `ps[i]` with each later position.
pub open spec fn single_row(ps: Seq<Pos>, i: int) -> Seq<Seq<(Pos, Pos)>> {
    Seq::new(after(ps.len() as int, i), |t: int| seq![(ps[i], ps[i + 1 + t])])
}

/// Every swap of two positions, earlier position first, in index order.
pub open spec fn single_moves_spec(ps: Seq<Pos>) -> Seq<Seq<(Pos, Pos)>> {
    Seq::new(ps.len(), |i: int| single_row(ps, i)).flatten()
}

/// The two three-cycles of positions `i < j < k`.
pub open spec fn cycle_pair(ps: Seq<Pos>, i: int, j: int, k: int) -> Seq<Seq<(Pos, Pos)>> {
    seq![seq![(ps[i], ps[k]), (ps[j], ps[k])], seq![(ps[i], ps[j]), (ps[k], ps[j])]]
}

pub open spec fn cycle_row(ps: Seq<Pos>, i: int, j: int) -> Seq<Seq<(Pos, Pos)>> {
    Seq::new(after(ps.len() as int, j), |u: int| cycle_pair(ps, i, j, j + 1 + u)).flatten()
}

pub open spec fn cycle_block(ps: Seq<Pos>, i: int) -> Seq<Seq<(Pos, Pos)>> {
    Seq::new(after(ps.len() as int, i), |t: int| cycle_row(ps, i, i + 1 + t)).flatten()
}

/// Both three-cycles of every triple of positions, in index order.
pub open spec fn cycle_moves_spec(ps: Seq<Pos>) -> Seq<Seq<(Pos, Pos)>> {
    Seq::new(ps.len(), |i: int| cycle_block(ps, i)).flatten()
}

fn single_moves(positions: &[Pos]) -> (r: Vec<SwapMove>)
    ensures
        pairs_of(r@) == single_moves_spec(positions@),
{
    let ghost ps = positions@;
    let n = positions.len();
    let mut moves: Vec<SwapMove> = Vec::new();
    let mut i: usize = 0;
    while i < n
        invariant
            n == ps.len(),
            ps == positions@,
            i <= n,
            pairs_of(moves@) == Seq::new(i as nat, |a: int| single_row(ps, a)).flatten(),
        decreases n - i,
    {
        let ghost base = pairs_of(moves@);
        let p1 = positions[i];
        let mut j: usize = i + 1;
        while j < n
            invariant
                n == ps.len(),
                ps == positions@,
                i < n,
                i + 1 <= j <= n,
                p1 == ps[i as int],
                pairs_of(moves@) == base + single_row(ps, i as int).take(j - i - 1),
            decreases n - j,
        {
            let m = SwapMove(vec![(p1, positions[j])]);
            proof {
                lemma_pairs_of_push(moves@, m);
                assert(m.0@ =~= seq![(ps[i as int], ps[j as int])]);
                assert(single_row(ps, i as int).take(j - i) =~= single_row(ps, i as int).take(
                    j - i - 1,
                ).push(m.0@));
            }
            moves.push(m);
            j = j + 1;
        }
        proof {
            assert(single_row(ps, i as int).take(j - i - 1) =~= single_row(ps, i as int));
            assert(Seq::new((i + 1) as nat, |a: int| single_row(ps, a)) =~= Seq::new(
                i as nat,
                |a: int| single_row(ps, a),
            ).push(single_row(ps, i as int)));
        }
        i = i + 1;
    }
    proof {
        assert(Seq::new(i as nat, |a: int| single_row(ps, a)) =~= Seq::new(
            ps.len(),
            |a: int| single_row(ps, a),
        ));
    }
    moves
}

fn three_cycle_moves(positions: &[Pos]) -> (r: Vec<SwapMove>)
    ensures
        pairs_of(r@) == cycle_moves_spec(positions@),
{
    let ghost ps = positions@;
    let n = positions.len();
    let mut moves: Vec<SwapMove> = Vec::new();
    let mut i: usize = 0;
    while i < n
        invariant
            n == ps.len(),
            ps == positions@,
            i <= n,
            pairs_of(moves@) == Seq::new(i as nat, |a: int| cycle_block(ps, a)).flatten(),
        decreases n - i,
    {
        let ghost base = pairs_of(moves@);
        let a = positions[i];
        let mut j: usize = i + 1;
        while j < n
            invariant
                n == ps.len(),
                ps == positions@,
                i < n,
                i + 1 <= j <= n,
                a == ps[i as int],
                pairs_of(moves@) == base + Seq::new(
                    (j - i - 1) as nat,
                    |t: int| cycle_row(ps, i as int, i + 1 + t),
                ).flatten(),
            decreases n - j,
        {
            let ghost base2 = pairs_of(moves@);
            let b = positions[j];
            let mut k: usize = j + 1;
            while k < n
                invariant
                    n == ps.len(),
                    ps == positions@,
                    i < j < n,
                    j + 1 <= k <= n,
                    a == ps[i as int],
                    b == ps[j as int],
                    pairs_of(moves@) == base2 + Seq::new(
                        (k - j - 1) as nat,
                        |u: int| cycle_pair(ps, i as int, j as int, j + 1 + u),
                    ).flatten(),
                decreases n - k,
            {
                let c = positions[k];
                let m1 = SwapMove(vec![(a, c), (b, c)]);
                let m2 = SwapMove(vec![(a, b), (c, b)]);
                proof {
                    let prev = Seq::new(
                        (k - j - 1) as nat,
                        |u: int| cycle_pair(ps, i as int, j as int, j + 1 + u),
                    );
                    let next = Seq::new(
                        (k - j) as nat,
                        |u: int| cycle_pair(ps, i as int, j as int, j + 1 + u),
                    );
                    assert(next =~= prev.push(cycle_pair(ps, i as int, j as int, k as int)));
                    assert(m1.0@ =~= seq![(a, c), (b, c)]);
                    assert(m2.0@ =~= seq![(a, b), (c, b)]);
                    lemma_pairs_of_push(moves@, m1);
                    lemma_pairs_of_push(moves@.push(m1), m2);
                    assert(cycle_pair(ps, i as int, j as int, k as int) =~= seq![m1.0@, m2.0@]);
                    assert(base2 + next.flatten() =~= base2 + prev.flatten() + seq![m1.0@, m2.0@]);
                }
                moves.push(m1);
                moves.push(m2);
                proof {
                    assert(pairs_of(moves@) =~= pairs_of(moves@.drop_last().drop_last()).push(
                        m1.0@,
                    ).push(m2.0@));
                }
                k = k + 1;
            }
            proof {
                assert(Seq::new(
                    (k - j - 1) as nat,
                    |u: int| cycle_pair(ps, i as int, j as int, j + 1 + u),
                ) =~= Seq::new(
                    after(n as int, j as int),
                    |u: int| cycle_pair(ps, i as int, j as int, j + 1 + u),
                ));
                assert(Seq::new(
                    (j - i) as nat,
                    |t: int| cycle_row(ps, i as int, i + 1 + t),
                ) =~= Seq::new(
                    (j - i - 1) as nat,
                    |t: int| cycle_row(ps, i as int, i + 1 + t),
                ).push(cycle_row(ps, i as int, j as int)));
            }
            j = j + 1;
        }
        proof {
            assert(Seq::new((j - i - 1) as nat, |t: int| cycle_row(ps, i as int, i + 1 + t))
                =~= Seq::new(after(n as int, i as int), |t: int| cycle_row(ps, i as int, i + 1 + t)));
            assert(Seq::new((i + 1) as nat, |a: int| cycle_block(ps, a)) =~= Seq::new(
                i as nat,
                |a: int| cycle_block(ps, a),
            ).push(cycle_block(ps, i as int)));
        }
        i = i + 1;
    }
    proof {
        assert(Seq::new(i as nat, |a: int| cycle_block(ps, a)) =~= Seq::new(
            ps.len(),
            |a: int| cycle_block(ps, a),
        ));
    }
    moves
}

/// The row or column of a position, as chosen.
pub open spec fn key_of(p: Pos, by_column: bool) -> usize {
    if by_column {
        p.c
    } else {
        p.r
    }
}

pub open spec fn strictly_increasing(s: Seq<usize>) -> bool {
    forall|i: int, j: int| 0 <= i < j < s.len() ==> s[i] < s[j]
}

/// `ks` lists, in increasing order, each row (or column) that some position has.
pub open spec fn is_key_list(ps: Seq<Pos>, by_column: bool, ks: Seq<usize>) -> bool {
    &&& strictly_increasing(ks)
    &&& forall|t: int| 0 <= t < ks.len() ==> exists|i: int| 0 <= i < ps.len() && key_of(ps[i], by_column) == #[trigger] ks[t]
    &&& forall|i: int| 0 <= i < ps.len() ==> #[trigger] ks.contains(key_of(ps[i], by_column))
}

/// The rows (or columns) of the positions, each once, in increasing order.
pub open spec fn key_list(ps: Seq<Pos>, by_column: bool) -> Seq<usize> {
    choose|ks: Seq<usize>| is_key_list(ps, by_column, ks)
}

/// The positions in row (or column) `k`, in their order.
pub open spec fn group_of(ps: Seq<Pos>, by_column: bool, k: usize) -> Seq<Pos> {
    ps.filter(|p: Pos| key_of(p, by_column) == k)
}

pub open spec fn min_len(a: nat, b: nat) -> nat {
    if a <= b {
        a
    } else {
        b
    }
}

/// Pairs of positions at the same place in two groups, up to the shorter one.
pub open spec fn zip_spec(a: Seq<Pos>, b: Seq<Pos>) -> Seq<(Pos, Pos)> {
    Seq::new(min_len(a.len(), b.len()), |t: int| (a[t], b[t]))
}

/// The exchanges of group `i` with each later group.
pub open spec fn group_row(ps: Seq<Pos>, by_column: bool, ks: Seq<usize>, i: int) -> Seq<
    Seq<(Pos, Pos)>,
> {
    Seq::new(
        after(ks.len() as int, i),
        |t: int| zip_spec(group_of(ps, by_column, ks[i]), group_of(ps, by_column, ks[i + 1 + t])),
    )
}

/// For every two rows (or columns), in increasing order, the move that
/// exchanges them position by position up to the shorter one.
pub open spec fn group_moves_spec(ps: Seq<Pos>, by_column: bool) -> Seq<Seq<(Pos, Pos)>> {
    let ks = key_list(ps, by_column);
    Seq::new(ks.len(), |i: int| group_row(ps, by_column, ks, i)).flatten()
}

proof fn lemma_key_list_unique(a: Seq<usize>, b: Seq<usize>)
    requires
        strictly_increasing(a),
        strictly_increasing(b),
        forall|x: usize| a.contains(x) <==> b.contains(x),
    ensures
        a == b,
    decreases a.len(),
{
    if a.len() == 0 {
        if b.len() > 0 {
            assert(b.contains(b[0]));
        }
        assert(a =~= b);
    } else {
        assert(a.contains(a[0]));
        assert(b.len() > 0);
        assert(b.contains(b[0]));
        let ia = choose|t: int| 0 <= t < b.len() && b[t] == a[0];
        let ib = choose|t: int| 0 <= t < a.len() && a[t] == b[0];
        assert(a[0] == b[0]);
        let ra = a.drop_first();
        let rb = b.drop_first();
        assert forall|x: usize| ra.contains(x) <==> rb.contains(x) by {
            if ra.contains(x) {
                let t = choose|t: int| 0 <= t < ra.len() && ra[t] == x;
                assert(a[t + 1] == x);
                assert(a.contains(x));
                let u = choose|u: int| 0 <= u < b.len() && b[u] == x;
                assert(u != 0);
                assert(rb[u - 1] == x);
            }
            if rb.contains(x) {
                let t = choose|t: int| 0 <= t < rb.len() && rb[t] == x;
                assert(b[t + 1] == x);
                assert(b.contains(x));
                let u = choose|u: int| 0 <= u < a.len() && a[u] == x;
                assert(u != 0);
                assert(ra[u - 1] == x);
            }
        }
        lemma_key_list_unique(ra, rb);
        assert(a =~= seq![a[0]] + ra);
        assert(b =~= seq![b[0]] + rb);
    }
}

proof fn lemma_key_list_is(ps: Seq<Pos>, by_column: bool, ks: Seq<usize>)
    requires
        is_key_list(ps, by_column, ks),
    ensures
        key_list(ps, by_column) == ks,
{
    let c = key_list(ps, by_column);
    assert(is_key_list(ps, by_column, c));
    assert forall|x: usize| c.contains(x) <==> ks.contains(x) by {
        if c.contains(x) {
            let t = choose|t: int| 0 <= t < c.len() && c[t] == x;
            let i = choose|i: int| 0 <= i < ps.len() && key_of(ps[i], by_column) == c[t];
            assert(ks.contains(key_of(ps[i], by_column)));
        }
        if ks.contains(x) {
            let t = choose|t: int| 0 <= t < ks.len() && ks[t] == x;
            let i = choose|i: int| 0 <= i < ps.len() && key_of(ps[i], by_column) == ks[t];
            assert(c.contains(key_of(ps[i], by_column)));
        }
    }
    lemma_key_list_unique(c, ks);
}

fn key_of_exec(p: &Pos, by_column: bool) -> (r: usize)
    ensures
        r == key_of(*p, by_column),
{
    if by_column {
        p.c
    } else {
        p.r
    }
}

#[verifier::spinoff_prover]
proof fn lemma_key_list_extend_present(
    pre: Seq<Pos>,
    by_column: bool,
    ks: Seq<usize>,
    p: Pos,
    idx: int,
)
    requires
        is_key_list(pre, by_column, ks),
        0 <= idx < ks.len(),
        ks[idx] == key_of(p, by_column),
    ensures
        is_key_list(pre.push(p), by_column, ks),
{
    let post = pre.push(p);
    assert forall|t: int| 0 <= t < ks.len() implies exists|i: int|
        0 <= i < post.len() && key_of(post[i], by_column) == #[trigger] ks[t] by {
        let i = choose|i: int| 0 <= i < pre.len() && key_of(pre[i], by_column) == ks[t];
        assert(post[i] == pre[i]);
    }
    assert forall|i: int| 0 <= i < post.len() implies #[trigger] ks.contains(
        key_of(post[i], by_column),
    ) by {
        if i < pre.len() {
            assert(post[i] == pre[i]);
        } else {
            assert(ks[idx] == key_of(post[i], by_column));
        }
    }
}

#[verifier::spinoff_prover]
proof fn lemma_key_list_extend_insert(
    pre: Seq<Pos>,
    by_column: bool,
    ks: Seq<usize>,
    p: Pos,
    idx: int,
)
    requires
        is_key_list(pre, by_column, ks),
        0 <= idx <= ks.len(),
        forall|t: int| 0 <= t < idx ==> ks[t] < key_of(p, by_column),
        idx < ks.len() ==> ks[idx] > key_of(p, by_column),
    ensures
        is_key_list(pre.push(p), by_column, ks.insert(idx, key_of(p, by_column))),
{
    let k = key_of(p, by_column);
    let post = pre.push(p);
    let nk = ks.insert(idx, k);
    assert forall|a: int, b: int| 0 <= a < b < nk.len() implies nk[a] < nk[b] by {
        if b < idx {
        } else if b == idx {
        } else if a < idx {
            assert(nk[b] == ks[b - 1]);
        } else if a == idx {
            assert(nk[b] == ks[b - 1]);
        } else {
            assert(nk[a] == ks[a - 1]);
            assert(nk[b] == ks[b - 1]);
        }
    }
    assert forall|t: int| 0 <= t < nk.len() implies exists|i: int|
        0 <= i < post.len() && key_of(post[i], by_column) == #[trigger] nk[t] by {
        if t == idx {
            assert(key_of(post[pre.len() as int], by_column) == nk[t]);
        } else {
            let t0 = if t < idx {
                t
            } else {
                t - 1
            };
            assert(nk[t] == ks[t0]);
            let i = choose|i: int| 0 <= i < pre.len() && key_of(pre[i], by_column) == ks[t0];
            assert(post[i] == pre[i]);
        }
    }
    assert forall|i: int| 0 <= i < post.len() implies #[trigger] nk.contains(
        key_of(post[i], by_column),
    ) by {
        if i < pre.len() {
            assert(post[i] == pre[i]);
            assert(ks.contains(key_of(pre[i], by_column)));
            let t = choose|t: int| 0 <= t < ks.len() && ks[t] == key_of(pre[i], by_column);
            if t < idx {
                assert(nk[t] == ks[t]);
            } else {
                assert(nk[t + 1] == ks[t]);
            }
        } else {
            assert(nk[idx] == k);
        }
    }
    assert(strictly_increasing(nk));
    assert(forall|t: int| 0 <= t < nk.len() ==> exists|i: int| 0 <= i < post.len() && key_of(post[i], by_column) == #[trigger] nk[t]);
    assert(forall|i: int| 0 <= i < post.len() ==> #[trigger] nk.contains(key_of(post[i], by_column)));
}

/// The positions grouped by row (or column): each row (or column) that some
/// position has, with its positions in their order.
fn grouped(positions: &[Pos], by_column: bool) -> (r: BTreeMap<usize, Vec<Pos>>)
    ensures
        forall|k: usize| #[trigger]
            r@.contains_key(k) <==> exists|i: int|
                0 <= i < positions@.len() && key_of(positions@[i], by_column) == k,
        forall|k: usize| #[trigger]
            r@.contains_key(k) ==> r@[k]@ == group_of(positions@, by_column, k),
{
    broadcast use vstd::std_specs::btree::group_btree_axioms;

    let ghost ps = positions@;
    let mut groups: BTreeMap<usize, Vec<Pos>> = BTreeMap::new();
    let mut n: usize = 0;
    while n < positions.len()
        invariant
            ps == positions@,
            n <= ps.len(),
            forall|k: usize| #[trigger]
                groups@.contains_key(k) <==> exists|i: int| 0 <= i < n && key_of(ps[i], by_column) == k,
            forall|k: usize| #[trigger]
                groups@.contains_key(k) ==> groups@[k]@ == group_of(ps.take(n as int), by_column, k),
        decreases ps.len() - n,
    {
        let p = positions[n];
        let k = key_of_exec(&p, by_column);
        let ghost before = groups@;
        let mut g = match groups.remove(&k) {
            Some(v) => v,
            None => Vec::new(),
        };
        proof {
            let pre = ps.take(n as int);
            if !before.contains_key(k) {
                reveal(Seq::filter);
                assert forall|i: int| 0 <= i < pre.len() implies key_of(pre[i], by_column) != k by {
                    assert(pre[i] == ps[i]);
                }
                lemma_filter_none(pre, |q: Pos| key_of(q, by_column) == k);
            }
        }
        g.push(p);
        groups.insert(k, g);
        proof {
            let pre = ps.take(n as int);
            let post = ps.take(n + 1);
            assert(post.drop_last() =~= pre);
            assert(post.last() == p);
            reveal(Seq::filter);
            assert forall|k2: usize| #[trigger]
                groups@.contains_key(k2) <==> exists|i: int| 0 <= i < n + 1 && key_of(ps[i], by_column) == k2 by {
                if k2 == k {
                    assert(key_of(ps[n as int], by_column) == k2);
                } else if exists|i: int| 0 <= i < n + 1 && key_of(ps[i], by_column) == k2 {
                    let i = choose|i: int| 0 <= i < n + 1 && key_of(ps[i], by_column) == k2;
                    assert(i < n);
                }
            }
            assert forall|k2: usize| #[trigger] groups@.contains_key(k2) implies groups@[k2]@ == group_of(
                post,
                by_column,
                k2,
            ) by {
                assert(group_of(post, by_column, k2) == if key_of(p, by_column) == k2 {
                    group_of(pre, by_column, k2).push(p)
                } else {
                    group_of(pre, by_column, k2)
                });
            }
        }
        n = n + 1;
    }
    assert(ps.take(n as int) =~= ps);
    groups
}

/// Filtering a sequence in which nothing passes the test leaves nothing.
proof fn lemma_filter_none(s: Seq<Pos>, keep: spec_fn(Pos) -> bool)
    requires
        forall|i: int| 0 <= i < s.len() ==> !keep(#[trigger] s[i]),
    ensures
        s.filter(keep) == Seq::<Pos>::empty(),
    decreases s.len(),
{
    reveal(Seq::filter);
    if s.len() > 0 {
        let prev = s.drop_last();
        assert forall|i: int| 0 <= i < prev.len() implies !keep(#[trigger] prev[i]) by {
            assert(prev[i] == s[i]);
        }
        lemma_filter_none(prev, keep);
        assert(!keep(s[s.len() - 1]));
    }
}

/// In an increasing sequence each entry orders below every later one.
proof fn lemma_increasing<K: Ord>(s: Seq<K>)
    requires
        vstd::laws_cmp::obeys_cmp::<K>(),
        increasing_seq(s),
    ensures
        forall|i: int, j: int| 0 <= i < j < s.len() ==> (#[trigger] s[i]).cmp_spec(#[trigger] &s[j]) is Less,
{
    vstd::std_specs::btree::axiom_increasing_seq_meaning(s);
}

/// The rows (or columns) of a grouping, in increasing order.
fn keys_in_order(m: &BTreeMap<usize, Vec<Pos>>) -> (r: Vec<usize>)
    ensures
        strictly_increasing(r@),
        forall|k: usize| r@.contains(k) <==> m@.contains_key(k),
{
    broadcast use vstd::std_specs::btree::group_btree_axioms;

    let mut r: Vec<usize> = Vec::new();
    let ghost all = m.keys().remaining();
    for k in it: m.keys()
        invariant
            all == it.seq(),
            r@.len() == it.index(),
            forall|t: int| 0 <= t < it.index() ==> r@[t] == *it.seq()[t],
    {
        r.push(*k);
    }
    proof {
        assert(r@ =~= all.unref());
        assert(vstd::laws_cmp::obeys_cmp::<&usize>());
        lemma_increasing(all);
        assert forall|i: int, j: int| 0 <= i < j < r@.len() implies r@[i] < r@[j] by {
            assert(all[i].cmp_spec(&all[j]) is Less);
        }
    }
    r
}

fn zip_pairs(a: &Vec<Pos>, b: &Vec<Pos>) -> (r: Vec<(Pos, Pos)>)
    ensures
        r@ == zip_spec(a@, b@),
{
    let n = if a.len() <= b.len() {
        a.len()
    } else {
        b.len()
    };
    let mut pairs: Vec<(Pos, Pos)> = Vec::new();
    let mut t: usize = 0;
    while t < n
        invariant
            n == min_len(a@.len(), b@.len()),
            t <= n,
            pairs@ =~= zip_spec(a@, b@).take(t as int),
        decreases n - t,
    {
        pairs.push((a[t], b[t]));
        t = t + 1;
    }
    pairs
}

/// A key of the list has a non-empty group.
proof fn lemma_group_nonempty(ps: Seq<Pos>, by_column: bool, ks: Seq<usize>, t: int)
    requires
        is_key_list(ps, by_column, ks),
        0 <= t < ks.len(),
    ensures
        group_of(ps, by_column, ks[t]).len() > 0,
{
    broadcast use Seq::lemma_filter_contains;

    let i = choose|i: int| 0 <= i < ps.len() && key_of(ps[i], by_column) == ks[t];
    let pred = |p: Pos| key_of(p, by_column) == ks[t];
    assert(pred(ps[i]));
    assert(ps.filter(pred).contains(ps[i]));
}

/// Keys in increasing order, exactly those that some position has, are the
/// key list of the positions.
proof fn lemma_key_list_from(ps: Seq<Pos>, by_column: bool, ks: Seq<usize>)
    requires
        strictly_increasing(ks),
        forall|k: usize| #[trigger]
            ks.contains(k) <==> exists|i: int| 0 <= i < ps.len() && key_of(ps[i], by_column) == k,
    ensures
        is_key_list(ps, by_column, ks),
{
    let l = lemma_key_list_exists(ps, by_column);
    assert forall|x: usize| l.contains(x) <==> ks.contains(x) by {
        if l.contains(x) {
            let t = choose|t: int| 0 <= t < l.len() && l[t] == x;
            let i = choose|i: int| 0 <= i < ps.len() && key_of(ps[i], by_column) == l[t];
            assert(0 <= i < ps.len() && key_of(ps[i], by_column) == x);
            assert(ks.contains(x));
        }
        if ks.contains(x) {
            assert(exists|i: int| 0 <= i < ps.len() && key_of(ps[i], by_column) == x);
            let i = choose|i: int| 0 <= i < ps.len() && key_of(ps[i], by_column) == x;
            assert(l.contains(key_of(ps[i], by_column)));
        }
    }
    lemma_key_list_unique(l, ks);
}

fn group_moves(positions: &[Pos], by_column: bool) -> (r: Vec<SwapMove>)
    ensures
        pairs_of(r@) == group_moves_spec(positions@, by_column),
{
    broadcast use vstd::std_specs::btree::group_btree_axioms;

    let ghost ps = positions@;
    let groups = grouped(positions, by_column);
    let keys = keys_in_order(&groups);
    let ghost ks = keys@;
    proof {
        assert forall|k: usize| #[trigger] ks.contains(k) <==> exists|i: int|
            0 <= i < ps.len() && key_of(ps[i], by_column) == k by {
            assert(ks.contains(k) <==> groups@.contains_key(k));
        }
        lemma_key_list_from(ps, by_column, ks);
        lemma_key_list_is(ps, by_column, ks);
    }
    let m = keys.len();
    proof {
        assert forall|t: int| 0 <= t < m implies groups@.contains_key(#[trigger] ks[t]) by {
            assert(ks.contains(ks[t]));
        }
    }
    let mut moves: Vec<SwapMove> = Vec::new();
    let mut i: usize = 0;
    while i < m
        invariant
            m == ks.len(),
            ps == positions@,
            ks == key_list(ps, by_column),
            is_key_list(ps, by_column, ks),
            keys@ == ks,
            forall|k: usize| #[trigger]
                groups@.contains_key(k) ==> groups@[k]@ == group_of(ps, by_column, k),
            forall|t: int| 0 <= t < m ==> groups@.contains_key(#[trigger] ks[t]),
            i <= m,
            pairs_of(moves@) == Seq::new(i as nat, |a: int| group_row(ps, by_column, ks, a)).flatten(),
        decreases m - i,
    {
        let ghost base = pairs_of(moves@);
        let mut j: usize = i + 1;
        while j < m
            invariant
                m == ks.len(),
                ps == positions@,
                is_key_list(ps, by_column, ks),
                keys@ == ks,
                forall|k: usize| #[trigger]
                    groups@.contains_key(k) ==> groups@[k]@ == group_of(ps, by_column, k),
                forall|t: int| 0 <= t < m ==> groups@.contains_key(#[trigger] ks[t]),
                i < m,
                i + 1 <= j <= m,
                pairs_of(moves@) == base + group_row(ps, by_column, ks, i as int).take(j - i - 1),
            decreases m - j,
        {
            proof {
                assert(groups@.contains_key(ks[i as int]));
                assert(groups@.contains_key(ks[j as int]));
            }
            let pairs = match (groups.get(&keys[i]), groups.get(&keys[j])) {
                (Some(a), Some(b)) => zip_pairs(a, b),
                _ => Vec::new(),
            };
            proof {
                lemma_group_nonempty(ps, by_column, ks, i as int);
                lemma_group_nonempty(ps, by_column, ks, j as int);
            }
            if pairs.len() > 0 {
                let mv = SwapMove(pairs);
                proof {
                    lemma_pairs_of_push(moves@, mv);
                    assert(group_row(ps, by_column, ks, i as int).take(j - i) =~= group_row(
                        ps,
                        by_column,
                        ks,
                        i as int,
                    ).take(j - i - 1).push(mv.0@));
                }
                moves.push(mv);
            }
            j = j + 1;
        }
        proof {
            assert(group_row(ps, by_column, ks, i as int).take(j - i - 1) =~= group_row(
                ps,
                by_column,
                ks,
                i as int,
            ));
            assert(Seq::new((i + 1) as nat, |a: int| group_row(ps, by_column, ks, a)) =~= Seq::new(
                i as nat,
                |a: int| group_row(ps, by_column, ks, a),
            ).push(group_row(ps, by_column, ks, i as int)));
        }
        i = i + 1;
    }
    proof {
        assert(Seq::new(i as nat, |a: int| group_row(ps, by_column, ks, a)) =~= Seq::new(
            ks.len(),
            |a: int| group_row(ps, by_column, ks, a),
        ));
    }
    moves
}

/// The moves of one family over the positions.
pub open spec fn strategy_moves(strategy: SwapMoveStrategy, ps: Seq<Pos>) -> Seq<Seq<(Pos, Pos)>> {
    match strategy {
        SwapMoveStrategy::Single => single_moves_spec(ps),
        SwapMoveStrategy::Column => group_moves_spec(ps, true),
        SwapMoveStrategy::Row => group_moves_spec(ps, false),
        SwapMoveStrategy::ThreeCycle => cycle_moves_spec(ps),
    }
}

/// The families in order with their moves, leaving out families with no move.
pub open spec fn built_groups(strategies: Seq<SwapMoveStrategy>, ps: Seq<Pos>) -> Seq<
    (SwapMoveStrategy, Seq<Seq<(Pos, Pos)>>),
>
    decreases strategies.len(),
{
    if strategies.len() == 0 {
        Seq::empty()
    } else {
        let g = built_groups(strategies.drop_last(), ps);
        let m = strategy_moves(strategies.last(), ps);
        if m.len() > 0 {
            g.push((strategies.last(), m))
        } else {
            g
        }
    }
}

/// The strategies with repeats left out, each at its first place.
pub open spec fn distinct_in_order(s: Seq<SwapMoveStrategy>) -> Seq<SwapMoveStrategy>
    decreases s.len(),
{
    if s.len() == 0 {
        Seq::empty()
    } else {
        let d = distinct_in_order(s.drop_last());
        if d.contains(s.last()) {
            d
        } else {
            d.push(s.last())
        }
    }
}

/// The families of moves to build, in order, each once.
#[derive(Debug)]
pub struct SwapMoveBuilder {
    strategies: Vec<SwapMoveStrategy>,
}

impl View for SwapMoveBuilder {
    type V = Seq<SwapMoveStrategy>;

    closed spec fn view(&self) -> Seq<SwapMoveStrategy> {
        self.strategies@
    }
}

impl Default for SwapMoveBuilder {
    /// A builder with no family of moves.
    fn default() -> (r: Self)
        ensures
            r@ == Seq::<SwapMoveStrategy>::empty(),
    {
        SwapMoveBuilder { strategies: Vec::new() }
    }
}

fn contains_strategy(v: &Vec<SwapMoveStrategy>, s: SwapMoveStrategy) -> (r: bool)
    ensures
        r == v@.contains(s),
{
    let mut i: usize = 0;
    while i < v.len()
        invariant
            i <= v@.len(),
            forall|j: int| 0 <= j < i ==> v@[j] != s,
        decreases v@.len() - i,
    {
        if v[i] == s {
            assert(v@[i as int] == s);
            return true;
        }
        i = i + 1;
    }
    false
}

impl SwapMoveBuilder {
    /// All four families: single swaps, columns, rows and three-cycles.
    pub fn full() -> (r: Self)
        ensures
            r@ == seq![
                SwapMoveStrategy::Single,
                SwapMoveStrategy::Column,
                SwapMoveStrategy::Row,
                SwapMoveStrategy::ThreeCycle,
            ],
    {
        let all = [
            SwapMoveStrategy::Single,
            SwapMoveStrategy::Column,
            SwapMoveStrategy::Row,
            SwapMoveStrategy::ThreeCycle,
        ];
        let r = Self::new(&all);
        proof {
            let s = all@;
            assert(s =~= seq![
                SwapMoveStrategy::Single,
                SwapMoveStrategy::Column,
                SwapMoveStrategy::Row,
                SwapMoveStrategy::ThreeCycle,
            ]);
            assert(s.take(1).drop_last() =~= s.take(0));
            assert(s.take(2).drop_last() =~= s.take(1));
            assert(s.take(3).drop_last() =~= s.take(2));
            assert(s.take(4).drop_last() =~= s.take(3));
            assert(s.take(4) =~= s);
            assert(distinct_in_order(s.take(0)) =~= Seq::<SwapMoveStrategy>::empty());
            assert(distinct_in_order(s.take(1)) =~= seq![SwapMoveStrategy::Single]);
            assert(!seq![SwapMoveStrategy::Single].contains(SwapMoveStrategy::Column));
            assert(distinct_in_order(s.take(2)) =~= seq![
                SwapMoveStrategy::Single,
                SwapMoveStrategy::Column,
            ]);
            assert(!seq![SwapMoveStrategy::Single, SwapMoveStrategy::Column].contains(
                SwapMoveStrategy::Row,
            ));
            assert(distinct_in_order(s.take(3)) =~= seq![
                SwapMoveStrategy::Single,
                SwapMoveStrategy::Column,
                SwapMoveStrategy::Row,
            ]);
            assert(!seq![
                SwapMoveStrategy::Single,
                SwapMoveStrategy::Column,
                SwapMoveStrategy::Row,
            ].contains(SwapMoveStrategy::ThreeCycle));
        }
        r
    }

    /// The given families, in order, each kept at its first occurrence.
    pub fn new(strategies: &[SwapMoveStrategy]) -> (r: Self)
        ensures
            r@ == distinct_in_order(strategies@),
    {
        let mut kept: Vec<SwapMoveStrategy> = Vec::new();
        let mut i: usize = 0;
        while i < strategies.len()
            invariant
                i <= strategies@.len(),
                kept@ == distinct_in_order(strategies@.take(i as int)),
            decreases strategies@.len() - i,
        {
            let s = strategies[i];
            proof {
                let t = strategies@.take(i + 1);
                assert(t.drop_last() =~= strategies@.take(i as int));
                assert(t.last() == s);
            }
            if !contains_strategy(&kept, s) {
                kept.push(s);
            }
            i = i + 1;
        }
        assert(strategies@.take(i as int) =~= strategies@);
        SwapMoveBuilder { strategies: kept }
    }

    /// The moves of each family over the positions; families without a move
    /// are left out.
    pub fn build(&self, positions: &[Pos]) -> (r: SwapMoves)
        ensures
            r@ == built_groups(self@, positions@),
    {
        let ghost ps = positions@;
        let mut groups: Vec<(SwapMoveStrategy, Vec<SwapMove>)> = Vec::new();
        let mut len: usize = 0;
        let mut i: usize = 0;
        while i < self.strategies.len()
            invariant
                ps == positions@,
                i <= self.strategies@.len(),
                groups_view(groups@) == built_groups(self.strategies@.take(i as int), ps),
                forall|g: int| 0 <= g < groups@.len() ==> (#[trigger] groups@[g]).1@.len() > 0,
                len == held(all_moves_of(groups_view(groups@)).len()),
            decreases self.strategies@.len() - i,
        {
            let strategy = self.strategies[i];
            let moves = match strategy {
                SwapMoveStrategy::Single => single_moves(positions),
                SwapMoveStrategy::Column => group_moves(positions, true),
                SwapMoveStrategy::Row => group_moves(positions, false),
                SwapMoveStrategy::ThreeCycle => three_cycle_moves(positions),
            };
            let ghost prev = groups_view(groups@);
            proof {
                let t = self.strategies@.take(i + 1);
                assert(t.drop_last() =~= self.strategies@.take(i as int));
                assert(t.last() == strategy);
            }
            if moves.len() > 0 {
                let count = moves.len();
                proof {
                    assert(groups_view(groups@.push((strategy, moves))) =~= prev.push(
                        (strategy, pairs_of(moves@)),
                    ));
                    lemma_all_moves_push(prev, (strategy, pairs_of(moves@)));
                }
                groups.push((strategy, moves));
                len = len.saturating_add(count);
            }
            i = i + 1;
        }
        assert(self.strategies@.take(i as int) =~= self.strategies@);
        proof {
            lemma_built_nonempty(self.strategies@, ps);
        }
        SwapMoves { strategies: groups, len }
    }
}

/// Every move of every family has at least one pair.
pub open spec fn moves_nonempty(groups: Seq<(SwapMoveStrategy, Seq<Seq<(Pos, Pos)>>)>) -> bool {
    forall|k: int, i: int|
        0 <= k < groups.len() && 0 <= i < groups[k].1.len() ==> (#[trigger] groups[k].1[i]).len() > 0
}

/// A count held at `usize::MAX`.
pub open spec fn held(n: nat) -> usize {
    if n <= usize::MAX {
        n as usize
    } else {
        usize::MAX
    }
}

/// Each family with the pairs of its moves.
pub open spec fn groups_view(groups: Seq<(SwapMoveStrategy, Vec<SwapMove>)>) -> Seq<
    (SwapMoveStrategy, Seq<Seq<(Pos, Pos)>>),
> {
    groups.map_values(|g: (SwapMoveStrategy, Vec<SwapMove>)| (g.0, pairs_of(g.1@)))
}

/// All moves of all families, family by family.
pub open spec fn all_moves_of(groups: Seq<(SwapMoveStrategy, Seq<Seq<(Pos, Pos)>>)>) -> Seq<
    Seq<(Pos, Pos)>,
> {
    groups.map_values(|g: (SwapMoveStrategy, Seq<Seq<(Pos, Pos)>>)| g.1).flatten()
}

proof fn lemma_all_moves_push(
    groups: Seq<(SwapMoveStrategy, Seq<Seq<(Pos, Pos)>>)>,
    g: (SwapMoveStrategy, Seq<Seq<(Pos, Pos)>>),
)
    ensures
        all_moves_of(groups.push(g)) == all_moves_of(groups) + g.1,
{
    assert(groups.push(g).map_values(|g: (SwapMoveStrategy, Seq<Seq<(Pos, Pos)>>)| g.1)
        =~= groups.map_values(|g: (SwapMoveStrategy, Seq<Seq<(Pos, Pos)>>)| g.1).push(g.1));
}

/// The moves of a set of positions, grouped by family.
#[derive(Debug)]
pub struct SwapMoves {
    strategies: Vec<(SwapMoveStrategy, Vec<SwapMove>)>,
    len: usize,
}

impl View for SwapMoves {
    type V = Seq<(SwapMoveStrategy, Seq<Seq<(Pos, Pos)>>)>;

    closed spec fn view(&self) -> Seq<(SwapMoveStrategy, Seq<Seq<(Pos, Pos)>>)> {
        groups_view(self.strategies@)
    }
}

impl Default for SwapMoves {
    /// No moves.
    fn default() -> (r: Self)
        ensures
            r@ == Seq::<(SwapMoveStrategy, Seq<Seq<(Pos, Pos)>>)>::empty(),
    {
        let r = SwapMoves { strategies: Vec::new(), len: 0 };
        assert(r@ =~= Seq::<(SwapMoveStrategy, Seq<Seq<(Pos, Pos)>>)>::empty());
        r
    }
}

impl SwapMoves {
    #[verifier::type_invariant]
    spec fn inv(self) -> bool {
        &&& self.len == held(all_moves_of(groups_view(self.strategies@)).len())
        &&& forall|g: int|
            0 <= g < self.strategies@.len() ==> (#[trigger] self.strategies@[g]).1@.len() > 0
        &&& moves_nonempty(groups_view(self.strategies@))
    }

    /// All moves, family by family.
    pub open spec fn all_moves(self) -> Seq<Seq<(Pos, Pos)>> {
        all_moves_of(self@)
    }

    /// The number of moves (held at `usize::MAX`).
    pub fn len(&self) -> (r: usize)
        ensures
            r == held(self.all_moves().len()),
    {
        proof {
            use_type_invariant(self);
        }
        self.len
    }

    /// Whether there is no move.
    pub fn is_empty(&self) -> (r: bool)
        ensures
            r == (self.all_moves().len() == 0),
    {
        proof {
            use_type_invariant(self);
        }
        self.len == 0
    }

    /// All moves, family by family.
    pub fn moves(&self) -> (r: Vec<&SwapMove>)
        ensures
            r@.len() == self.all_moves().len(),
            forall|i: int| 0 <= i < r@.len() ==> r@[i].0@ == #[trigger] self.all_moves()[i],
    {
        let mut out: Vec<&SwapMove> = Vec::new();
        let mut g: usize = 0;
        while g < self.strategies.len()
            invariant
                g <= self.strategies@.len(),
                out@.len() == all_moves_of(groups_view(self.strategies@.take(g as int))).len(),
                forall|i: int|
                    0 <= i < out@.len() ==> out@[i].0@ == #[trigger] all_moves_of(
                        groups_view(self.strategies@.take(g as int)),
                    )[i],
            decreases self.strategies@.len() - g,
        {
            let moves = &self.strategies[g].1;
            let ghost before = all_moves_of(groups_view(self.strategies@.take(g as int)));
            let ghost base = out@.len();
            let mut k: usize = 0;
            while k < moves.len()
                invariant
                    k <= moves@.len(),
                    out@.len() == base + k,
                    base == before.len(),
                    forall|i: int| 0 <= i < base ==> out@[i].0@ == #[trigger] before[i],
                    forall|i: int|
                        0 <= i < k ==> out@[base + i].0@ == #[trigger] pairs_of(moves@)[i],
                decreases moves@.len() - k,
            {
                out.push(&moves[k]);
                k = k + 1;
            }
            proof {
                let t = self.strategies@.take(g + 1);
                assert(t =~= self.strategies@.take(g as int).push(self.strategies@[g as int]));
                assert(groups_view(t) =~= groups_view(self.strategies@.take(g as int)).push(
                    (self.strategies@[g as int].0, pairs_of(moves@)),
                ));
                lemma_all_moves_push(
                    groups_view(self.strategies@.take(g as int)),
                    (self.strategies@[g as int].0, pairs_of(moves@)),
                );
                let after = all_moves_of(groups_view(t));
                assert(after == before + pairs_of(moves@));
                assert forall|i: int| 0 <= i < out@.len() implies out@[i].0@ == #[trigger] after[i] by {
                    if i < base {
                        assert(out@[i].0@ == before[i]);
                    } else {
                        assert(out@[base + (i - base)].0@ == pairs_of(moves@)[i - base]);
                    }
                }
            }
            g = g + 1;
        }
        assert(self.strategies@.take(g as int) =~= self.strategies@);
        out
    }
}

/// The weight given to a family: the first entry for it, 0 when none.
pub open spec fn weight_of(weights: Seq<(SwapMoveStrategy, usize)>, s: SwapMoveStrategy) -> nat
    decreases weights.len(),
{
    if weights.len() == 0 {
        0
    } else if weights[0].0 == s {
        weights[0].1 as nat
    } else {
        weight_of(weights.drop_first(), s)
    }
}

/// The summed weight of the first `k` families.
pub open spec fn weight_before(
    groups: Seq<(SwapMoveStrategy, Seq<Seq<(Pos, Pos)>>)>,
    weights: Seq<(SwapMoveStrategy, usize)>,
    k: int,
) -> nat
    decreases k,
{
    if k <= 0 {
        0
    } else {
        weight_before(groups, weights, k - 1) + weight_of(weights, groups[k - 1].0)
    }
}

/// The summed weight of all families.
pub open spec fn total_weight(
    groups: Seq<(SwapMoveStrategy, Seq<Seq<(Pos, Pos)>>)>,
    weights: Seq<(SwapMoveStrategy, usize)>,
) -> nat {
    weight_before(groups, weights, groups.len() as int)
}

proof fn lemma_weight_before_monotone(
    groups: Seq<(SwapMoveStrategy, Seq<Seq<(Pos, Pos)>>)>,
    weights: Seq<(SwapMoveStrategy, usize)>,
    a: int,
    b: int,
)
    requires
        a <= b,
    ensures
        weight_before(groups, weights, a) <= weight_before(groups, weights, b),
    decreases b - a,
{
    if a < b {
        lemma_weight_before_monotone(groups, weights, a, b - 1);
    }
}

fn weight_for(weights: &[(SwapMoveStrategy, usize)], s: SwapMoveStrategy) -> (r: usize)
    ensures
        r == weight_of(weights@, s),
{
    let mut i: usize = 0;
    assert(weights@.skip(0) =~= weights@);
    while i < weights.len()
        invariant
            i <= weights@.len(),
            weight_of(weights@, s) == weight_of(weights@.skip(i as int), s),
        decreases weights@.len() - i,
    {
        assert(weights@.skip(i as int).drop_first() =~= weights@.skip(i + 1));
        if weights[i].0 == s {
            return weights[i].1;
        }
        i = i + 1;
    }
    0
}

impl SwapMoves {
    /// The family whose share of the summed weights holds `pick`: the `k`
    /// with `weight_before(k) <= pick < weight_before(k + 1)`, or `None` when
    /// `pick` is not below the total.
    pub fn family_at(&self, weights: &[(SwapMoveStrategy, usize)], pick: usize) -> (r: Option<
        usize,
    >)
        ensures
            match r {
                Some(k) => k < self@.len() && weight_before(self@, weights@, k as int) <= pick
                    < weight_before(self@, weights@, k + 1),
                None => total_weight(self@, weights@) <= pick,
            },
    {
        let ghost groups = self@;
        let mut cumulative: usize = 0;
        let mut k: usize = 0;
        while k < self.strategies.len()
            invariant
                groups == self@,
                groups.len() == self.strategies@.len(),
                k <= groups.len(),
                cumulative == weight_before(groups, weights@, k as int),
                cumulative <= pick,
            decreases groups.len() - k,
        {
            let w = weight_for(weights, self.strategies[k].0);
            assert(groups[k as int].0 == self.strategies@[k as int].0);
            if pick - cumulative < w {
                return Some(k);
            }
            cumulative = cumulative + w;
            k = k + 1;
        }
        None
    }

    /// A random move of a family with positive weight: a family is drawn in
    /// proportion to its weight, then a move of it uniformly. The empty move
    /// when no family has weight.
    pub fn sample(&self, rng: &mut StdRng, weights: &[(SwapMoveStrategy, usize)]) -> (r: SwapMove)
        requires
            total_weight(self@, weights@) <= usize::MAX,
        ensures
            total_weight(self@, weights@) == 0 ==> r.0@.len() == 0 && *final(rng) == *old(rng),
            total_weight(self@, weights@) > 0 ==> r.0@.len() > 0 && exists|k: int, i: int|
                0 <= k < self@.len() && weight_of(weights@, self@[k].0) > 0 && 0 <= i
                    < self@[k].1.len() && r.0@ == self@[k].1[i],
            total_weight(self@, weights@) > 0 ==> exists|pick: int, k: int, i: int|
                #[trigger] drawn_at(self@, weights@, pick, k, i, r.0@),
    {
        proof {
            use_type_invariant(self);
        }
        let ghost groups = self@;
        let mut total: usize = 0;
        let mut k: usize = 0;
        while k < self.strategies.len()
            invariant
                groups == self@,
                groups.len() == self.strategies@.len(),
                k <= groups.len(),
                total == weight_before(groups, weights@, k as int),
                total_weight(groups, weights@) <= usize::MAX,
            decreases groups.len() - k,
        {
            proof {
                lemma_weight_before_monotone(groups, weights@, k + 1, groups.len() as int);
            }
            let w = weight_for(weights, self.strategies[k].0);
            assert(groups[k as int].0 == self.strategies@[k as int].0);
            total = total + w;
            k = k + 1;
        }
        if total == 0 {
            return SwapMove(Vec::new());
        }
        let pick = random_below(rng, total);
        match self.family_at(weights, pick) {
            Some(g) => {
                let moves = &self.strategies[g].1;
                assert(groups[g as int].1 == pairs_of(moves@));
                let i = random_below(rng, moves.len());
                let m = moves[i].duplicate();
                assert(r_matches(m, groups, weights@, g as int, i as int));
                assert(drawn_at(groups, weights@, pick as int, g as int, i as int, m.0@));
                m
            },
            None => SwapMove(Vec::new()),
        }
    }
}

/// `m` is move `i` of family `k`, the family whose share of the summed
/// weights holds `pick`.
pub open spec fn drawn_at(
    groups: Seq<(SwapMoveStrategy, Seq<Seq<(Pos, Pos)>>)>,
    weights: Seq<(SwapMoveStrategy, usize)>,
    pick: int,
    k: int,
    i: int,
    m: Seq<(Pos, Pos)>,
) -> bool {
    &&& 0 <= pick < total_weight(groups, weights)
    &&& 0 <= k < groups.len()
    &&& weight_before(groups, weights, k) <= pick < weight_before(groups, weights, k + 1)
    &&& 0 <= i < groups[k].1.len()
    &&& m == groups[k].1[i]
}

spec fn r_matches(
    m: SwapMove,
    groups: Seq<(SwapMoveStrategy, Seq<Seq<(Pos, Pos)>>)>,
    weights: Seq<(SwapMoveStrategy, usize)>,
    k: int,
    i: int,
) -> bool {
    0 <= k < groups.len() && weight_of(weights, groups[k].0) > 0 && 0 <= i < groups[k].1.len()
        && m.0@ == groups[k].1[i]
}

impl SwapMove {
    /// A copy of the move.
    pub fn duplicate(&self) -> (r: SwapMove)
        ensures
            r.0@ == self.0@,
    {
        let mut pairs: Vec<(Pos, Pos)> = Vec::new();
        let mut i: usize = 0;
        while i < self.0.len()
            invariant
                i <= self.0@.len(),
                pairs@ =~= self.0@.take(i as int),
            decreases self.0@.len() - i,
        {
            pairs.push(self.0[i]);
            i = i + 1;
        }
        SwapMove(pairs)
    }
}

/// Both positions of every pair are among `ps`.
pub open spec fn pairs_within(pairs: Seq<(Pos, Pos)>, ps: Seq<Pos>) -> bool {
    forall|t: int| 0 <= t < pairs.len() ==> ps.contains(#[trigger] pairs[t].0) && ps.contains(pairs[t].1)
}

/// No pair of the move touches position `p`.
pub open spec fn pairs_avoid(pairs: Seq<(Pos, Pos)>, p: Pos) -> bool {
    forall|t: int| 0 <= t < pairs.len() ==> #[trigger] pairs[t].0 != p && pairs[t].1 != p
}

/// Applying a move keeps every key in its place, keeps positions distinct,
/// keeps the characters of the layout, each as often, and leaves alone the
/// keys at positions the move does not touch.
pub proof fn lemma_apply_keeps(keys: Seq<Key>, pairs: Seq<(Pos, Pos)>)
    requires
        positions_distinct(keys),
    ensures
        same_places(apply_pairs(keys, pairs), keys),
        positions_distinct(apply_pairs(keys, pairs)),
        chars_of(apply_pairs(keys, pairs)).to_multiset() == chars_of(keys).to_multiset(),
        forall|i: int|
            0 <= i < keys.len() && pairs_avoid(pairs, keys[i].position) ==> #[trigger] apply_pairs(
                keys,
                pairs,
            )[i] == keys[i],
    decreases pairs.len(),
{
    if pairs.len() > 0 {
        let prev = apply_pairs(keys, pairs.drop_last());
        lemma_apply_keeps(keys, pairs.drop_last());
        lemma_swap_keeps(prev, pairs.last().0, pairs.last().1);
        assert forall|i: int|
            0 <= i < keys.len() && pairs_avoid(pairs, keys[i].position) implies #[trigger] apply_pairs(
            keys,
            pairs,
        )[i] == keys[i] by {
            assert forall|t: int| 0 <= t < pairs.drop_last().len() implies #[trigger] pairs.drop_last()[t].0
                != keys[i].position && pairs.drop_last()[t].1 != keys[i].position by {
                assert(pairs.drop_last()[t] == pairs[t]);
            }
            assert(pairs[pairs.len() - 1] == pairs.last());
            assert(prev[i] == keys[i]);
        }
    }
}

/// An element of a flattened sequence is an element of one of the pieces.
pub proof fn lemma_flatten_index<A>(s: Seq<Seq<A>>, k: int)
    requires
        0 <= k < s.flatten().len(),
    ensures
        exists|i: int, j: int| 0 <= i < s.len() && 0 <= j < s[i].len() && s.flatten()[k] == s[i][j],
    decreases s.len(),
{
    if s.len() > 0 {
        assert(s.flatten() == s[0] + s.drop_first().flatten());
        if k < s[0].len() {
            assert(s.flatten()[k] == s[0][k]);
        } else {
            lemma_flatten_index(s.drop_first(), k - s[0].len());
            let (i, j) = choose|i: int, j: int|
                0 <= i < s.drop_first().len() && 0 <= j < s.drop_first()[i].len()
                    && s.drop_first().flatten()[k - s[0].len()] == s.drop_first()[i][j];
            assert(s[i + 1][j] == s.flatten()[k]);
        }
    }
}

/// No position is in two different pairs of the move.
pub open spec fn disjoint_pairs(pairs: Seq<(Pos, Pos)>) -> bool {
    forall|i: int, j: int|
        #![trigger pairs[i], pairs[j]]
        0 <= i < pairs.len() && 0 <= j < pairs.len() && i != j ==> pairs[i].0 != pairs[j].0
            && pairs[i].0 != pairs[j].1 && pairs[i].1 != pairs[j].0 && pairs[i].1 != pairs[j].1
}

/// A swap of two positions that no pair of the move touches can be done
/// before the move or after it.
proof fn lemma_apply_swap_commute(x: Seq<Key>, m: Seq<(Pos, Pos)>, a: Pos, b: Pos)
    requires
        positions_distinct(x),
        forall|t: int|
            0 <= t < m.len() ==> (#[trigger] m[t]).0 != a && m[t].0 != b && m[t].1 != a && m[t].1 != b,
    ensures
        apply_pairs(swap_spec(x, a, b), m) == swap_spec(apply_pairs(x, m), a, b),
    decreases m.len(),
{
    if m.len() > 0 {
        let q = m.last();
        assert(q == m[m.len() - 1]);
        assert forall|t: int| 0 <= t < m.drop_last().len() implies (#[trigger] m.drop_last()[t]).0 != a
            && m.drop_last()[t].0 != b && m.drop_last()[t].1 != a && m.drop_last()[t].1 != b by {
            assert(m.drop_last()[t] == m[t]);
        }
        lemma_apply_swap_commute(x, m.drop_last(), a, b);
        lemma_apply_keeps(x, m.drop_last());
        lemma_swap_commute(apply_pairs(x, m.drop_last()), a, b, q.0, q.1);
    }
}

/// A move whose pairs share no position, applied twice, gives the keys back.
pub proof fn lemma_disjoint_twice(keys: Seq<Key>, m: Seq<(Pos, Pos)>)
    requires
        positions_distinct(keys),
        disjoint_pairs(m),
    ensures
        apply_pairs(apply_pairs(keys, m), m) == keys,
    decreases m.len(),
{
    if m.len() > 0 {
        let rest = m.drop_last();
        let p = m.last();
        assert(p == m[m.len() - 1]);
        assert forall|i: int, j: int|
            #![trigger rest[i], rest[j]]
            0 <= i < rest.len() && 0 <= j < rest.len() && i != j implies rest[i].0 != rest[j].0
            && rest[i].0 != rest[j].1 && rest[i].1 != rest[j].0 && rest[i].1 != rest[j].1 by {
            assert(rest[i] == m[i] && rest[j] == m[j]);
        }
        assert forall|t: int| 0 <= t < rest.len() implies (#[trigger] rest[t]).0 != p.0 && rest[t].0
            != p.1 && rest[t].1 != p.0 && rest[t].1 != p.1 by {
            assert(rest[t] == m[t]);
            assert(m[t] != m[m.len() - 1] || t == m.len() - 1);
        }
        lemma_disjoint_twice(keys, rest);
        let x = apply_pairs(keys, rest);
        lemma_apply_keeps(keys, rest);
        lemma_apply_swap_commute(x, rest, p.0, p.1);
        lemma_swap_twice(keys, p.0, p.1);
    }
}

/// Where `k` goes in the increasing list `ks`: after every smaller entry.
proof fn lemma_insertion_point(ks: Seq<usize>, k: usize) -> (idx: int)
    requires
        strictly_increasing(ks),
    ensures
        0 <= idx <= ks.len(),
        forall|t: int| 0 <= t < idx ==> ks[t] < k,
        idx < ks.len() ==> ks[idx] >= k,
    decreases ks.len(),
{
    if ks.len() == 0 {
        0
    } else if ks.last() < k {
        assert forall|t: int| 0 <= t < ks.len() implies ks[t] < k by {
            if t < ks.len() - 1 {
                assert(ks[t] < ks[ks.len() - 1]);
            }
        }
        ks.len() as int
    } else {
        let idx = lemma_insertion_point(ks.drop_last(), k);
        assert forall|t: int| 0 <= t < idx implies ks[t] < k by {
            assert(ks[t] == ks.drop_last()[t]);
        }
        if idx < ks.len() - 1 {
            assert(ks[idx] == ks.drop_last()[idx]);
        }
        idx
    }
}

/// Every set of positions has a list of its rows (or columns).
proof fn lemma_key_list_exists(ps: Seq<Pos>, by_column: bool) -> (ks: Seq<usize>)
    ensures
        is_key_list(ps, by_column, ks),
    decreases ps.len(),
{
    if ps.len() == 0 {
        Seq::empty()
    } else {
        let pre = ps.drop_last();
        let p = ps.last();
        assert(ps =~= pre.push(p));
        let ks0 = lemma_key_list_exists(pre, by_column);
        let k = key_of(p, by_column);
        let idx = lemma_insertion_point(ks0, k);
        if idx < ks0.len() && ks0[idx] == k {
            lemma_key_list_extend_present(pre, by_column, ks0, p, idx);
            ks0
        } else {
            lemma_key_list_extend_insert(pre, by_column, ks0, p, idx);
            ks0.insert(idx, k)
        }
    }
}

/// Keeping some elements of a sequence without repeats gives no repeats.
proof fn lemma_filter_no_duplicates(s: Seq<Pos>, f: spec_fn(Pos) -> bool)
    requires
        s.no_duplicates(),
    ensures
        s.filter(f).no_duplicates(),
    decreases s.len(),
{
    reveal(Seq::filter);
    if s.len() > 0 {
        let rest = s.drop_last();
        assert forall|i: int, j: int| 0 <= i < rest.len() && 0 <= j < rest.len() && i != j implies rest[i]
            != rest[j] by {
            assert(rest[i] == s[i] && rest[j] == s[j]);
        }
        lemma_filter_no_duplicates(rest, f);
        let sub = rest.filter(f);
        if f(s.last()) {
            if sub.contains(s.last()) {
                rest.lemma_filter_contains_rev(f, s.last());
                let t = choose|t: int| 0 <= t < rest.len() && rest[t] == s.last();
                assert(s[t] == s[s.len() - 1]);
            }
            let out = sub.push(s.last());
            assert forall|i: int, j: int| 0 <= i < out.len() && 0 <= j < out.len() && i != j implies out[i]
                != out[j] by {
                if i == sub.len() {
                    assert(sub.contains(out[j]));
                } else if j == sub.len() {
                    assert(sub.contains(out[i]));
                }
            }
        }
    }
}

/// Pairing up two groups without repeats and without a common position gives
/// pairs that share no position.
proof fn lemma_zip_disjoint(a: Seq<Pos>, b: Seq<Pos>)
    requires
        a.no_duplicates(),
        b.no_duplicates(),
        forall|i: int, j: int| 0 <= i < a.len() && 0 <= j < b.len() ==> a[i] != b[j],
    ensures
        disjoint_pairs(zip_spec(a, b)),
{
}

/// Exchanging two rows (or columns) pairs up positions that are all
/// different, when the positions have no repeats.
proof fn lemma_group_moves_disjoint(ps: Seq<Pos>, by_column: bool)
    requires
        ps.no_duplicates(),
    ensures
        forall|m: int|
            0 <= m < group_moves_spec(ps, by_column).len() ==> disjoint_pairs(
                #[trigger] group_moves_spec(ps, by_column)[m],
            ),
{
    broadcast use Seq::lemma_filter_pred;

    let ks = key_list(ps, by_column);
    // Some key list exists, so the chosen one is a key list.
    let some_list = lemma_key_list_exists(ps, by_column);
    assert(is_key_list(ps, by_column, some_list));
    assert(is_key_list(ps, by_column, ks));
    let all = group_moves_spec(ps, by_column);
    assert forall|m: int| 0 <= m < all.len() implies disjoint_pairs(#[trigger] all[m]) by {
        let rows = Seq::new(ks.len(), |i: int| group_row(ps, by_column, ks, i));
        lemma_flatten_index(rows, m);
        let (i, j) = choose|i: int, j: int|
            0 <= i < rows.len() && 0 <= j < rows[i].len() && rows.flatten()[m] == rows[i][j];
        let ka = ks[i];
        let kb = ks[i + 1 + j];
        assert(ka < kb);
        let fa = |p: Pos| key_of(p, by_column) == ka;
        let fb = |p: Pos| key_of(p, by_column) == kb;
        let ga = group_of(ps, by_column, ka);
        let gb = group_of(ps, by_column, kb);
        assert(ga == ps.filter(fa));
        assert(gb == ps.filter(fb));
        lemma_filter_no_duplicates(ps, fa);
        lemma_filter_no_duplicates(ps, fb);
        assert forall|x: int, y: int| 0 <= x < ga.len() && 0 <= y < gb.len() implies ga[x] != gb[y] by {
            assert(fa(ga[x]));
            assert(fb(gb[y]));
        }
        lemma_zip_disjoint(ga, gb);
        assert(all[m] == zip_spec(ga, gb));
    }
}

/// Single swaps, and exchanges of rows or columns, pair up positions that are
/// all different, when the positions have no repeats.
pub proof fn lemma_disjoint_families(strategy: SwapMoveStrategy, ps: Seq<Pos>)
    requires
        ps.no_duplicates(),
        strategy != SwapMoveStrategy::ThreeCycle,
    ensures
        forall|m: int|
            0 <= m < strategy_moves(strategy, ps).len() ==> disjoint_pairs(
                #[trigger] strategy_moves(strategy, ps)[m],
            ),
{
    let all = strategy_moves(strategy, ps);
    if strategy == SwapMoveStrategy::Single {
        assert forall|m: int| 0 <= m < all.len() implies disjoint_pairs(#[trigger] all[m]) by {
            let rows = Seq::new(ps.len(), |i: int| single_row(ps, i));
            lemma_flatten_index(rows, m);
            let (i, j) = choose|i: int, j: int|
                0 <= i < rows.len() && 0 <= j < rows[i].len() && rows.flatten()[m] == rows[i][j];
            assert(all[m] == seq![(ps[i], ps[i + 1 + j])]);
        }
    } else {
        lemma_group_moves_disjoint(ps, strategy == SwapMoveStrategy::Column);
    }
}

/// Each built family is a family asked for, with all its moves.
pub proof fn lemma_built_family(strategies: Seq<SwapMoveStrategy>, ps: Seq<Pos>, k: int)
    requires
        0 <= k < built_groups(strategies, ps).len(),
    ensures
        built_groups(strategies, ps)[k].1 == strategy_moves(built_groups(strategies, ps)[k].0, ps),
    decreases strategies.len(),
{
    let g = built_groups(strategies.drop_last(), ps);
    if k < g.len() {
        lemma_built_family(strategies.drop_last(), ps, k);
    }
}

/// Every move of every family has at least one pair.
pub proof fn lemma_moves_nonempty(strategy: SwapMoveStrategy, ps: Seq<Pos>)
    ensures
        forall|m: int|
            0 <= m < strategy_moves(strategy, ps).len() ==> (#[trigger] strategy_moves(
                strategy,
                ps,
            )[m]).len() > 0,
{
    let all = strategy_moves(strategy, ps);
    assert forall|m: int| 0 <= m < all.len() implies (#[trigger] all[m]).len() > 0 by {
        match strategy {
            SwapMoveStrategy::Single => {
                let rows = Seq::new(ps.len(), |i: int| single_row(ps, i));
                lemma_flatten_index(rows, m);
                let (i, j) = choose|i: int, j: int|
                    0 <= i < rows.len() && 0 <= j < rows[i].len() && rows.flatten()[m] == rows[i][j];
                assert(all[m] == seq![(ps[i], ps[i + 1 + j])]);
            },
            SwapMoveStrategy::ThreeCycle => {
                let blocks = Seq::new(ps.len(), |i: int| cycle_block(ps, i));
                lemma_flatten_index(blocks, m);
                let (i, j) = choose|i: int, j: int|
                    0 <= i < blocks.len() && 0 <= j < blocks[i].len() && blocks.flatten()[m]
                        == blocks[i][j];
                let rows = Seq::new(after(ps.len() as int, i), |t: int| cycle_row(ps, i, i + 1 + t));
                lemma_flatten_index(rows, j);
                let (t, u) = choose|t: int, u: int|
                    0 <= t < rows.len() && 0 <= u < rows[t].len() && rows.flatten()[j] == rows[t][u];
                let b = i + 1 + t;
                let pairs = Seq::new(after(ps.len() as int, b), |v: int| cycle_pair(ps, i, b, b + 1 + v));
                lemma_flatten_index(pairs, u);
                let (v, w) = choose|v: int, w: int|
                    0 <= v < pairs.len() && 0 <= w < pairs[v].len() && pairs.flatten()[u]
                        == pairs[v][w];
                let c = b + 1 + v;
                assert(all[m] == cycle_pair(ps, i, b, c)[w]);
            },
            _ => {
                let by_column = strategy == SwapMoveStrategy::Column;
                let ks = key_list(ps, by_column);
                let some_list = lemma_key_list_exists(ps, by_column);
                assert(is_key_list(ps, by_column, some_list));
                assert(all == group_moves_spec(ps, by_column));
                let rows = Seq::new(ks.len(), |i: int| group_row(ps, by_column, ks, i));
                lemma_flatten_index(rows, m);
                let (i, j) = choose|i: int, j: int|
                    0 <= i < rows.len() && 0 <= j < rows[i].len() && rows.flatten()[m] == rows[i][j];
                lemma_group_nonempty(ps, by_column, ks, i);
                lemma_group_nonempty(ps, by_column, ks, i + 1 + j);
                assert(all[m] == zip_spec(
                    group_of(ps, by_column, ks[i]),
                    group_of(ps, by_column, ks[i + 1 + j]),
                ));
            },
        }
    }
}

/// Every built move has at least one pair.
pub proof fn lemma_built_nonempty(strategies: Seq<SwapMoveStrategy>, ps: Seq<Pos>)
    ensures
        forall|k: int, i: int|
            0 <= k < built_groups(strategies, ps).len() && 0 <= i < built_groups(
                strategies,
                ps,
            )[k].1.len() ==> (#[trigger] built_groups(strategies, ps)[k].1[i]).len() > 0,
{
    let g = built_groups(strategies, ps);
    assert forall|k: int, i: int| 0 <= k < g.len() && 0 <= i < g[k].1.len() implies (
    #[trigger] g[k].1[i]).len() > 0 by {
        lemma_built_family(strategies, ps, k);
        lemma_moves_nonempty(g[k].0, ps);
    }
}

/// Every move of every family touches only the given positions.
pub proof fn lemma_moves_within(strategy: SwapMoveStrategy, ps: Seq<Pos>)
    ensures
        forall|m: int|
            0 <= m < strategy_moves(strategy, ps).len() ==> pairs_within(
                #[trigger] strategy_moves(strategy, ps)[m],
                ps,
            ),
{
    let all = strategy_moves(strategy, ps);
    assert forall|m: int| 0 <= m < all.len() implies pairs_within(#[trigger] all[m], ps) by {
        match strategy {
            SwapMoveStrategy::Single => {
                let rows = Seq::new(ps.len(), |i: int| single_row(ps, i));
                lemma_flatten_index(rows, m);
                let (i, j) = choose|i: int, j: int|
                    0 <= i < rows.len() && 0 <= j < rows[i].len() && rows.flatten()[m] == rows[i][j];
                assert(all[m] == seq![(ps[i], ps[i + 1 + j])]);
                assert(ps.contains(ps[i]));
                assert(ps.contains(ps[i + 1 + j]));
            },
            SwapMoveStrategy::ThreeCycle => {
                let blocks = Seq::new(ps.len(), |i: int| cycle_block(ps, i));
                lemma_flatten_index(blocks, m);
                let (i, j) = choose|i: int, j: int|
                    0 <= i < blocks.len() && 0 <= j < blocks[i].len() && blocks.flatten()[m]
                        == blocks[i][j];
                let rows = Seq::new(after(ps.len() as int, i), |t: int| cycle_row(ps, i, i + 1 + t));
                lemma_flatten_index(rows, j);
                let (t, u) = choose|t: int, u: int|
                    0 <= t < rows.len() && 0 <= u < rows[t].len() && rows.flatten()[j] == rows[t][u];
                let b = i + 1 + t;
                let pairs = Seq::new(after(ps.len() as int, b), |v: int| cycle_pair(ps, i, b, b + 1 + v));
                lemma_flatten_index(pairs, u);
                let (v, w) = choose|v: int, w: int|
                    0 <= v < pairs.len() && 0 <= w < pairs[v].len() && pairs.flatten()[u]
                        == pairs[v][w];
                let c = b + 1 + v;
                assert(ps.contains(ps[i]));
                assert(ps.contains(ps[b]));
                assert(ps.contains(ps[c]));
                assert(all[m] == cycle_pair(ps, i, b, c)[w]);
            },
            _ => {
                let by_column = strategy == SwapMoveStrategy::Column;
                let ks = key_list(ps, by_column);
                assert(all == group_moves_spec(ps, by_column));
                let rows = Seq::new(ks.len(), |i: int| group_row(ps, by_column, ks, i));
                lemma_flatten_index(rows, m);
                let (i, j) = choose|i: int, j: int|
                    0 <= i < rows.len() && 0 <= j < rows[i].len() && rows.flatten()[m] == rows[i][j];
                let ga = group_of(ps, by_column, ks[i]);
                let gb = group_of(ps, by_column, ks[i + 1 + j]);
                assert(all[m] == zip_spec(ga, gb));
                assert forall|t: int| 0 <= t < all[m].len() implies ps.contains(#[trigger] all[m][t].0)
                    && ps.contains(all[m][t].1) by {
                    broadcast use Seq::lemma_filter_contains_rev;

                    assert(ga.contains(ga[t]));
                    assert(gb.contains(gb[t]));
                }
            },
        }
    }
}

/// Every built move touches only the given positions.
pub proof fn lemma_built_within(strategies: Seq<SwapMoveStrategy>, ps: Seq<Pos>)
    ensures
        forall|m: int|
            0 <= m < all_moves_of(built_groups(strategies, ps)).len() ==> pairs_within(
                #[trigger] all_moves_of(built_groups(strategies, ps))[m],
                ps,
            ),
    decreases strategies.len(),
{
    if strategies.len() > 0 {
        lemma_built_within(strategies.drop_last(), ps);
        let g = built_groups(strategies.drop_last(), ps);
        let mv = strategy_moves(strategies.last(), ps);
        lemma_moves_within(strategies.last(), ps);
        if mv.len() > 0 {
            lemma_all_moves_push(g, (strategies.last(), mv));
            let all = all_moves_of(g) + mv;
            assert forall|m: int| 0 <= m < all.len() implies pairs_within(#[trigger] all[m], ps) by {
                if m < all_moves_of(g).len() {
                    assert(all[m] == all_moves_of(g)[m]);
                } else {
                    assert(all[m] == mv[m - all_moves_of(g).len()]);
                }
            }
        }
    }
}

/// Every family gets at most the largest weight given.
proof fn lemma_weight_of_bound(weights: Seq<(SwapMoveStrategy, usize)>, s: SwapMoveStrategy, w: nat)
    requires
        forall|t: int| 0 <= t < weights.len() ==> (#[trigger] weights[t]).1 <= w,
    ensures
        weight_of(weights, s) <= w,
    decreases weights.len(),
{
    if weights.len() > 0 && weights[0].0 != s {
        assert forall|t: int| 0 <= t < weights.drop_first().len() implies (
        #[trigger] weights.drop_first()[t]).1 <= w by {
            assert(weights.drop_first()[t] == weights[t + 1]);
        }
        lemma_weight_of_bound(weights.drop_first(), s, w);
    }
}

/// The summed weight is at most the largest weight given times the number of
/// families.
pub proof fn lemma_total_weight_bound(
    groups: Seq<(SwapMoveStrategy, Seq<Seq<(Pos, Pos)>>)>,
    weights: Seq<(SwapMoveStrategy, usize)>,
    w: nat,
)
    requires
        forall|t: int| 0 <= t < weights.len() ==> (#[trigger] weights[t]).1 <= w,
    ensures
        total_weight(groups, weights) <= w * groups.len(),
{
    assert forall|k: int| 0 <= k <= groups.len() implies weight_before(groups, weights, k) <= w * k by {
        lemma_weight_before_bound(groups, weights, w, k);
    }
}

proof fn lemma_weight_before_bound(
    groups: Seq<(SwapMoveStrategy, Seq<Seq<(Pos, Pos)>>)>,
    weights: Seq<(SwapMoveStrategy, usize)>,
    w: nat,
    k: int,
)
    requires
        0 <= k <= groups.len(),
        forall|t: int| 0 <= t < weights.len() ==> (#[trigger] weights[t]).1 <= w,
    ensures
        weight_before(groups, weights, k) <= w * k,
    decreases k,
{
    if k > 0 {
        lemma_weight_before_bound(groups, weights, w, k - 1);
        lemma_weight_of_bound(weights, groups[k - 1].0, w);
        assert(w * k == w * (k - 1) + w) by (nonlinear_arith);
    }
}

/// Building never gives more families than were asked for.
pub proof fn lemma_built_len(strategies: Seq<SwapMoveStrategy>, ps: Seq<Pos>)
    ensures
        built_groups(strategies, ps).len() <= strategies.len(),
    decreases strategies.len(),
{
    if strategies.len() > 0 {
        lemma_built_len(strategies.drop_last(), ps);
    }
}

impl Clone for SwapMoves {
    fn clone(&self) -> (r: Self)
        ensures
            r@ == self@,
    {
        proof {
            use_type_invariant(self);
        }
        let mut groups: Vec<(SwapMoveStrategy, Vec<SwapMove>)> = Vec::new();
        let mut g: usize = 0;
        while g < self.strategies.len()
            invariant
                g <= self.strategies@.len(),
                groups@.len() == g,
                forall|t: int| 0 <= t < g ==> (#[trigger] groups@[t]).0 == self.strategies@[t].0
                    && pairs_of(groups@[t].1@) == pairs_of(self.strategies@[t].1@),
            decreases self.strategies@.len() - g,
        {
            let moves = &self.strategies[g].1;
            let mut copy: Vec<SwapMove> = Vec::new();
            let mut k: usize = 0;
            while k < moves.len()
                invariant
                    k <= moves@.len(),
                    pairs_of(copy@) == pairs_of(moves@).take(k as int),
                decreases moves@.len() - k,
            {
                let m = moves[k].duplicate();
                proof {
                    lemma_pairs_of_push(copy@, m);
                    assert(pairs_of(moves@).take(k + 1) =~= pairs_of(moves@).take(k as int).push(
                        m.0@,
                    ));
                }
                copy.push(m);
                k = k + 1;
            }
            assert(pairs_of(moves@).take(k as int) =~= pairs_of(moves@));
            groups.push((self.strategies[g].0, copy));
            g = g + 1;
        }
        assert(groups_view(groups@) =~= groups_view(self.strategies@));
        assert forall|t: int| 0 <= t < groups@.len() implies (#[trigger] groups@[t]).1@.len() > 0 by {
            assert(pairs_of(groups@[t].1@).len() == pairs_of(self.strategies@[t].1@).len());
        }
        SwapMoves { strategies: groups, len: self.len }
    }
}

/// Moving by two parts in a row is moving by the parts joined: the pairs of
/// the first part are applied, then those of the second.
pub proof fn lemma_apply_concat(keys: Seq<Key>, first: Seq<(Pos, Pos)>, second: Seq<(Pos, Pos)>)
    ensures
        apply_pairs(keys, first + second) == apply_pairs(apply_pairs(keys, first), second),
    decreases second.len(),
{
    if second.len() == 0 {
        assert(first + second =~= first);
    } else {
        lemma_apply_concat(keys, first, second.drop_last());
        assert((first + second).drop_last() =~= first + second.drop_last());
        assert((first + second).last() == second.last());
    }
}

/// Trading the characters at two held positions: each key there takes the
/// other's character, and no other key changes.
proof fn lemma_swap_at(keys: Seq<Key>, p1: Pos, p2: Pos, i1: int, i2: int)
    requires
        positions_distinct(keys),
        0 <= i1 < keys.len(),
        0 <= i2 < keys.len(),
        keys[i1].position == p1,
        keys[i2].position == p2,
    ensures
        swap_spec(keys, p1, p2) == keys.update(i1, with_char(keys[i1], keys[i2].ch)).update(
            i2,
            with_char(keys[i2], keys[i1].ch),
        ),
{
    lemma_index_at(keys, p1, i1);
    lemma_index_at(keys, p2, i2);
    let s = swap_spec(keys, p1, p2);
    let t = keys.update(i1, with_char(keys[i1], keys[i2].ch)).update(
        i2,
        with_char(keys[i2], keys[i1].ch),
    );
    assert forall|k: int| 0 <= k < keys.len() implies s[k] == t[k] by {
        if k != i1 && k != i2 {
            assert(keys[k].position != keys[i1].position);
            assert(keys[k].position != keys[i2].position);
        }
    }
    assert(s =~= t);
}

/// A move of two pairs is two swaps in a row.
proof fn lemma_apply_two(keys: Seq<Key>, x: (Pos, Pos), y: (Pos, Pos))
    ensures
        apply_pairs(keys, seq![x, y]) == swap_spec(swap_spec(keys, x.0, x.1), y.0, y.1),
{
    reveal_with_fuel(apply_pairs, 3);
    assert(seq![x, y].drop_last() =~= seq![x]);
    assert(seq![x].drop_last() =~= Seq::<(Pos, Pos)>::empty());
}

/// The two three-cycles of three held positions undo each other: moving by
/// either and then by the other gives the keys back.
pub proof fn lemma_three_cycle_round_trip(keys: Seq<Key>, a: Pos, b: Pos, c: Pos)
    requires
        positions_distinct(keys),
        holds_position(keys, a),
        holds_position(keys, b),
        holds_position(keys, c),
        a != b,
        a != c,
        b != c,
    ensures
        apply_pairs(apply_pairs(keys, seq![(a, c), (b, c)]), seq![(a, b), (c, b)]) == keys,
        apply_pairs(apply_pairs(keys, seq![(a, b), (c, b)]), seq![(a, c), (b, c)]) == keys,
{
    let ia = choose|i: int| 0 <= i < keys.len() && keys[i].position == a;
    let ib = choose|i: int| 0 <= i < keys.len() && keys[i].position == b;
    let ic = choose|i: int| 0 <= i < keys.len() && keys[i].position == c;
    lemma_apply_two(keys, (a, c), (b, c));
    lemma_apply_two(keys, (a, b), (c, b));
    // One way round.
    let k1 = swap_spec(keys, a, c);
    lemma_swap_at(keys, a, c, ia, ic);
    lemma_swap_keeps(keys, a, c);
    let k2 = swap_spec(k1, b, c);
    lemma_swap_at(k1, b, c, ib, ic);
    lemma_swap_keeps(k1, b, c);
    lemma_apply_two(k2, (a, b), (c, b));
    let k3 = swap_spec(k2, a, b);
    lemma_swap_at(k2, a, b, ia, ib);
    lemma_swap_keeps(k2, a, b);
    let k4 = swap_spec(k3, c, b);
    lemma_swap_at(k3, c, b, ic, ib);
    assert(k4 =~= keys);
    // The other way round.
    let m1 = swap_spec(keys, a, b);
    lemma_swap_at(keys, a, b, ia, ib);
    lemma_swap_keeps(keys, a, b);
    let m2 = swap_spec(m1, c, b);
    lemma_swap_at(m1, c, b, ic, ib);
    lemma_swap_keeps(m1, c, b);
    lemma_apply_two(m2, (a, c), (b, c));
    let m3 = swap_spec(m2, a, c);
    lemma_swap_at(m2, a, c, ia, ic);
    lemma_swap_keeps(m2, a, c);
    let m4 = swap_spec(m3, b, c);
    lemma_swap_at(m3, b, c, ib, ic);
    assert(m4 =~= keys);
}

/// Dropping repeats keeps each strategy once: the result has no repeats and
/// holds the same strategies.
pub proof fn lemma_distinct_in_order(s: Seq<SwapMoveStrategy>)
    ensures
        distinct_in_order(s).no_duplicates(),
        forall|x: SwapMoveStrategy| #[trigger] distinct_in_order(s).contains(x) <==> s.contains(x),
    decreases s.len(),
{
    if s.len() > 0 {
        let prev = s.drop_last();
        lemma_distinct_in_order(prev);
        let d = distinct_in_order(prev);
        assert forall|x: SwapMoveStrategy| #[trigger] distinct_in_order(s).contains(x) <==> s.contains(
            x,
        ) by {
            if s.contains(x) && x != s.last() {
                let i = choose|i: int| 0 <= i < s.len() && s[i] == x;
                assert(prev[i] == x);
            }
            if prev.contains(x) {
                let i = choose|i: int| 0 <= i < prev.len() && prev[i] == x;
                assert(s[i] == x);
            }
            if !d.contains(s.last()) {
                if d.push(s.last()).contains(x) && x != s.last() {
                    let i = choose|i: int| 0 <= i < d.push(s.last()).len() && d.push(s.last())[i] == x;
                    assert(d[i] == x);
                }
                if d.contains(x) {
                    let i = choose|i: int| 0 <= i < d.len() && d[i] == x;
                    assert(d.push(s.last())[i] == x);
                }
                assert(d.push(s.last())[d.len() as int] == s.last());
            }
            assert(s[s.len() - 1] == s.last());
        }
    }
}

/// A list without repeats is kept as it is.
pub proof fn lemma_distinct_in_order_keeps(s: Seq<SwapMoveStrategy>)
    requires
        s.no_duplicates(),
    ensures
        distinct_in_order(s) == s,
    decreases s.len(),
{
    if s.len() > 0 {
        let prev = s.drop_last();
        assert(prev.no_duplicates());
        lemma_distinct_in_order_keeps(prev);
        if prev.contains(s.last()) {
            let i = choose|i: int| 0 <= i < prev.len() && prev[i] == s.last();
            assert(s[i] == s[s.len() - 1]);
        }
        assert(prev.push(s.last()) =~= s);
    }
}

/// A builder made of a builder's own list of families builds the same moves:
/// dropping repeats a second time changes nothing.
pub proof fn lemma_new_idempotent(s: Seq<SwapMoveStrategy>, ps: Seq<Pos>)
    ensures
        distinct_in_order(distinct_in_order(s)) == distinct_in_order(s),
        built_groups(distinct_in_order(distinct_in_order(s)), ps) == built_groups(
            distinct_in_order(s),
            ps,
        ),
{
    lemma_distinct_in_order(s);
    lemma_distinct_in_order_keeps(distinct_in_order(s));
}

/// The full builder builds what a builder of all four families, in the order
/// single swaps, columns, rows, three-cycles, builds.
pub proof fn lemma_full_is_every_family()
    ensures
        distinct_in_order(
            seq![
                SwapMoveStrategy::Single,
                SwapMoveStrategy::Column,
                SwapMoveStrategy::Row,
                SwapMoveStrategy::ThreeCycle,
            ],
        ) == seq![
            SwapMoveStrategy::Single,
            SwapMoveStrategy::Column,
            SwapMoveStrategy::Row,
            SwapMoveStrategy::ThreeCycle,
        ],
{
    let all = seq![
        SwapMoveStrategy::Single,
        SwapMoveStrategy::Column,
        SwapMoveStrategy::Row,
        SwapMoveStrategy::ThreeCycle,
    ];
    assert(all.no_duplicates()) by {
        assert forall|i: int, j: int| 0 <= i < all.len() && 0 <= j < all.len() && i != j implies all[i]
            != all[j] by {}
    }
    lemma_distinct_in_order_keeps(all);
}

/// A nonempty entry makes the flattened sequence nonempty.
proof fn lemma_flatten_nonempty<A>(s: Seq<Seq<A>>, i: int)
    requires
        0 <= i < s.len(),
        s[i].len() > 0,
    ensures
        s.flatten().len() > 0,
{
    s.lemma_flatten_length_ge_single_element_length(i);
    s.lemma_flatten_and_flatten_alt_are_equivalent();
}

/// Single swaps exist exactly when there are two positions or more, and
/// three-cycles exactly when there are three or more.
pub proof fn lemma_swaps_and_cycles_exist(ps: Seq<Pos>)
    ensures
        single_moves_spec(ps).len() > 0 <==> ps.len() >= 2,
        cycle_moves_spec(ps).len() > 0 <==> ps.len() >= 3,
{
    let n = ps.len() as int;
    let rows = Seq::new(ps.len(), |i: int| single_row(ps, i));
    if n >= 2 {
        assert(rows[0].len() == n - 1);
        lemma_flatten_nonempty(rows, 0);
    } else if rows.flatten().len() > 0 {
        lemma_flatten_index(rows, 0);
        let (i, j) = choose|i: int, j: int|
            0 <= i < rows.len() && 0 <= j < rows[i].len() && rows.flatten()[0] == rows[i][j];
        assert(rows[i].len() == after(n, i));
    }
    let blocks = Seq::new(ps.len(), |i: int| cycle_block(ps, i));
    if n >= 3 {
        let pairs = Seq::new(after(n, 1), |u: int| cycle_pair(ps, 0, 1, 1 + 1 + u));
        assert(pairs[0] == cycle_pair(ps, 0, 1, 2));
        lemma_flatten_nonempty(pairs, 0);
        let rows0 = Seq::new(after(n, 0), |t: int| cycle_row(ps, 0, 0 + 1 + t));
        assert(rows0[0] == pairs.flatten());
        lemma_flatten_nonempty(rows0, 0);
        assert(blocks[0] == rows0.flatten());
        lemma_flatten_nonempty(blocks, 0);
    } else if blocks.flatten().len() > 0 {
        lemma_flatten_index(blocks, 0);
        let (i, j) = choose|i: int, j: int|
            0 <= i < blocks.len() && 0 <= j < blocks[i].len() && blocks.flatten()[0] == blocks[i][j];
        let rows_i = Seq::new(after(n, i), |t: int| cycle_row(ps, i, i + 1 + t));
        assert(blocks[i] == rows_i.flatten());
        lemma_flatten_index(rows_i, j);
        let (t, u) = choose|t: int, u: int|
            0 <= t < rows_i.len() && 0 <= u < rows_i[t].len() && rows_i.flatten()[j] == rows_i[t][u];
        let b = i + 1 + t;
        let pairs = Seq::new(after(n, b), |v: int| cycle_pair(ps, i, b, b + 1 + v));
        assert(rows_i[t] == pairs.flatten());
        lemma_flatten_index(pairs, u);
        let (v, w) = choose|v: int, w: int|
            0 <= v < pairs.len() && 0 <= w < pairs[v].len() && pairs.flatten()[u] == pairs[v][w];
        assert(b + 1 + v < n);
    }
}

/// Column moves exist exactly when the positions lie in two columns or more,
/// and row moves exactly when they lie in two rows or more.
pub proof fn lemma_group_moves_exist(ps: Seq<Pos>, by_column: bool)
    ensures
        group_moves_spec(ps, by_column).len() > 0 <==> exists|i: int, j: int|
            0 <= i < ps.len() && 0 <= j < ps.len() && key_of(#[trigger] ps[i], by_column) != key_of(
                #[trigger] ps[j],
                by_column,
            ),
{
    let some_list = lemma_key_list_exists(ps, by_column);
    assert(is_key_list(ps, by_column, some_list));
    let ks = key_list(ps, by_column);
    assert(is_key_list(ps, by_column, ks));
    let rows = Seq::new(ks.len(), |i: int| group_row(ps, by_column, ks, i));
    assert(group_moves_spec(ps, by_column) == rows.flatten());
    if ks.len() >= 2 {
        assert(rows[0].len() == ks.len() - 1);
        lemma_flatten_nonempty(rows, 0);
        let i = choose|i: int| 0 <= i < ps.len() && key_of(ps[i], by_column) == #[trigger] ks[0];
        let j = choose|j: int| 0 <= j < ps.len() && key_of(ps[j], by_column) == #[trigger] ks[1];
        assert(key_of(ps[i], by_column) != key_of(ps[j], by_column));
    } else {
        if rows.flatten().len() > 0 {
            lemma_flatten_index(rows, 0);
            let (i, j) = choose|i: int, j: int|
                0 <= i < rows.len() && 0 <= j < rows[i].len() && rows.flatten()[0] == rows[i][j];
            assert(rows[i].len() == after(ks.len() as int, i));
        }
        assert forall|i: int, j: int|
            0 <= i < ps.len() && 0 <= j < ps.len() implies key_of(#[trigger] ps[i], by_column)
            == key_of(#[trigger] ps[j], by_column) by {
            assert(ks.contains(key_of(ps[i], by_column)));
            assert(ks.contains(key_of(ps[j], by_column)));
        }
    }
}

/// Rows whose lengths fall by `k` from one row to the next, down to none,
/// hold `k` times half of `len * (len - 1)` items.
proof fn lemma_staircase_len<A>(rows: Seq<Seq<A>>, k: int)
    requires
        k >= 0,
        forall|i: int| 0 <= i < rows.len() ==> (#[trigger] rows[i]).len() == k * (rows.len() - 1 - i),
    ensures
        2 * rows.flatten().len() == k * rows.len() * (rows.len() - 1),
    decreases rows.len(),
{
    if rows.len() > 0 {
        let rest = rows.drop_first();
        assert forall|i: int| 0 <= i < rest.len() implies (#[trigger] rest[i]).len() == k * (rest.len()
            - 1 - i) by {
            assert(rest[i] == rows[i + 1]);
        }
        lemma_staircase_len(rest, k);
        assert(rows.flatten() == rows[0] + rest.flatten());
        let l = rows.len() as int;
        let f = rows.flatten().len() as int;
        let h = rows[0].len() as int;
        let r = rest.flatten().len() as int;
        assert(h == k * (rows.len() - 1 - 0));
        assert(2 * f == k * l * (l - 1)) by (nonlinear_arith)
            requires
                f == h + r,
                h == k * (l - 1 - 0),
                2 * r == k * (l - 1) * (l - 1 - 1),
        ;
    } else {
        assert(2 * rows.flatten().len() == k * rows.len() * (rows.len() - 1)) by (nonlinear_arith)
            requires
                rows.len() == 0,
                rows.flatten().len() == 0,
        ;
    }
}

/// Rows of `k` items each hold `k * len` items.
proof fn lemma_uniform_len<A>(rows: Seq<Seq<A>>, k: int)
    requires
        forall|i: int| 0 <= i < rows.len() ==> (#[trigger] rows[i]).len() == k,
    ensures
        rows.flatten().len() == k * rows.len(),
    decreases rows.len(),
{
    if rows.len() > 0 {
        let rest = rows.drop_first();
        assert forall|i: int| 0 <= i < rest.len() implies (#[trigger] rest[i]).len() == k by {
            assert(rest[i] == rows[i + 1]);
        }
        lemma_uniform_len(rest, k);
        assert(rows.flatten() == rows[0] + rest.flatten());
        assert(k + k * (rows.len() - 1) == k * rows.len()) by (nonlinear_arith);
    }
}

/// Rows of `(len - 1 - i) * (len - 2 - i)` items hold a third of
/// `len * (len - 1) * (len - 2)` items.
proof fn lemma_pronic_len<A>(rows: Seq<Seq<A>>)
    requires
        forall|i: int|
            0 <= i < rows.len() ==> (#[trigger] rows[i]).len() == (rows.len() - 1 - i) * (rows.len() - 2
                - i),
    ensures
        3 * rows.flatten().len() == rows.len() * (rows.len() - 1) * (rows.len() - 2),
    decreases rows.len(),
{
    if rows.len() > 0 {
        let rest = rows.drop_first();
        assert forall|i: int| 0 <= i < rest.len() implies (#[trigger] rest[i]).len() == (rest.len() - 1
            - i) * (rest.len() - 2 - i) by {
            assert(rest[i] == rows[i + 1]);
        }
        lemma_pronic_len(rest);
        assert(rows.flatten() == rows[0] + rest.flatten());
        let l = rows.len() as int;
        let f = rows.flatten().len() as int;
        let h = rows[0].len() as int;
        let r = rest.flatten().len() as int;
        assert(h == (rows.len() - 1 - 0) * (rows.len() - 2 - 0));
        assert(3 * f == l * (l - 1) * (l - 2)) by (nonlinear_arith)
            requires
                f == h + r,
                h == (l - 1 - 0) * (l - 2 - 0),
                3 * r == (l - 1) * (l - 1 - 1) * (l - 1 - 2),
        ;
    } else {
        assert(3 * rows.flatten().len() == rows.len() * (rows.len() - 1) * (rows.len() - 2))
            by (nonlinear_arith)
            requires
                rows.len() == 0,
                rows.flatten().len() == 0,
        ;
    }
}

/// The three-cycles of positions `i < j` and a later one: two for each
/// later position.
proof fn lemma_cycle_row_len(ps: Seq<Pos>, i: int, j: int)
    ensures
        cycle_row(ps, i, j).len() == 2 * after(ps.len() as int, j),
{
    let pairs = Seq::new(after(ps.len() as int, j), |u: int| cycle_pair(ps, i, j, j + 1 + u));
    assert forall|u: int| 0 <= u < pairs.len() implies (#[trigger] pairs[u]).len() == 2 by {}
    lemma_uniform_len(pairs, 2);
}

/// The three-cycles whose first position is `ps[i]`: two for each pair of
/// later positions.
proof fn lemma_cycle_block_len(ps: Seq<Pos>, i: int)
    requires
        0 <= i < ps.len(),
    ensures
        cycle_block(ps, i).len() == (ps.len() - 1 - i) * (ps.len() - 2 - i),
{
    let n = ps.len() as int;
    let a = after(n, i);
    let block_rows = Seq::new(a, |t: int| cycle_row(ps, i, i + 1 + t));
    assert forall|t: int| 0 <= t < block_rows.len() implies (#[trigger] block_rows[t]).len() == 2 * (
    block_rows.len() - 1 - t) by {
        lemma_cycle_row_len(ps, i, i + 1 + t);
    }
    lemma_staircase_len(block_rows, 2);
    assert(cycle_block(ps, i) == block_rows.flatten());
    let l = block_rows.flatten().len() as int;
    if i + 1 < n {
        assert(l == (n - 1 - i) * (n - 2 - i)) by (nonlinear_arith)
            requires
                2 * l == 2 * a * (a - 1),
                a == n - 1 - i,
        ;
    } else {
        assert((n - 1 - i) * (n - 2 - i) == 0) by (nonlinear_arith)
            requires
                i == n - 1,
        ;
    }
}

/// How many moves each family has: over `n` positions, `n * (n - 1) / 2`
/// single swaps and `n * (n - 1) * (n - 2) / 3` three-cycles (two for each
/// triple); over positions in `k` columns (or rows), `k * (k - 1) / 2`
/// column (or row) exchanges.
pub proof fn lemma_move_counts(ps: Seq<Pos>, by_column: bool)
    ensures
        2 * single_moves_spec(ps).len() == ps.len() * (ps.len() - 1),
        3 * cycle_moves_spec(ps).len() == ps.len() * (ps.len() - 1) * (ps.len() - 2),
        2 * group_moves_spec(ps, by_column).len() == key_list(ps, by_column).len() * (key_list(
            ps,
            by_column,
        ).len() - 1),
{
    let n = ps.len() as int;
    let rows = Seq::new(ps.len(), |i: int| single_row(ps, i));
    assert forall|i: int| 0 <= i < rows.len() implies (#[trigger] rows[i]).len() == 1 * (rows.len() - 1
        - i) by {}
    lemma_staircase_len(rows, 1);
    let blocks = Seq::new(ps.len(), |i: int| cycle_block(ps, i));
    assert forall|i: int| 0 <= i < blocks.len() implies (#[trigger] blocks[i]).len() == (blocks.len()
        - 1 - i) * (blocks.len() - 2 - i) by {
        lemma_cycle_block_len(ps, i);
    }
    lemma_pronic_len(blocks);
    let some_list = lemma_key_list_exists(ps, by_column);
    assert(is_key_list(ps, by_column, some_list));
    let ks = key_list(ps, by_column);
    let groups = Seq::new(ks.len(), |i: int| group_row(ps, by_column, ks, i));
    assert forall|i: int| 0 <= i < groups.len() implies (#[trigger] groups[i]).len() == 1 * (groups.len()
        - 1 - i) by {}
    lemma_staircase_len(groups, 1);
}

/// The moves of the families, one family after the other.
pub open spec fn moves_of_families(s: Seq<SwapMoveStrategy>, ps: Seq<Pos>) -> Seq<Seq<(Pos, Pos)>>
    decreases s.len(),
{
    if s.len() == 0 {
        Seq::empty()
    } else {
        moves_of_families(s.drop_last(), ps) + strategy_moves(s.last(), ps)
    }
}

/// Building a list of families gives the moves of each family in turn.
pub proof fn lemma_built_moves(s: Seq<SwapMoveStrategy>, ps: Seq<Pos>)
    ensures
        all_moves_of(built_groups(s, ps)) == moves_of_families(s, ps),
    decreases s.len(),
{
    if s.len() == 0 {
        assert(all_moves_of(built_groups(s, ps)) =~= Seq::<Seq<(Pos, Pos)>>::empty());
    } else {
        lemma_built_moves(s.drop_last(), ps);
        let g = built_groups(s.drop_last(), ps);
        let m = strategy_moves(s.last(), ps);
        if m.len() > 0 {
            lemma_all_moves_push(g, (s.last(), m));
        } else {
            assert(moves_of_families(s.drop_last(), ps) + m =~= moves_of_families(s.drop_last(), ps));
        }
    }
}

/// The full builder builds the single swaps, then the column exchanges, then
/// the row exchanges, then the three-cycles: each what a builder of that
/// family alone builds.
pub proof fn lemma_full_decomposes(ps: Seq<Pos>)
    ensures
        all_moves_of(
            built_groups(
                seq![
                    SwapMoveStrategy::Single,
                    SwapMoveStrategy::Column,
                    SwapMoveStrategy::Row,
                    SwapMoveStrategy::ThreeCycle,
                ],
                ps,
            ),
        ) == all_moves_of(built_groups(distinct_in_order(seq![SwapMoveStrategy::Single]), ps))
            + all_moves_of(built_groups(distinct_in_order(seq![SwapMoveStrategy::Column]), ps))
            + all_moves_of(built_groups(distinct_in_order(seq![SwapMoveStrategy::Row]), ps))
            + all_moves_of(built_groups(distinct_in_order(seq![SwapMoveStrategy::ThreeCycle]), ps)),
{
    let all = seq![
        SwapMoveStrategy::Single,
        SwapMoveStrategy::Column,
        SwapMoveStrategy::Row,
        SwapMoveStrategy::ThreeCycle,
    ];
    lemma_built_moves(all, ps);
    assert(all.drop_last() =~= seq![
        SwapMoveStrategy::Single,
        SwapMoveStrategy::Column,
        SwapMoveStrategy::Row,
    ]);
    assert(all.drop_last().drop_last() =~= seq![SwapMoveStrategy::Single, SwapMoveStrategy::Column]);
    assert(all.drop_last().drop_last().drop_last() =~= seq![SwapMoveStrategy::Single]);
    assert(seq![SwapMoveStrategy::Single].drop_last() =~= Seq::<SwapMoveStrategy>::empty());
    let single = strategy_moves(SwapMoveStrategy::Single, ps);
    let column = strategy_moves(SwapMoveStrategy::Column, ps);
    let row = strategy_moves(SwapMoveStrategy::Row, ps);
    let cycle = strategy_moves(SwapMoveStrategy::ThreeCycle, ps);
    assert(moves_of_families(seq![SwapMoveStrategy::Single], ps) =~= single) by {
        reveal_with_fuel(moves_of_families, 2);
    }
    assert(moves_of_families(all.drop_last().drop_last(), ps) =~= single + column);
    assert(moves_of_families(all.drop_last(), ps) =~= single + column + row);
    assert(moves_of_families(all, ps) =~= strategy_moves(SwapMoveStrategy::Single, ps)
        + strategy_moves(SwapMoveStrategy::Column, ps) + strategy_moves(SwapMoveStrategy::Row, ps)
        + strategy_moves(SwapMoveStrategy::ThreeCycle, ps));
    lemma_single_family(SwapMoveStrategy::Single, ps);
    lemma_single_family(SwapMoveStrategy::Column, ps);
    lemma_single_family(SwapMoveStrategy::Row, ps);
    lemma_single_family(SwapMoveStrategy::ThreeCycle, ps);
}

/// A builder of one family builds that family's moves.
pub proof fn lemma_single_family(x: SwapMoveStrategy, ps: Seq<Pos>)
    ensures
        distinct_in_order(seq![x]) == seq![x],
        all_moves_of(built_groups(distinct_in_order(seq![x]), ps)) == strategy_moves(x, ps),
{
    reveal_with_fuel(distinct_in_order, 2);
    reveal_with_fuel(moves_of_families, 2);
    assert(seq![x].drop_last() =~= Seq::<SwapMoveStrategy>::empty());
    assert(seq![x].last() == x);
    assert(distinct_in_order(seq![x]) =~= seq![x]);
    lemma_built_moves(seq![x], ps);
    assert(moves_of_families(seq![x], ps) =~= strategy_moves(x, ps));
}

/// How many moves one family has over the positions: `n * (n - 1) / 2`
/// single swaps and `n * (n - 1) * (n - 2) / 3` three-cycles over `n`
/// positions; `k * (k - 1) / 2` exchanges over `k` columns (or rows).
pub open spec fn family_size(x: SwapMoveStrategy, ps: Seq<Pos>) -> int {
    let n = ps.len() as int;
    match x {
        SwapMoveStrategy::Single => n * (n - 1) / 2,
        SwapMoveStrategy::Column => key_list(ps, true).len() * (key_list(ps, true).len() - 1) / 2,
        SwapMoveStrategy::Row => key_list(ps, false).len() * (key_list(ps, false).len() - 1) / 2,
        SwapMoveStrategy::ThreeCycle => n * (n - 1) * (n - 2) / 3,
    }
}

/// The sizes of the families, added up.
pub open spec fn total_size(s: Seq<SwapMoveStrategy>, ps: Seq<Pos>) -> int
    decreases s.len(),
{
    if s.len() == 0 {
        0
    } else {
        total_size(s.drop_last(), ps) + family_size(s.last(), ps)
    }
}

/// Each family has as many moves as `family_size` says.
pub proof fn lemma_family_size(x: SwapMoveStrategy, ps: Seq<Pos>)
    ensures
        strategy_moves(x, ps).len() == family_size(x, ps),
{
    lemma_move_counts(ps, true);
    lemma_move_counts(ps, false);
}

/// The moves built from a list of families number the sizes of the families
/// added up; a builder's list holds each family once, so the moves of
/// `SwapMoveBuilder::new(s)` number the sizes of the distinct families of
/// `s`. None are built exactly when no family of the list has a move, and a
/// builder with no family builds none.
pub proof fn lemma_built_count(s: Seq<SwapMoveStrategy>, ps: Seq<Pos>)
    ensures
        all_moves_of(built_groups(s, ps)).len() == total_size(s, ps),
        all_moves_of(built_groups(s, ps)).len() == 0 <==> forall|i: int|
            0 <= i < s.len() ==> strategy_moves(#[trigger] s[i], ps).len() == 0,
        built_groups(Seq::empty(), ps).len() == 0,
    decreases s.len(),
{
    lemma_built_moves(s, ps);
    if s.len() > 0 {
        let prev = s.drop_last();
        lemma_built_count(prev, ps);
        lemma_built_moves(prev, ps);
        lemma_family_size(s.last(), ps);
        assert forall|i: int| 0 <= i < prev.len() implies prev[i] == s[i] by {}
        if all_moves_of(built_groups(s, ps)).len() == 0 {
            assert forall|i: int| 0 <= i < s.len() implies strategy_moves(#[trigger] s[i], ps).len()
                == 0 by {
                if i < prev.len() {
                    assert(prev[i] == s[i]);
                    assert(strategy_moves(prev[i], ps).len() == 0);
                }
            }
        }
        if forall|i: int| 0 <= i < s.len() ==> strategy_moves(#[trigger] s[i], ps).len() == 0 {
            assert forall|i: int| 0 <= i < prev.len() implies strategy_moves(#[trigger] prev[i], ps).len()
                == 0 by {
                assert(prev[i] == s[i]);
            }
            assert(strategy_moves(s[s.len() - 1], ps).len() == 0);
        }
    }
}

/// Moving three held positions `a`, `b`, `c`, which hold `x`, `y`, `z`, by
/// the first three-cycle of the triple puts `z`, `x`, `y` at them, and by the
/// second `y`, `z`, `x`; no other key changes; and moving twice by the first
/// is moving once by the second.
pub proof fn lemma_three_cycle_places(keys: Seq<Key>, a: Pos, b: Pos, c: Pos)
    requires
        positions_distinct(keys),
        holds_position(keys, a),
        holds_position(keys, b),
        holds_position(keys, c),
        a != b,
        a != c,
        b != c,
    ensures
        ({
            let once = apply_pairs(keys, seq![(a, c), (b, c)]);
            let other = apply_pairs(keys, seq![(a, b), (c, b)]);
            &&& char_at_pos(once, a) == char_at_pos(keys, c)
            &&& char_at_pos(once, b) == char_at_pos(keys, a)
            &&& char_at_pos(once, c) == char_at_pos(keys, b)
            &&& char_at_pos(other, a) == char_at_pos(keys, b)
            &&& char_at_pos(other, b) == char_at_pos(keys, c)
            &&& char_at_pos(other, c) == char_at_pos(keys, a)
            &&& forall|i: int|
                0 <= i < keys.len() && keys[i].position != a && keys[i].position != b
                    && keys[i].position != c ==> #[trigger] once[i] == keys[i] && other[i] == keys[i]
            &&& apply_pairs(once, seq![(a, c), (b, c)]) == other
        }),
{
    let ia = choose|i: int| 0 <= i < keys.len() && keys[i].position == a;
    let ib = choose|i: int| 0 <= i < keys.len() && keys[i].position == b;
    let ic = choose|i: int| 0 <= i < keys.len() && keys[i].position == c;
    lemma_index_at(keys, a, ia);
    lemma_index_at(keys, b, ib);
    lemma_index_at(keys, c, ic);
    lemma_apply_two(keys, (a, c), (b, c));
    lemma_apply_two(keys, (a, b), (c, b));
    let k1 = swap_spec(keys, a, c);
    lemma_swap_at(keys, a, c, ia, ic);
    lemma_swap_keeps(keys, a, c);
    let once = swap_spec(k1, b, c);
    lemma_swap_at(k1, b, c, ib, ic);
    lemma_swap_keeps(k1, b, c);
    lemma_index_at(once, a, ia);
    lemma_index_at(once, b, ib);
    lemma_index_at(once, c, ic);
    let m1 = swap_spec(keys, a, b);
    lemma_swap_at(keys, a, b, ia, ib);
    lemma_swap_keeps(keys, a, b);
    let other = swap_spec(m1, c, b);
    lemma_swap_at(m1, c, b, ic, ib);
    lemma_swap_keeps(m1, c, b);
    lemma_index_at(other, a, ia);
    lemma_index_at(other, b, ib);
    lemma_index_at(other, c, ic);
    lemma_apply_two(once, (a, c), (b, c));
    let t1 = swap_spec(once, a, c);
    lemma_swap_at(once, a, c, ia, ic);
    lemma_swap_keeps(once, a, c);
    let twice = swap_spec(t1, b, c);
    lemma_swap_at(t1, b, c, ib, ic);
    assert(twice =~= other);
}

/// The picks below the total weight that `family_at` maps to family `k`
/// form a block of exactly as many picks as the family's weight, inside the
/// picks below the total: with the pick drawn uniformly below the total, each
/// family is drawn in proportion to its weight, and every family with
/// positive weight can be drawn.
pub proof fn lemma_family_block(
    groups: Seq<(SwapMoveStrategy, Seq<Seq<(Pos, Pos)>>)>,
    weights: Seq<(SwapMoveStrategy, usize)>,
    k: int,
)
    requires
        0 <= k < groups.len(),
    ensures
        weight_before(groups, weights, k + 1) - weight_before(groups, weights, k) == weight_of(
            weights,
            groups[k].0,
        ),
        weight_before(groups, weights, k + 1) <= total_weight(groups, weights),
        weight_of(weights, groups[k].0) > 0 ==> weight_before(groups, weights, k) < total_weight(
            groups,
            weights,
        ),
{
    lemma_weight_before_monotone(groups, weights, k + 1, groups.len() as int);
}

/// The blocks of picks of the families follow one another in family order
/// without overlap, starting at 0.
pub proof fn lemma_family_blocks_ordered(
    groups: Seq<(SwapMoveStrategy, Seq<Seq<(Pos, Pos)>>)>,
    weights: Seq<(SwapMoveStrategy, usize)>,
    k1: int,
    k2: int,
)
    requires
        0 <= k1 < k2 <= groups.len(),
    ensures
        weight_before(groups, weights, 0) == 0,
        weight_before(groups, weights, k1 + 1) <= weight_before(groups, weights, k2),
{
    lemma_weight_before_monotone(groups, weights, k1 + 1, k2);
}

} // verus!
