# layouts_rs

Analysis and optimization of keyboard layouts, verified with Verus.

- `src/` is the library, proved against its contracts (the calls into `rand`
  and `log` in `random` and `level` are trusted, with their contracts stated):
  - `layout`: hands, fingers, positions and keys; a `Layout` built from a
    layout string and key slots, with lookups, character swaps and a
    fingerprint. Geometry is fixed point (thousandths of a key unit).
  - `ngrams`: unigrams, bigrams and trigrams, and the typing motions each
    falls under (same-finger skips, lateral stretches, scissors, rolls,
    redirects, alternations).
  - `analyzer`: the n-grams of a corpus found on a layout, with their counts.
  - `scoring`: which motions each metric counts, and under which key.
  - `swaps`: the families of moves (single swaps, column and row exchanges,
    three-cycles), built over the movable positions, and weighted sampling.
  - `optimizer`: a layout under optimization (pinned characters, a limit on
    changed keys), a score cache, best-move improvement, shuffling and
    perturbation; hill climbing (one climb at a time) and simulated annealing
    (one decision at a time) on integer score keys.
  - `random`, `level`: the calls into `rand` and `log`.
- `app/` is the command line program: configuration and corpus files,
  floating-point statistics, targets and scores, and logging.
- `tests/` exercises the library on concrete layouts.

## Collections

The score cache and the tabu list are `HashMap<u64, _>` and `HashSet<u64>`,
the lookup of keys by a character outside ASCII is a `HashMap<u32, Key>` keyed
by the character's code, and the row and column grouping of moves is a
`BTreeMap<usize, Vec<Pos>>`, all proved with vstd's specifications of those
types. vstd gives a hash table a key model only for `bool` and the integer
types, so a hash table keyed by another type proves nothing about its
contents; two small sets are therefore kept as `Vec`s, searched by verified
loops:

- the characters pinned in place (`RunOptions::pinned`, of `char`s);
- the families already seen by `SwapMoveBuilder::new` (of `SwapMoveStrategy`
  values, at most four).
