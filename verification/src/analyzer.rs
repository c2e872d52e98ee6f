//! Finding the keys of a layout that a corpus types.
use std::collections::HashMap;
use vstd::prelude::*;

use crate::layout::{Key, Layout};
use crate::ngrams::{Bigram, Trigram, Unigram};

verus! {

broadcast use vstd::std_specs::hash::group_hash_axioms;

/// The key that a lookup built from `keys` gives for `ch`: the last key
/// that types it.
#[verifier::opaque]
pub open spec fn last_key_for(keys: Seq<Key>, ch: char) -> Option<Key>
    decreases keys.len(),
{
    if keys.len() == 0 {
        None
    } else if keys.last().ch == ch {
        Some(keys.last())
    } else {
        last_key_for(keys.drop_last(), ch)
    }
}

proof fn lemma_last_key_push(keys: Seq<Key>, k: Key, c: char)
    ensures
        last_key_for(keys.push(k), c) == if k.ch == c {
            Some(k)
        } else {
            last_key_for(keys, c)
        },
{
    reveal(last_key_for);
    assert(keys.push(k).drop_last() =~= keys);
}

/// Characters below this code are looked up in a table.
pub const ASCII_LOOKUP_SIZE: usize = 128;

/// Finds the key that types a character: through a table for ASCII
/// characters, and a map by character code for the others.
pub struct KeyLookup {
    ascii: Vec<Option<Key>>,
    extra: HashMap<u32, Key>,
    keys: Ghost<Seq<Key>>,
}

impl View for KeyLookup {
    type V = Seq<Key>;

    closed spec fn view(&self) -> Seq<Key> {
        self.keys@
    }
}

/// What the lookup tables hold for the keys they were built from.
#[verifier::opaque]
pub open spec fn lookup_inv(ascii: Seq<Option<Key>>, extra: Map<u32, Key>, keys: Seq<Key>) -> bool {
    &&& ascii.len() == ASCII_LOOKUP_SIZE
    &&& forall|c: char|
        (c as u32) < 128 ==> ascii[c as u32 as int] == #[trigger] last_key_for(keys, c)
    &&& forall|c: char|
        (c as u32) >= 128 ==> (extra.contains_key(c as u32) <==> (#[trigger] last_key_for(
            keys,
            c,
        )).is_some()) && (extra.contains_key(c as u32) ==> last_key_for(keys, c) == Some(
            extra[c as u32],
        ))
}

proof fn lemma_char_code_injective(a: char, b: char)
    ensures
        (a as u32 == b as u32) ==> a == b,
{
}

proof fn lemma_ascii_table_push(old_ascii: Seq<Option<Key>>, keys: Seq<Key>, key: Key)
    requires
        old_ascii.len() == ASCII_LOOKUP_SIZE,
        forall|c: char|
            (c as u32) < 128 ==> old_ascii[c as u32 as int] == #[trigger] last_key_for(keys, c),
        (key.ch as u32) < 128,
    ensures
        forall|c: char|
            (c as u32) < 128 ==> old_ascii.update(key.ch as u32 as int, Some(key))[c as u32 as int]
                == #[trigger] last_key_for(keys.push(key), c),
{
    let ascii = old_ascii.update(key.ch as u32 as int, Some(key));
    assert forall|c: char| (c as u32) < 128 implies ascii[c as u32 as int] == #[trigger] last_key_for(
        keys.push(key),
        c,
    ) by {
        lemma_last_key_push(keys, key, c);
        if c == key.ch {
            assert(ascii[c as u32 as int] == Some(key));
        } else {
            lemma_char_code_injective(c, key.ch);
            assert(ascii[c as u32 as int] == old_ascii[c as u32 as int]);
        }
    }
}

proof fn lemma_inv_push_ascii(
    old_ascii: Seq<Option<Key>>,
    extra: Map<u32, Key>,
    keys: Seq<Key>,
    key: Key,
)
    requires
        lookup_inv(old_ascii, extra, keys),
        (key.ch as u32) < 128,
    ensures
        lookup_inv(old_ascii.update(key.ch as u32 as int, Some(key)), extra, keys.push(key)),
{
    reveal(lookup_inv);
    lemma_ascii_table_push(old_ascii, keys, key);
    assert forall|c: char|
        (c as u32) >= 128 implies (extra.contains_key(c as u32) <==> (#[trigger] last_key_for(
        keys.push(key),
        c,
    )).is_some()) && (extra.contains_key(c as u32) ==> last_key_for(keys.push(key), c) == Some(
        extra[c as u32],
    )) by {
        lemma_last_key_push(keys, key, c);
    }
}

fn insert_ascii(ascii: &mut Vec<Option<Key>>, extra: &HashMap<u32, Key>, key: Key, Ghost(keys): Ghost<Seq<Key>>)
    requires
        lookup_inv(old(ascii)@, extra@, keys),
        (key.ch as u32) < 128,
    ensures
        lookup_inv(final(ascii)@, extra@, keys.push(key)),
{
    proof {
        lemma_inv_push_ascii(ascii@, extra@, keys, key);
        reveal(lookup_inv);
    }
    let code = key.ch as u32;
    ascii.set(code as usize, Some(key));
}

/// Putting a key with a character of code 128 or more in the map keeps the
/// tables right for the keys with it added.
proof fn lemma_inv_push_extra(ascii: Seq<Option<Key>>, extra: Map<u32, Key>, keys: Seq<Key>, key: Key)
    requires
        lookup_inv(ascii, extra, keys),
        (key.ch as u32) >= 128,
    ensures
        lookup_inv(ascii, extra.insert(key.ch as u32, key), keys.push(key)),
{
    reveal(lookup_inv);
    let post = keys.push(key);
    let m = extra.insert(key.ch as u32, key);
    assert forall|c: char| (c as u32) < 128 implies ascii[c as u32 as int] == #[trigger] last_key_for(
        post,
        c,
    ) by {
        lemma_last_key_push(keys, key, c);
    }
    assert forall|c: char|
        (c as u32) >= 128 implies (m.contains_key(c as u32) <==> (#[trigger] last_key_for(
        post,
        c,
    )).is_some()) && (m.contains_key(c as u32) ==> last_key_for(post, c) == Some(m[c as u32])) by {
        lemma_last_key_push(keys, key, c);
        lemma_char_code_injective(c, key.ch);
    }
}

fn insert_extra(ascii: &Vec<Option<Key>>, extra: &mut HashMap<u32, Key>, key: Key, Ghost(keys): Ghost<Seq<Key>>)
    requires
        lookup_inv(ascii@, old(extra)@, keys),
        (key.ch as u32) >= 128,
    ensures
        lookup_inv(ascii@, final(extra)@, keys.push(key)),
{
    proof {
        lemma_inv_push_extra(ascii@, extra@, keys, key);
    }
    extra.insert(key.ch as u32, key);
}

impl KeyLookup {
    #[verifier::type_invariant]
    spec fn inv(self) -> bool {
        lookup_inv(self.ascii@, self.extra@, self.keys@)
    }

    /// A lookup over the keys; a character typed by several keys finds the last.
    pub fn from_keys(keys: &[Key]) -> (r: Self)
        ensures
            r@ == keys@,
    {
        let mut ascii: Vec<Option<Key>> = Vec::new();
        let mut c: usize = 0;
        while c < ASCII_LOOKUP_SIZE
            invariant
                c <= ASCII_LOOKUP_SIZE,
                ascii@.len() == c,
                forall|i: int| 0 <= i < c ==> ascii@[i] == None::<Key>,
            decreases ASCII_LOOKUP_SIZE - c,
        {
            ascii.push(None);
            c = c + 1;
        }
        let mut extra: HashMap<u32, Key> = HashMap::new();
        proof {
            reveal(lookup_inv);
            reveal(last_key_for);
            assert(keys@.take(0) =~= Seq::<Key>::empty());
            assert forall|c: char| (c as u32) < 128 implies ascii@[c as u32 as int]
                == #[trigger] last_key_for(keys@.take(0), c) by {
                assert(ascii@[c as u32 as int] == None::<Key>);
            }
        }
        let mut n: usize = 0;
        while n < keys.len()
            invariant
                n <= keys@.len(),
                lookup_inv(ascii@, extra@, keys@.take(n as int)),
            decreases keys@.len() - n,
        {
            let key = keys[n];
            proof {
                assert(keys@.take(n + 1) =~= keys@.take(n as int).push(key));
            }
            if (key.ch as u32) < 128 {
                insert_ascii(&mut ascii, &extra, key, Ghost(keys@.take(n as int)));
            } else {
                insert_extra(&ascii, &mut extra, key, Ghost(keys@.take(n as int)));
            }
            n = n + 1;
        }
        assert(keys@.take(n as int) =~= keys@);
        KeyLookup { ascii, extra, keys: Ghost(keys@) }
    }

    /// The last key that types `ch`.
    pub fn get(&self, ch: &char) -> (r: Option<Key>)
        ensures
            r == last_key_for(self@, *ch),
    {
        proof {
            use_type_invariant(self);
            reveal(lookup_inv);
        }
        let code = *ch as u32;
        if code < 128 {
            proof {
                assert(self.ascii@[code as int] == last_key_for(self.keys@, *ch));
            }
            if let Some(key) = self.ascii[code as usize] {
                return Some(key);
            }
            proof {
                assert(last_key_for(self.keys@, *ch).is_none());
            }
            None
        } else {
            match self.extra.get(&code) {
                Some(key) => Some(*key),
                None => None,
            }
        }
    }
}

/// The n-gram frequencies of a corpus, each with its count.
pub struct Corpus<C> {
    pub unigrams: Vec<(char, C)>,
    pub bigrams: Vec<((char, char), C)>,
    pub trigrams: Vec<((char, char, char), C)>,
}

/// The n-grams of a corpus that a layout can type, each with its count, in
/// corpus order.
pub struct Ngrams<C> {
    pub unigrams: Vec<(Unigram, C)>,
    pub bigrams: Vec<(Bigram, C)>,
    pub trigrams: Vec<(Trigram, C)>,
}

pub open spec fn unigram_of<C>(keys: Seq<Key>, e: (char, C)) -> Option<(Unigram, C)> {
    match last_key_for(keys, e.0) {
        Some(k) => Some((Unigram { key: k }, e.1)),
        None => None,
    }
}

pub open spec fn bigram_of<C>(keys: Seq<Key>, e: ((char, char), C)) -> Option<(Bigram, C)> {
    match (last_key_for(keys, e.0.0), last_key_for(keys, e.0.1)) {
        (Some(k1), Some(k2)) => Some((Bigram { key1: k1, key2: k2 }, e.1)),
        _ => None,
    }
}

pub open spec fn trigram_of<C>(keys: Seq<Key>, e: ((char, char, char), C)) -> Option<
    (Trigram, C),
> {
    match (last_key_for(keys, e.0.0), last_key_for(keys, e.0.1), last_key_for(keys, e.0.2)) {
        (Some(k1), Some(k2), Some(k3)) => Some((Trigram { key1: k1, key2: k2, key3: k3 }, e.1)),
        _ => None,
    }
}

/// The corpus unigrams whose character the keys type, each with its key.
#[verifier::opaque]
pub open spec fn found_unigrams<C>(keys: Seq<Key>, corpus: Seq<(char, C)>) -> Seq<(Unigram, C)> {
    corpus.filter_map(|e: (char, C)| unigram_of(keys, e))
}

/// The corpus bigrams whose characters the keys type, each with its keys.
#[verifier::opaque]
pub open spec fn found_bigrams<C>(keys: Seq<Key>, corpus: Seq<((char, char), C)>) -> Seq<
    (Bigram, C),
> {
    corpus.filter_map(|e: ((char, char), C)| bigram_of(keys, e))
}

/// The corpus trigrams whose characters the keys type, each with its keys.
#[verifier::opaque]
pub open spec fn found_trigrams<C>(keys: Seq<Key>, corpus: Seq<((char, char, char), C)>) -> Seq<
    (Trigram, C),
> {
    corpus.filter_map(|e: ((char, char, char), C)| trigram_of(keys, e))
}

/// The key a lookup gives for a character types that character and is one
/// of the keys; there is none exactly when no key types it.
pub proof fn lemma_last_key_types(keys: Seq<Key>, c: char)
    ensures
        last_key_for(keys, c) matches Some(k) ==> k.ch == c && keys.contains(k),
        last_key_for(keys, c) is None <==> forall|i: int| 0 <= i < keys.len() ==> keys[i].ch != c,
    decreases keys.len(),
{
    reveal(last_key_for);
    if keys.len() > 0 {
        let prev = keys.drop_last();
        lemma_last_key_types(prev, c);
        if let Some(k) = last_key_for(prev, c) {
            if keys.last().ch != c {
                let i = choose|i: int| 0 <= i < prev.len() && prev[i] == k;
                assert(keys[i] == k);
            }
        }
        assert(keys[keys.len() - 1] == keys.last());
        if last_key_for(keys, c) is None {
            assert forall|i: int| 0 <= i < keys.len() implies keys[i].ch != c by {
                if i < prev.len() {
                    assert(prev[i] == keys[i]);
                }
            }
        }
        if forall|i: int| 0 <= i < keys.len() ==> keys[i].ch != c {
            assert forall|i: int| 0 <= i < prev.len() implies prev[i].ch != c by {
                assert(prev[i] == keys[i]);
            }
        }
    }
}

/// Whether `found` reads the corpus trigram `e` on the keys: its keys are keys
/// of the layout that type the entry's characters, in order, and it carries
/// the entry's count.
#[verifier::opaque]
pub open spec fn trigram_reads<C>(keys: Seq<Key>, e: ((char, char, char), C), found: (Trigram, C)) -> bool {
    &&& found.0.key1.ch == e.0.0 && found.0.key2.ch == e.0.1 && found.0.key3.ch == e.0.2
    &&& keys.contains(found.0.key1) && keys.contains(found.0.key2) && keys.contains(found.0.key3)
    &&& found.1 == e.1
}

/// Whether the keys type every character of the corpus trigram `e`.
#[verifier::opaque]
pub open spec fn trigram_typed<C>(keys: Seq<Key>, e: ((char, char, char), C)) -> bool {
    (exists|t: int| 0 <= t < keys.len() && keys[t].ch == e.0.0)
    && (exists|t: int| 0 <= t < keys.len() && keys[t].ch == e.0.1)
    && (exists|t: int| 0 <= t < keys.len() && keys[t].ch == e.0.2)
}

proof fn lemma_found_trigrams_step<C>(keys: Seq<Key>, corpus: Seq<((char, char, char), C)>)
    requires
        corpus.len() > 0,
    ensures
        found_trigrams(keys, corpus) == match trigram_of(keys, corpus.last()) {
            Some(x) => found_trigrams(keys, corpus.drop_last()) + seq![x],
            None => found_trigrams(keys, corpus.drop_last()),
        },
{
    reveal(found_trigrams);
}

proof fn lemma_trigram_of_reads<C>(keys: Seq<Key>, e: ((char, char, char), C))
    ensures
        trigram_of(keys, e) matches Some(x) ==> trigram_reads(keys, e, x),
        trigram_typed(keys, e) ==> trigram_of(keys, e) is Some,
{
    reveal(trigram_reads);
    reveal(trigram_typed);
    lemma_last_key_types(keys, e.0.0);
    lemma_last_key_types(keys, e.0.1);
    lemma_last_key_types(keys, e.0.2);
}

/// Where in the corpus the `j`-th trigram found comes from.
pub open spec fn found_trigram_source<C>(keys: Seq<Key>, corpus: Seq<((char, char, char), C)>, j: int) -> int
    decreases corpus.len(),
{
    if corpus.len() == 0 {
        0
    } else if j < found_trigrams(keys, corpus.drop_last()).len() {
        found_trigram_source(keys, corpus.drop_last(), j)
    } else {
        corpus.len() - 1
    }
}

proof fn lemma_found_trigram_at<C>(keys: Seq<Key>, corpus: Seq<((char, char, char), C)>, j: int)
    requires
        0 <= j < found_trigrams(keys, corpus).len(),
    ensures
        0 <= found_trigram_source(keys, corpus, j),
        found_trigram_source(keys, corpus, j) < corpus.len(),
        trigram_reads(keys, corpus[found_trigram_source(keys, corpus, j)], found_trigrams(keys, corpus)[j]),
    decreases corpus.len(),
{
    if corpus.len() == 0 {
        reveal(found_trigrams);
    } else {
        let prev = corpus.drop_last();
        let e = corpus.last();
        lemma_found_trigrams_step(keys, corpus);
        lemma_trigram_of_reads(keys, e);
        let fp = found_trigrams(keys, prev);
        let f = found_trigrams(keys, corpus);
        if j < fp.len() {
            lemma_found_trigram_at(keys, prev, j);
            assert(f[j] == fp[j]);
            let i = found_trigram_source(keys, prev, j);
            assert(found_trigram_source(keys, corpus, j) == i);
            assert(corpus[i] == prev[i]);
        } else {
            assert(found_trigram_source(keys, corpus, j) == corpus.len() - 1);
            assert(f[j] == trigram_of(keys, e)->0);
            assert(corpus[corpus.len() - 1] == e);
        }
    }
}

/// Every trigram found for a corpus reads the corpus trigram it comes from, and
/// they come in corpus order; every corpus trigram whose characters the keys
/// all type is found.
pub proof fn lemma_found_trigrams<C>(keys: Seq<Key>, corpus: Seq<((char, char, char), C)>)
    ensures
        found_trigrams(keys, corpus).len() <= corpus.len(),
        forall|j: int|
            #![trigger found_trigrams(keys, corpus)[j]]
            0 <= j < found_trigrams(keys, corpus).len() ==> trigram_reads(
                keys,
                corpus[found_trigram_source(keys, corpus, j)],
                found_trigrams(keys, corpus)[j],
            ),
        forall|j: int|
            0 <= j < found_trigrams(keys, corpus).len() ==> 0 <= #[trigger] found_trigram_source(
                keys,
                corpus,
                j,
            ) && found_trigram_source(keys, corpus, j) < corpus.len(),
        forall|j1: int, j2: int|
            0 <= j1 < j2 < found_trigrams(keys, corpus).len() ==> #[trigger] found_trigram_source(
                keys,
                corpus,
                j1,
            ) < #[trigger] found_trigram_source(keys, corpus, j2),
        forall|i: int|
            #![trigger corpus[i]]
            0 <= i < corpus.len() && trigram_typed(keys, corpus[i]) ==> exists|j: int|
                0 <= j < found_trigrams(keys, corpus).len() && #[trigger] trigram_reads(
                    keys,
                    corpus[i],
                    found_trigrams(keys, corpus)[j],
                ),
    decreases corpus.len(),
{
    if corpus.len() > 0 {
        let prev = corpus.drop_last();
        let e = corpus.last();
        lemma_found_trigrams(keys, prev);
        lemma_found_trigrams_step(keys, corpus);
        lemma_trigram_of_reads(keys, e);
        let fp = found_trigrams(keys, prev);
        let f = found_trigrams(keys, corpus);
        assert forall|j1: int, j2: int|
            0 <= j1 < j2 < f.len() implies #[trigger] found_trigram_source(keys, corpus, j1)
            < #[trigger] found_trigram_source(keys, corpus, j2) by {
            if j2 < fp.len() {
                assert(fp[j1] == f[j1] && fp[j2] == f[j2]);
            } else if j1 < fp.len() {
                assert(fp[j1] == f[j1]);
            }
        }
        assert forall|i: int| #![trigger corpus[i]] 0 <= i < corpus.len() && trigram_typed(keys, corpus[i])
            implies exists|j: int| 0 <= j < f.len() && #[trigger] trigram_reads(keys, corpus[i], f[j]) by {
            if i < prev.len() {
                assert(prev[i] == corpus[i]);
                let j = choose|j: int| 0 <= j < fp.len() && #[trigger] trigram_reads(keys, prev[i], fp[j]);
                assert(f[j] == fp[j]);
                assert(trigram_reads(keys, corpus[i], f[j]));
            } else {
                assert(corpus[i] == e);
                assert(f[fp.len() as int] == trigram_of(keys, e)->0);
                assert(trigram_reads(keys, corpus[i], f[fp.len() as int]));
            }
        }
    } else {
        reveal(found_trigrams);
        assert(found_trigrams(keys, corpus) =~= Seq::<(Trigram, C)>::empty());
    }
    assert forall|j: int|
        #![trigger found_trigrams(keys, corpus)[j]]
        0 <= j < found_trigrams(keys, corpus).len() implies trigram_reads(
            keys,
            corpus[found_trigram_source(keys, corpus, j)],
            found_trigrams(keys, corpus)[j],
        ) by {
        lemma_found_trigram_at(keys, corpus, j);
    }
    assert forall|j: int|
        0 <= j < found_trigrams(keys, corpus).len() implies 0 <= #[trigger] found_trigram_source(
            keys,
            corpus,
            j,
        ) && found_trigram_source(keys, corpus, j) < corpus.len() by {
        lemma_found_trigram_at(keys, corpus, j);
    }
}

/// Whether `found` reads the corpus bigram `e` on the keys: its keys are keys
/// of the layout that type the entry's characters, in order, and it carries
/// the entry's count.
#[verifier::opaque]
pub open spec fn bigram_reads<C>(keys: Seq<Key>, e: ((char, char), C), found: (Bigram, C)) -> bool {
    &&& found.0.key1.ch == e.0.0 && found.0.key2.ch == e.0.1
    &&& keys.contains(found.0.key1) && keys.contains(found.0.key2)
    &&& found.1 == e.1
}

/// Whether the keys type every character of the corpus bigram `e`.
#[verifier::opaque]
pub open spec fn bigram_typed<C>(keys: Seq<Key>, e: ((char, char), C)) -> bool {
    (exists|t: int| 0 <= t < keys.len() && keys[t].ch == e.0.0)
    && (exists|t: int| 0 <= t < keys.len() && keys[t].ch == e.0.1)
}

proof fn lemma_found_bigrams_step<C>(keys: Seq<Key>, corpus: Seq<((char, char), C)>)
    requires
        corpus.len() > 0,
    ensures
        found_bigrams(keys, corpus) == match bigram_of(keys, corpus.last()) {
            Some(x) => found_bigrams(keys, corpus.drop_last()) + seq![x],
            None => found_bigrams(keys, corpus.drop_last()),
        },
{
    reveal(found_bigrams);
}

proof fn lemma_bigram_of_reads<C>(keys: Seq<Key>, e: ((char, char), C))
    ensures
        bigram_of(keys, e) matches Some(x) ==> bigram_reads(keys, e, x),
        bigram_typed(keys, e) ==> bigram_of(keys, e) is Some,
{
    reveal(bigram_reads);
    reveal(bigram_typed);
    lemma_last_key_types(keys, e.0.0);
    lemma_last_key_types(keys, e.0.1);
}

/// Where in the corpus the `j`-th bigram found comes from.
pub open spec fn found_bigram_source<C>(keys: Seq<Key>, corpus: Seq<((char, char), C)>, j: int) -> int
    decreases corpus.len(),
{
    if corpus.len() == 0 {
        0
    } else if j < found_bigrams(keys, corpus.drop_last()).len() {
        found_bigram_source(keys, corpus.drop_last(), j)
    } else {
        corpus.len() - 1
    }
}

proof fn lemma_found_bigram_at<C>(keys: Seq<Key>, corpus: Seq<((char, char), C)>, j: int)
    requires
        0 <= j < found_bigrams(keys, corpus).len(),
    ensures
        0 <= found_bigram_source(keys, corpus, j),
        found_bigram_source(keys, corpus, j) < corpus.len(),
        bigram_reads(keys, corpus[found_bigram_source(keys, corpus, j)], found_bigrams(keys, corpus)[j]),
    decreases corpus.len(),
{
    if corpus.len() == 0 {
        reveal(found_bigrams);
    } else {
        let prev = corpus.drop_last();
        let e = corpus.last();
        lemma_found_bigrams_step(keys, corpus);
        lemma_bigram_of_reads(keys, e);
        let fp = found_bigrams(keys, prev);
        let f = found_bigrams(keys, corpus);
        if j < fp.len() {
            lemma_found_bigram_at(keys, prev, j);
            assert(f[j] == fp[j]);
            let i = found_bigram_source(keys, prev, j);
            assert(found_bigram_source(keys, corpus, j) == i);
            assert(corpus[i] == prev[i]);
        } else {
            assert(found_bigram_source(keys, corpus, j) == corpus.len() - 1);
            assert(f[j] == bigram_of(keys, e)->0);
            assert(corpus[corpus.len() - 1] == e);
        }
    }
}

/// Every bigram found for a corpus reads the corpus bigram it comes from, and
/// they come in corpus order; every corpus bigram whose characters the keys
/// all type is found.
pub proof fn lemma_found_bigrams<C>(keys: Seq<Key>, corpus: Seq<((char, char), C)>)
    ensures
        found_bigrams(keys, corpus).len() <= corpus.len(),
        forall|j: int|
            #![trigger found_bigrams(keys, corpus)[j]]
            0 <= j < found_bigrams(keys, corpus).len() ==> bigram_reads(
                keys,
                corpus[found_bigram_source(keys, corpus, j)],
                found_bigrams(keys, corpus)[j],
            ),
        forall|j: int|
            0 <= j < found_bigrams(keys, corpus).len() ==> 0 <= #[trigger] found_bigram_source(
                keys,
                corpus,
                j,
            ) && found_bigram_source(keys, corpus, j) < corpus.len(),
        forall|j1: int, j2: int|
            0 <= j1 < j2 < found_bigrams(keys, corpus).len() ==> #[trigger] found_bigram_source(
                keys,
                corpus,
                j1,
            ) < #[trigger] found_bigram_source(keys, corpus, j2),
        forall|i: int|
            #![trigger corpus[i]]
            0 <= i < corpus.len() && bigram_typed(keys, corpus[i]) ==> exists|j: int|
                0 <= j < found_bigrams(keys, corpus).len() && #[trigger] bigram_reads(
                    keys,
                    corpus[i],
                    found_bigrams(keys, corpus)[j],
                ),
    decreases corpus.len(),
{
    if corpus.len() > 0 {
        let prev = corpus.drop_last();
        let e = corpus.last();
        lemma_found_bigrams(keys, prev);
        lemma_found_bigrams_step(keys, corpus);
        lemma_bigram_of_reads(keys, e);
        let fp = found_bigrams(keys, prev);
        let f = found_bigrams(keys, corpus);
        assert forall|j1: int, j2: int|
            0 <= j1 < j2 < f.len() implies #[trigger] found_bigram_source(keys, corpus, j1)
            < #[trigger] found_bigram_source(keys, corpus, j2) by {
            if j2 < fp.len() {
                assert(fp[j1] == f[j1] && fp[j2] == f[j2]);
            } else if j1 < fp.len() {
                assert(fp[j1] == f[j1]);
            }
        }
        assert forall|i: int| #![trigger corpus[i]] 0 <= i < corpus.len() && bigram_typed(keys, corpus[i])
            implies exists|j: int| 0 <= j < f.len() && #[trigger] bigram_reads(keys, corpus[i], f[j]) by {
            if i < prev.len() {
                assert(prev[i] == corpus[i]);
                let j = choose|j: int| 0 <= j < fp.len() && #[trigger] bigram_reads(keys, prev[i], fp[j]);
                assert(f[j] == fp[j]);
                assert(bigram_reads(keys, corpus[i], f[j]));
            } else {
                assert(corpus[i] == e);
                assert(f[fp.len() as int] == bigram_of(keys, e)->0);
                assert(bigram_reads(keys, corpus[i], f[fp.len() as int]));
            }
        }
    } else {
        reveal(found_bigrams);
        assert(found_bigrams(keys, corpus) =~= Seq::<(Bigram, C)>::empty());
    }
    assert forall|j: int|
        #![trigger found_bigrams(keys, corpus)[j]]
        0 <= j < found_bigrams(keys, corpus).len() implies bigram_reads(
            keys,
            corpus[found_bigram_source(keys, corpus, j)],
            found_bigrams(keys, corpus)[j],
        ) by {
        lemma_found_bigram_at(keys, corpus, j);
    }
    assert forall|j: int|
        0 <= j < found_bigrams(keys, corpus).len() implies 0 <= #[trigger] found_bigram_source(
            keys,
            corpus,
            j,
        ) && found_bigram_source(keys, corpus, j) < corpus.len() by {
        lemma_found_bigram_at(keys, corpus, j);
    }
}

/// Whether `found` reads the corpus unigram `e` on the keys: its keys are keys
/// of the layout that type the entry's characters, in order, and it carries
/// the entry's count.
#[verifier::opaque]
pub open spec fn unigram_reads<C>(keys: Seq<Key>, e: (char, C), found: (Unigram, C)) -> bool {
    &&& found.0.key.ch == e.0
    &&& keys.contains(found.0.key)
    &&& found.1 == e.1
}

/// Whether the keys type every character of the corpus unigram `e`.
#[verifier::opaque]
pub open spec fn unigram_typed<C>(keys: Seq<Key>, e: (char, C)) -> bool {
    (exists|t: int| 0 <= t < keys.len() && keys[t].ch == e.0)
}

proof fn lemma_found_unigrams_step<C>(keys: Seq<Key>, corpus: Seq<(char, C)>)
    requires
        corpus.len() > 0,
    ensures
        found_unigrams(keys, corpus) == match unigram_of(keys, corpus.last()) {
            Some(x) => found_unigrams(keys, corpus.drop_last()) + seq![x],
            None => found_unigrams(keys, corpus.drop_last()),
        },
{
    reveal(found_unigrams);
}

proof fn lemma_unigram_of_reads<C>(keys: Seq<Key>, e: (char, C))
    ensures
        unigram_of(keys, e) matches Some(x) ==> unigram_reads(keys, e, x),
        unigram_typed(keys, e) ==> unigram_of(keys, e) is Some,
{
    reveal(unigram_reads);
    reveal(unigram_typed);
    lemma_last_key_types(keys, e.0);
}

/// Where in the corpus the `j`-th unigram found comes from.
pub open spec fn found_unigram_source<C>(keys: Seq<Key>, corpus: Seq<(char, C)>, j: int) -> int
    decreases corpus.len(),
{
    if corpus.len() == 0 {
        0
    } else if j < found_unigrams(keys, corpus.drop_last()).len() {
        found_unigram_source(keys, corpus.drop_last(), j)
    } else {
        corpus.len() - 1
    }
}

proof fn lemma_found_unigram_at<C>(keys: Seq<Key>, corpus: Seq<(char, C)>, j: int)
    requires
        0 <= j < found_unigrams(keys, corpus).len(),
    ensures
        0 <= found_unigram_source(keys, corpus, j),
        found_unigram_source(keys, corpus, j) < corpus.len(),
        unigram_reads(keys, corpus[found_unigram_source(keys, corpus, j)], found_unigrams(keys, corpus)[j]),
    decreases corpus.len(),
{
    if corpus.len() == 0 {
        reveal(found_unigrams);
    } else {
        let prev = corpus.drop_last();
        let e = corpus.last();
        lemma_found_unigrams_step(keys, corpus);
        lemma_unigram_of_reads(keys, e);
        let fp = found_unigrams(keys, prev);
        let f = found_unigrams(keys, corpus);
        if j < fp.len() {
            lemma_found_unigram_at(keys, prev, j);
            assert(f[j] == fp[j]);
            let i = found_unigram_source(keys, prev, j);
            assert(found_unigram_source(keys, corpus, j) == i);
            assert(corpus[i] == prev[i]);
        } else {
            assert(found_unigram_source(keys, corpus, j) == corpus.len() - 1);
            assert(f[j] == unigram_of(keys, e)->0);
            assert(corpus[corpus.len() - 1] == e);
        }
    }
}

/// Every unigram found for a corpus reads the corpus unigram it comes from, and
/// they come in corpus order; every corpus unigram whose characters the keys
/// all type is found.
pub proof fn lemma_found_unigrams<C>(keys: Seq<Key>, corpus: Seq<(char, C)>)
    ensures
        found_unigrams(keys, corpus).len() <= corpus.len(),
        forall|j: int|
            #![trigger found_unigrams(keys, corpus)[j]]
            0 <= j < found_unigrams(keys, corpus).len() ==> unigram_reads(
                keys,
                corpus[found_unigram_source(keys, corpus, j)],
                found_unigrams(keys, corpus)[j],
            ),
        forall|j: int|
            0 <= j < found_unigrams(keys, corpus).len() ==> 0 <= #[trigger] found_unigram_source(
                keys,
                corpus,
                j,
            ) && found_unigram_source(keys, corpus, j) < corpus.len(),
        forall|j1: int, j2: int|
            0 <= j1 < j2 < found_unigrams(keys, corpus).len() ==> #[trigger] found_unigram_source(
                keys,
                corpus,
                j1,
            ) < #[trigger] found_unigram_source(keys, corpus, j2),
        forall|i: int|
            #![trigger corpus[i]]
            0 <= i < corpus.len() && unigram_typed(keys, corpus[i]) ==> exists|j: int|
                0 <= j < found_unigrams(keys, corpus).len() && #[trigger] unigram_reads(
                    keys,
                    corpus[i],
                    found_unigrams(keys, corpus)[j],
                ),
    decreases corpus.len(),
{
    if corpus.len() > 0 {
        let prev = corpus.drop_last();
        let e = corpus.last();
        lemma_found_unigrams(keys, prev);
        lemma_found_unigrams_step(keys, corpus);
        lemma_unigram_of_reads(keys, e);
        let fp = found_unigrams(keys, prev);
        let f = found_unigrams(keys, corpus);
        assert forall|j1: int, j2: int|
            0 <= j1 < j2 < f.len() implies #[trigger] found_unigram_source(keys, corpus, j1)
            < #[trigger] found_unigram_source(keys, corpus, j2) by {
            if j2 < fp.len() {
                assert(fp[j1] == f[j1] && fp[j2] == f[j2]);
            } else if j1 < fp.len() {
                assert(fp[j1] == f[j1]);
            }
        }
        assert forall|i: int| #![trigger corpus[i]] 0 <= i < corpus.len() && unigram_typed(keys, corpus[i])
            implies exists|j: int| 0 <= j < f.len() && #[trigger] unigram_reads(keys, corpus[i], f[j]) by {
            if i < prev.len() {
                assert(prev[i] == corpus[i]);
                let j = choose|j: int| 0 <= j < fp.len() && #[trigger] unigram_reads(keys, prev[i], fp[j]);
                assert(f[j] == fp[j]);
                assert(unigram_reads(keys, corpus[i], f[j]));
            } else {
                assert(corpus[i] == e);
                assert(f[fp.len() as int] == unigram_of(keys, e)->0);
                assert(unigram_reads(keys, corpus[i], f[fp.len() as int]));
            }
        }
    } else {
        reveal(found_unigrams);
        assert(found_unigrams(keys, corpus) =~= Seq::<(Unigram, C)>::empty());
    }
    assert forall|j: int|
        #![trigger found_unigrams(keys, corpus)[j]]
        0 <= j < found_unigrams(keys, corpus).len() implies unigram_reads(
            keys,
            corpus[found_unigram_source(keys, corpus, j)],
            found_unigrams(keys, corpus)[j],
        ) by {
        lemma_found_unigram_at(keys, corpus, j);
    }
    assert forall|j: int|
        0 <= j < found_unigrams(keys, corpus).len() implies 0 <= #[trigger] found_unigram_source(
            keys,
            corpus,
            j,
        ) && found_unigram_source(keys, corpus, j) < corpus.len() by {
        lemma_found_unigram_at(keys, corpus, j);
    }
}

/// Reads a corpus against layouts.
pub struct Analyzer<C> {
    corpus: Corpus<C>,
}

impl<C: Copy> Analyzer<C> {
    pub fn new(corpus: Corpus<C>) -> (r: Self)
        ensures
            r.corpus() == corpus,
    {
        Analyzer { corpus }
    }

    pub closed spec fn corpus(self) -> Corpus<C> {
        self.corpus
    }

    /// The corpus n-grams whose characters the layout types, with their keys
    /// and counts, in corpus order; n-grams with a character the layout lacks
    /// are left out.
    pub fn analyze(&self, layout: &Layout) -> (r: Ngrams<C>)
        ensures
            r.unigrams@ == found_unigrams(layout@, self.corpus().unigrams@),
            r.bigrams@ == found_bigrams(layout@, self.corpus().bigrams@),
            r.trigrams@ == found_trigrams(layout@, self.corpus().trigrams@),
    {
        let lookup = KeyLookup::from_keys(layout.keys());
        let ghost keys = layout@;

        let mut unigrams: Vec<(Unigram, C)> = Vec::new();
        let src = &self.corpus.unigrams;
        let mut i: usize = 0;
        while i < src.len()
            invariant
                lookup@ == keys,
                i <= src@.len(),
                unigrams@ == src@.take(i as int).filter_map(|e: (char, C)| unigram_of(keys, e)),
            decreases src@.len() - i,
        {
            let (ch, count) = src[i];
            proof {
                assert(src@.take(i + 1).drop_last() =~= src@.take(i as int));
            }
            if let Some(key) = lookup.get(&ch) {
                unigrams.push((Unigram::new(&key), count));
            }
            i = i + 1;
        }
        assert(src@.take(i as int) =~= src@);

        let mut bigrams: Vec<(Bigram, C)> = Vec::new();
        let src = &self.corpus.bigrams;
        let mut i: usize = 0;
        while i < src.len()
            invariant
                lookup@ == keys,
                i <= src@.len(),
                bigrams@ == src@.take(i as int).filter_map(
                    |e: ((char, char), C)| bigram_of(keys, e),
                ),
            decreases src@.len() - i,
        {
            let ((c1, c2), count) = src[i];
            proof {
                assert(src@.take(i + 1).drop_last() =~= src@.take(i as int));
            }
            match (lookup.get(&c1), lookup.get(&c2)) {
                (Some(k1), Some(k2)) => {
                    bigrams.push((Bigram::new(&k1, &k2), count));
                },
                _ => {},
            }
            i = i + 1;
        }
        assert(src@.take(i as int) =~= src@);

        let mut trigrams: Vec<(Trigram, C)> = Vec::new();
        let src = &self.corpus.trigrams;
        let mut i: usize = 0;
        while i < src.len()
            invariant
                lookup@ == keys,
                i <= src@.len(),
                trigrams@ == src@.take(i as int).filter_map(
                    |e: ((char, char, char), C)| trigram_of(keys, e),
                ),
            decreases src@.len() - i,
        {
            let ((c1, c2, c3), count) = src[i];
            proof {
                assert(src@.take(i + 1).drop_last() =~= src@.take(i as int));
            }
            match (lookup.get(&c1), lookup.get(&c2), lookup.get(&c3)) {
                (Some(k1), Some(k2), Some(k3)) => {
                    trigrams.push((Trigram::new(&k1, &k2, &k3), count));
                },
                _ => {},
            }
            i = i + 1;
        }
        assert(src@.take(i as int) =~= src@);
        proof {
            reveal(found_unigrams);
            reveal(found_bigrams);
            reveal(found_trigrams);
        }
        assert(unigrams@ == found_unigrams(keys, self.corpus.unigrams@));
        assert(bigrams@ == found_bigrams(keys, self.corpus.bigrams@));
        assert(trigrams@ == found_trigrams(keys, self.corpus.trigrams@));

        Ngrams { unigrams, bigrams, trigrams }
    }
}

/// The character sequences of one, two and three characters in a word, each
/// in the order it starts in the word.
pub struct WordNgrams {
    pub unigrams: Vec<char>,
    pub bigrams: Vec<(char, char)>,
    pub trigrams: Vec<(char, char, char)>,
}

/// Every character of `word`, every pair of neighbours and every run of three,
/// in the order they start.
pub fn word_ngrams(word: &[char]) -> (r: WordNgrams)
    ensures
        r.unigrams@ == word@,
        r.bigrams@.len() == if word@.len() >= 2 { word@.len() - 1 } else { 0 },
        forall|i: int| 0 <= i < r.bigrams@.len() ==> #[trigger] r.bigrams@[i] == (word@[i], word@[i + 1]),
        r.trigrams@.len() == if word@.len() >= 3 { word@.len() - 2 } else { 0 },
        forall|i: int|
            0 <= i < r.trigrams@.len() ==> #[trigger] r.trigrams@[i] == (word@[i], word@[i + 1], word@[i + 2]),
{
    let mut unigrams: Vec<char> = Vec::new();
    let mut bigrams: Vec<(char, char)> = Vec::new();
    let mut trigrams: Vec<(char, char, char)> = Vec::new();
    let n = word.len();
    let mut i: usize = 0;
    while i < n
        invariant
            n == word@.len(),
            i <= n,
            unigrams@ == word@.take(i as int),
            bigrams@.len() == if i >= 2 { i - 1 } else { 0 },
            forall|j: int| 0 <= j < bigrams@.len() ==> #[trigger] bigrams@[j] == (word@[j], word@[j + 1]),
            trigrams@.len() == if i >= 3 { i - 2 } else { 0 },
            forall|j: int|
                0 <= j < trigrams@.len() ==> #[trigger] trigrams@[j] == (word@[j], word@[j + 1], word@[j + 2]),
        decreases n - i,
    {
        unigrams.push(word[i]);
        if i >= 1 {
            bigrams.push((word[i - 1], word[i]));
        }
        if i >= 2 {
            trigrams.push((word[i - 2], word[i - 1], word[i]));
        }
        proof {
            assert(word@.take(i + 1) =~= word@.take(i as int).push(word@[i as int]));
        }
        i = i + 1;
    }
    assert(word@.take(n as int) =~= word@);
    WordNgrams { unigrams, bigrams, trigrams }
}

} // verus!
