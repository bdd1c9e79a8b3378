//! Counting words, for summaries.

use vstd::prelude::*;

use crate::table::{is_sorted, keys, law_lookup_put, law_put_sorted, lookup, put, Table};
use crate::text::{decimal, decimal_text, join, join_texts, same, text_lt, views};

verus! {

/// The distinct words among the first `n`, in order.
pub open spec fn word_set(words: Seq<Seq<char>>, n: int) -> Seq<(Seq<char>, ())>
    decreases n,
{
    if n <= 0 {
        Seq::<(Seq<char>, ())>::empty()
    } else {
        put(word_set(words, n - 1), words[n - 1], ())
    }
}

/// How often `w` is among the first `n` words.
pub open spec fn count_in(words: Seq<Seq<char>>, w: Seq<char>, n: int) -> nat
    decreases n,
{
    if n <= 0 {
        0
    } else {
        count_in(words, w, n - 1) + if words[n - 1] == w { 1nat } else { 0nat }
    }
}

/// `count word` for every distinct word, in order.
pub open spec fn tally(words: Seq<Seq<char>>) -> Seq<Seq<char>> {
    let ks = keys(word_set(words, words.len() as int));
    Seq::new(
        ks.len(),
        |i: int| decimal(count_in(words, ks[i], words.len() as int)) + " "@ + ks[i],
    )
}

/// `count word, count word, ...`
pub open spec fn tally_text(words: Seq<Seq<char>>) -> Seq<char> {
    join(tally(words), ", "@)
}

fn count_of(words: &[String], w: &str) -> (r: usize)
    ensures
        r == count_in(views(words@), w@, words@.len() as int),
{
    let ghost ws = views(words@);
    let mut r: usize = 0;
    let mut i: usize = 0;
    while i < words.len()
        invariant
            i <= words@.len(),
            r <= i,
            ws == views(words@),
            r == count_in(ws, w@, i as int),
        decreases words.len() - i,
    {
        assert(ws[i as int] == words@[i as int]@);
        if same(words[i].as_str(), w) {
            r += 1;
        }
        i += 1;
    }
    r
}

/// `count word, count word, ...`
pub fn tally_of(words: &[String]) -> (r: String)
    ensures
        r@ == tally_text(views(words@)),
{
    let ghost ws = views(words@);
    let mut set: Table<()> = Table::new();
    let mut i: usize = 0;
    while i < words.len()
        invariant
            i <= words@.len(),
            ws == views(words@),
            set@ == word_set(ws, i as int),
        decreases words.len() - i,
    {
        assert(ws[i as int] == words@[i as int]@);
        set.insert(words[i].clone(), ());
        i += 1;
    }
    let ks = set.to_keys();
    let ghost kv = views(ks@);
    let mut parts: Vec<String> = Vec::new();
    let mut k: usize = 0;
    assert(views(parts@) =~= tally(ws).take(0));
    while k < ks.len()
        invariant
            k <= ks@.len(),
            ws == views(words@),
            kv == views(ks@),
            kv == keys(word_set(ws, ws.len() as int)),
            views(parts@) == tally(ws).take(k as int),
        decreases ks.len() - k,
    {
        assert(kv[k as int] == ks@[k as int]@);
        let mut part = decimal_text(count_of(words, ks[k].as_str()) as u128);
        part.append(" ");
        part.append(ks[k].as_str());
        assert(part@ == tally(ws)[k as int]);
        let ghost was = views(parts@);
        parts.push(part);
        assert(views(parts@) =~= was.push(tally(ws)[k as int]));
        assert(tally(ws).take(k + 1) =~= tally(ws).take(k as int).push(tally(ws)[k as int]));
        k += 1;
    }
    assert(tally(ws).take(k as int) =~= tally(ws));
    join_texts(&parts, ", ")
}

// ---------------------------------------------------------------------
// Laws
// ---------------------------------------------------------------------

proof fn lemma_word_set(words: Seq<Seq<char>>, n: int)
    requires
        0 <= n <= words.len(),
    ensures
        is_sorted(word_set(words, n)),
        forall|w: Seq<char>| #[trigger]
            lookup(word_set(words, n), w) is Some <==> words.take(n).contains(w),
    decreases n,
{
    if n > 0 {
        lemma_word_set(words, n - 1);
        law_put_sorted(word_set(words, n - 1), words[n - 1], ());
        assert forall|w: Seq<char>| #[trigger]
            lookup(word_set(words, n), w) is Some <==> words.take(n).contains(w) by {
            law_lookup_put(word_set(words, n - 1), words[n - 1], (), w);
            assert(words.take(n) =~= words.take(n - 1) + seq![words[n - 1]]);
            crate::lockfile::lemma_contains_sum(words.take(n - 1), seq![words[n - 1]], w);
            assert(seq![words[n - 1]][0] == words[n - 1]);
        }
    }
}

/// How often a word is among others.
pub open spec fn occurrences(words: Seq<Seq<char>>, w: Seq<char>) -> nat {
    words.filter(|x: Seq<char>| x == w).len()
}

proof fn lemma_count_in(words: Seq<Seq<char>>, w: Seq<char>, n: int)
    requires
        0 <= n <= words.len(),
    ensures
        count_in(words, w, n) == occurrences(words.take(n), w),
    decreases n,
{
    reveal(Seq::filter);
    if n > 0 {
        lemma_count_in(words, w, n - 1);
        assert(words.take(n).drop_last() =~= words.take(n - 1));
    }
}

/// Is a list that of the words, each once and in ascending order?
pub open spec fn lists_words(ks: Seq<Seq<char>>, words: Seq<Seq<char>>) -> bool {
    &&& forall|i: int, j: int|
        0 <= i < j < ks.len() ==> text_lt(#[trigger] ks[i], #[trigger] ks[j])
    &&& forall|w: Seq<char>| #[trigger] ks.contains(w) <==> words.contains(w)
}

/// A tally has each word once, in ascending order, after the number of times
/// that it occurs.
pub proof fn law_tally(words: Seq<Seq<char>>)
    ensures
        exists|ks: Seq<Seq<char>>| #[trigger]
            lists_words(ks, words) && tally_text(words) == join(
                ks.map_values(
                    |w: Seq<char>| decimal(occurrences(words, w)) + " "@ + w,
                ),
                ", "@,
            ),
{
    let n = words.len() as int;
    let ks = keys(word_set(words, n));
    lemma_word_set(words, n);
    assert(words.take(n) =~= words);
    assert forall|i: int, j: int| 0 <= i < j < ks.len() implies text_lt(
        #[trigger] ks[i],
        #[trigger] ks[j],
    ) by {
        assert(text_lt(word_set(words, n)[i].0, word_set(words, n)[j].0));
    }
    assert forall|w: Seq<char>| #[trigger] ks.contains(w) <==> words.contains(w) by {
        crate::tags::lemma_keys(word_set(words, n), w);
    }
    assert(lists_words(ks, words));
    let f = |w: Seq<char>| decimal(occurrences(words, w)) + " "@ + w;
    assert forall|i: int| 0 <= i < ks.len() implies tally(words)[i] == ks.map_values(f)[i] by {
        lemma_count_in(words, ks[i], n);
    }
    assert(tally(words) =~= ks.map_values(f));
    assert(tally_text(words) == join(ks.map_values(f), ", "@));
}

} // verus!
