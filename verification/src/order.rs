//! Sorting texts.

use vstd::prelude::*;

use crate::text::{
    before, lemma_text_lt_irreflexive, lemma_text_lt_total, lemma_text_lt_transitive, text_lt,
    views,
};

verus! {

/// `s` with `x` after everything that does not come after it.
pub open spec fn place_text(s: Seq<Seq<char>>, x: Seq<char>) -> Seq<Seq<char>>
    decreases s.len(),
{
    if s.len() == 0 || !text_lt(x, s.last()) {
        s.push(x)
    } else {
        place_text(s.drop_last(), x).push(s.last())
    }
}

/// The texts in order.
pub open spec fn texts_in_order(s: Seq<Seq<char>>) -> Seq<Seq<char>>
    decreases s.len(),
{
    if s.len() == 0 { s } else { place_text(texts_in_order(s.drop_last()), s.last()) }
}

/// Does no text come after a later one?
pub open spec fn in_order(s: Seq<Seq<char>>) -> bool {
    forall|i: int, j: int| 0 <= i < j < s.len() ==> !text_lt(#[trigger] s[j], #[trigger] s[i])
}

fn insert_text(sorted: &mut Vec<String>, x: String)
    ensures
        views(final(sorted)@) == place_text(views(old(sorted)@), x@),
{
    let ghost s = views(sorted@);
    let ghost xv = x@;
    let mut n: usize = sorted.len();
    assert(s.take(n as int) =~= s);
    assert(s.skip(n as int) =~= Seq::<Seq<char>>::empty());
    assert(place_text(s, xv) =~= place_text(s.take(n as int), xv) + s.skip(n as int));
    while n > 0 && before(x.as_str(), sorted[n - 1].as_str())
        invariant
            n <= sorted@.len(),
            s == views(sorted@),
            xv == x@,
            place_text(s, xv) == place_text(s.take(n as int), xv) + s.skip(n as int),
        decreases n,
    {
        assert(s[n - 1] == sorted@[n - 1]@);
        assert(s.take(n as int).last() == s[n - 1]);
        assert(s.take(n as int).drop_last() =~= s.take(n - 1));
        assert(place_text(s.take(n - 1), xv).push(s[n - 1]) + s.skip(n as int) =~= place_text(
            s.take(n - 1),
            xv,
        ) + s.skip(n - 1));
        n -= 1;
    }
    if n > 0 {
        assert(s[n - 1] == sorted@[n - 1]@);
        assert(s.take(n as int).last() == s[n - 1]);
    }
    sorted.insert(n, x);
    assert(views(sorted@) =~= s.take(n as int).push(xv) + s.skip(n as int));
}

/// The texts in order.
pub fn sort_texts(items: &[String]) -> (r: Vec<String>)
    ensures
        views(r@) == texts_in_order(views(items@)),
{
    let ghost s = views(items@);
    let mut r: Vec<String> = Vec::new();
    let mut i: usize = 0;
    assert(views(r@) =~= texts_in_order(s.take(0)));
    while i < items.len()
        invariant
            i <= items@.len(),
            s == views(items@),
            views(r@) == texts_in_order(s.take(i as int)),
        decreases items.len() - i,
    {
        assert(s.take(i + 1).drop_last() =~= s.take(i as int));
        assert(s.take(i + 1).last() == items@[i as int]@);
        insert_text(&mut r, items[i].clone());
        i += 1;
    }
    assert(s.take(i as int) =~= s);
    r
}

// ---------------------------------------------------------------------
// Laws
// ---------------------------------------------------------------------

proof fn lemma_place(s: Seq<Seq<char>>, x: Seq<char>)
    requires
        in_order(s),
    ensures
        in_order(place_text(s, x)),
        place_text(s, x).to_multiset() =~= s.to_multiset().insert(x),
        place_text(s, x).len() == s.len() + 1,
        place_text(s, x).last() == x || (s.len() > 0 && place_text(s, x).last() == s.last()),
        forall|i: int|
            0 <= i < s.len() + 1 ==> (#[trigger] place_text(s, x)[i]) == x || s.contains(
                place_text(s, x)[i],
            ),
    decreases s.len(),
{
    broadcast use vstd::seq_lib::group_to_multiset_ensures;

    let p = place_text(s, x);
    if s.len() == 0 || !text_lt(x, s.last()) {
        assert forall|i: int, j: int| 0 <= i < j < p.len() implies !text_lt(
            #[trigger] p[j],
            #[trigger] p[i],
        ) by {
            if j == s.len() {
                if i < s.len() - 1 && text_lt(x, s[i]) {
                    let last = s.last();
                    assert(!text_lt(last, s[i]));
                    lemma_text_lt_total(last, s[i]);
                    if last != s[i] {
                        lemma_text_lt_transitive(x, s[i], last);
                    }
                }
            }
        }
        assert forall|i: int| 0 <= i < s.len() + 1 implies (#[trigger] p[i]) == x || s.contains(
            p[i],
        ) by {
            if i < s.len() {
                assert(s[i] == p[i]);
            }
        }
    } else {
        let init = s.drop_last();
        assert(in_order(init)) by {
            assert forall|i: int, j: int| 0 <= i < j < init.len() implies !text_lt(
                #[trigger] init[j],
                #[trigger] init[i],
            ) by {
                assert(init[i] == s[i] && init[j] == s[j]);
            }
        }
        lemma_place(init, x);
        let q = place_text(init, x);
        assert(p == q.push(s.last()));
        assert forall|i: int, j: int| 0 <= i < j < p.len() implies !text_lt(
            #[trigger] p[j],
            #[trigger] p[i],
        ) by {
            if j < q.len() {
                assert(q[i] == p[i] && q[j] == p[j]);
            } else {
                assert(p[j] == s.last());
                assert(q[i] == p[i]);
                if p[i] == x {
                    if text_lt(s.last(), x) {
                        lemma_text_lt_transitive(x, s.last(), x);
                        lemma_text_lt_irreflexive(x);
                    }
                } else {
                    let k = choose|k: int| 0 <= k < init.len() && init[k] == q[i];
                    assert(s[k] == p[i] && s[s.len() - 1] == s.last());
                }
            }
        }
        assert forall|i: int| 0 <= i < s.len() + 1 implies (#[trigger] p[i]) == x || s.contains(
            p[i],
        ) by {
            if i < q.len() {
                assert(q[i] == p[i]);
                if p[i] != x {
                    let k = choose|k: int| 0 <= k < init.len() && init[k] == q[i];
                    assert(s[k] == p[i]);
                }
            } else {
                assert(s[s.len() - 1] == p[i]);
            }
        }
        assert(s =~= init.push(s.last()));
        assert(p.to_multiset() =~= q.to_multiset().insert(s.last()));
        assert(s.to_multiset() =~= init.to_multiset().insert(s.last()));
        assert(p.to_multiset() =~= s.to_multiset().insert(x));
    }
}

/// Sorting puts the texts in order and neither adds nor loses one.
pub proof fn law_sorted(s: Seq<Seq<char>>)
    ensures
        in_order(texts_in_order(s)),
        texts_in_order(s).to_multiset() =~= s.to_multiset(),
        texts_in_order(s).len() == s.len(),
    decreases s.len(),
{
    broadcast use vstd::seq_lib::group_to_multiset_ensures;

    if s.len() > 0 {
        law_sorted(s.drop_last());
        lemma_place(texts_in_order(s.drop_last()), s.last());
        assert(s =~= s.drop_last().push(s.last()));
        assert(s.to_multiset() =~= s.drop_last().to_multiset().insert(s.last()));
    }
}

} // verus!
