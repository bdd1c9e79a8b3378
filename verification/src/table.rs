//! Maps from text to values that are walked in the order of their keys.

use vstd::prelude::*;

use crate::text::{
    before, clone_texts, lemma_text_lt_irreflexive, lemma_text_lt_total, lemma_text_lt_transitive, same, text_lt, views,
};

verus! {

// ---------------------------------------------------------------------
// Meaning
// ---------------------------------------------------------------------

/// Are the keys in order, none of them twice?
pub open spec fn is_sorted<T>(m: Seq<(Seq<char>, T)>) -> bool {
    forall|i: int, j: int| 0 <= i < j < m.len() ==> text_lt((#[trigger] m[i]).0, (#[trigger] m[j]).0)
}

/// `m` with `k` bound to `v`: in the place of an earlier binding of `k`, or
/// before the first later key.
pub open spec fn put<T>(m: Seq<(Seq<char>, T)>, k: Seq<char>, v: T) -> Seq<(Seq<char>, T)>
    decreases m.len(),
{
    if m.len() == 0 {
        seq![(k, v)]
    } else if m[0].0 == k {
        seq![(k, v)] + m.drop_first()
    } else if text_lt(k, m[0].0) {
        seq![(k, v)] + m
    } else {
        seq![m[0]] + put(m.drop_first(), k, v)
    }
}

/// What `k` is bound to.
pub open spec fn lookup<T>(m: Seq<(Seq<char>, T)>, k: Seq<char>) -> Option<T>
    decreases m.len(),
{
    if m.len() == 0 {
        None
    } else if m[0].0 == k {
        Some(m[0].1)
    } else {
        lookup(m.drop_first(), k)
    }
}

/// Is `k` bound?
pub open spec fn has_key<T>(m: Seq<(Seq<char>, T)>, k: Seq<char>) -> bool {
    lookup(m, k) is Some
}

/// The keys in order.
pub open spec fn keys<T>(m: Seq<(Seq<char>, T)>) -> Seq<Seq<char>> {
    Seq::new(m.len(), |i: int| m[i].0)
}

// ---------------------------------------------------------------------
// Laws
// ---------------------------------------------------------------------

/// `lookup` finds what stands at a key's place, and nothing for a text that
/// is no key.
pub proof fn lemma_lookup<T>(m: Seq<(Seq<char>, T)>, k: Seq<char>)
    ensures
        match lookup(m, k) {
            Some(v) => exists|i: int| 0 <= i < m.len() && m[i] == (k, v),
            None => forall|i: int| 0 <= i < m.len() ==> (#[trigger] m[i]).0 != k,
        },
    decreases m.len(),
{
    if m.len() > 0 && m[0].0 != k {
        let rest = m.drop_first();
        lemma_lookup(rest, k);
        match lookup(rest, k) {
            Some(v) => {
                let i = choose|i: int| 0 <= i < rest.len() && rest[i] == (k, v);
                assert(m[i + 1] == (k, v));
            },
            None => {
                assert forall|i: int| 0 <= i < m.len() implies (#[trigger] m[i]).0 != k by {
                    if i > 0 {
                        assert(rest[i - 1] == m[i]);
                    }
                }
            },
        }
    } else if m.len() > 0 {
        assert(m[0] == (k, m[0].1));
    }
}

/// A key of a sorted table is bound to the value at its place.
pub proof fn lemma_lookup_at<T>(m: Seq<(Seq<char>, T)>, i: int)
    requires
        is_sorted(m),
        0 <= i < m.len(),
    ensures
        lookup(m, m[i].0) == Some(m[i].1),
{
    lemma_lookup(m, m[i].0);
    match lookup(m, m[i].0) {
        Some(v) => {
            let j = choose|j: int| 0 <= j < m.len() && m[j] == (m[i].0, v);
            lemma_text_lt_irreflexive(m[i].0);
            assert(i == j);
        },
        None => {},
    }
}

/// Binding a key keeps the order of keys.
pub proof fn law_put_sorted<T>(m: Seq<(Seq<char>, T)>, k: Seq<char>, v: T)
    requires
        is_sorted(m),
    ensures
        is_sorted(put(m, k, v)),
    decreases m.len(),
{
    if m.len() == 0 {
    } else if m[0].0 == k {
        let r = seq![(k, v)] + m.drop_first();
        assert forall|i: int, j: int| 0 <= i < j < r.len() implies text_lt(
            (#[trigger] r[i]).0,
            (#[trigger] r[j]).0,
        ) by {
            assert(r[i].0 == m[i].0 && r[j].0 == m[j].0);
        }
    } else if text_lt(k, m[0].0) {
        let r = seq![(k, v)] + m;
        assert forall|i: int, j: int| 0 <= i < j < r.len() implies text_lt(
            (#[trigger] r[i]).0,
            (#[trigger] r[j]).0,
        ) by {
            assert(r[j] == m[j - 1]);
            if i > 0 {
                assert(r[i] == m[i - 1]);
            } else if j > 1 {
                assert(text_lt(m[0].0, m[j - 1].0));
                lemma_text_lt_transitive(k, m[0].0, m[j - 1].0);
            }
        }
    } else {
        let rest = m.drop_first();
        assert(is_sorted(rest)) by {
            assert forall|i: int, j: int| 0 <= i < j < rest.len() implies text_lt(
                (#[trigger] rest[i]).0,
                (#[trigger] rest[j]).0,
            ) by {
                assert(rest[i] == m[i + 1] && rest[j] == m[j + 1]);
            }
        }
        law_put_sorted(rest, k, v);
        let p = put(rest, k, v);
        lemma_text_lt_total(k, m[0].0);
        let r = seq![m[0]] + p;
        assert forall|i: int, j: int| 0 <= i < j < r.len() implies text_lt(
            (#[trigger] r[i]).0,
            (#[trigger] r[j]).0,
        ) by {
            assert(r[j] == p[j - 1]);
            if i > 0 {
                assert(r[i] == p[i - 1]);
            } else {
                lemma_put_keys(rest, k, v, j - 1);
                if p[j - 1].0 != k {
                    let x = choose|x: int| 0 <= x < rest.len() && rest[x].0 == p[j - 1].0;
                    assert(text_lt(m[0].0, m[x + 1].0));
                }
            }
        }
    }
}

proof fn lemma_put_keys<T>(m: Seq<(Seq<char>, T)>, k: Seq<char>, v: T, i: int)
    requires
        0 <= i < put(m, k, v).len(),
    ensures
        put(m, k, v)[i].0 == k || exists|x: int| 0 <= x < m.len() && m[x].0 == put(m, k, v)[i].0,
    decreases m.len(),
{
    let p = put(m, k, v);
    if m.len() == 0 {
    } else if m[0].0 == k {
        if i > 0 {
            assert(p[i] == m[i]);
        }
    } else if text_lt(k, m[0].0) {
        if i > 0 {
            assert(p[i] == m[i - 1]);
        }
    } else {
        let rest = m.drop_first();
        if i == 0 {
            assert(p[0] == m[0]);
        } else {
            assert(p[i] == put(rest, k, v)[i - 1]);
            lemma_put_keys(rest, k, v, i - 1);
            if p[i].0 != k {
                let x = choose|x: int| 0 <= x < rest.len() && rest[x].0 == p[i].0;
                assert(m[x + 1].0 == p[i].0);
            }
        }
    }
}

/// After binding `k` to `v`, `k` has the value `v` and every other key the
/// value that it had.
pub proof fn law_lookup_put<T>(m: Seq<(Seq<char>, T)>, k: Seq<char>, v: T, q: Seq<char>)
    ensures
        lookup(put(m, k, v), q) == if q == k { Some(v) } else { lookup(m, q) },
    decreases m.len(),
{
    if m.len() == 0 {
        let r = seq![(k, v)];
        assert(r.drop_first() =~= m);
        assert(lookup(r, q) == if r[0].0 == q { Some(v) } else { lookup(r.drop_first(), q) });
    } else if m[0].0 == k {
        let r = seq![(k, v)] + m.drop_first();
        assert(r.drop_first() =~= m.drop_first());
    } else if text_lt(k, m[0].0) {
        let r = seq![(k, v)] + m;
        assert(r.drop_first() =~= m);
        if q == k {
        }
    } else {
        let r = seq![m[0]] + put(m.drop_first(), k, v);
        assert(r.drop_first() =~= put(m.drop_first(), k, v));
        law_lookup_put(m.drop_first(), k, v, q);
    }
}

// ---------------------------------------------------------------------
// The table
// ---------------------------------------------------------------------

/// A map from text to values, kept in the order of its keys.
#[derive(Debug, PartialEq, Eq)]
pub struct Table<V> {
    keys: Vec<String>,
    vals: Vec<V>,
}

impl<V: View> View for Table<V> {
    type V = Seq<(Seq<char>, V::V)>;

    closed spec fn view(&self) -> Seq<(Seq<char>, V::V)> {
        Seq::new(self.keys@.len(), |i: int| (self.keys@[i]@, self.vals@[i]@))
    }
}

impl<V> Table<V> {
    /// One value per key, and the keys in order.
    #[verifier::type_invariant]
    spec fn well_formed(self) -> bool {
        &&& self.keys@.len() == self.vals@.len()
        &&& forall|i: int, j: int|
            0 <= i < j < self.keys@.len() ==> text_lt(
                (#[trigger] self.keys@[i])@,
                (#[trigger] self.keys@[j])@,
            )
    }
}

/// A copy has the same keys, and at the place of every value a clone of it.
impl<V: View + Clone> Clone for Table<V> {
    fn clone(&self) -> (r: Self)
        ensures
            keys(r@) == keys(self@),
            self.values().len() == self@.len(),
            r.values().len() == r@.len(),
            forall|i: int|
                0 <= i < self@.len() ==> cloned::<V>(#[trigger] self.values()[i], r.values()[i])
                    && self.values()[i]@ == self@[i].1 && r.values()[i]@ == r@[i].1,
    {
        proof {
            use_type_invariant(self);
        }
        let copied = clone_texts(&self.keys);
        let mut vals: Vec<V> = Vec::new();
        for i in 0..self.vals.len()
            invariant
                vals@.len() == i,
                forall|k: int| 0 <= k < i ==> cloned::<V>(#[trigger] self.vals@[k], vals@[k]),
        {
            vals.push(self.vals[i].clone());
        }
        assert(views(copied@).len() == views(self.keys@).len());
        assert forall|i: int| 0 <= i < copied@.len() implies (#[trigger] copied@[i])@
            == self.keys@[i]@ by {
            assert(views(copied@)[i] == copied@[i]@);
            assert(views(self.keys@)[i] == self.keys@[i]@);
        }
        let r = Table { keys: copied, vals };
        assert(keys(r@) =~= keys(self@));
        r
    }
}

impl<V: View> Table<V> {
    /// The values, in the order of their keys.
    pub closed spec fn values(&self) -> Seq<V> {
        self.vals@
    }

    /// The empty table.
    pub fn new() -> (r: Self)
        ensures
            r@ == Seq::<(Seq<char>, V::V)>::empty(),
    {
        let r = Table { keys: Vec::new(), vals: Vec::new() };
        assert(r@ =~= Seq::<(Seq<char>, V::V)>::empty());
        r
    }

    /// How many keys there are.
    pub fn len(&self) -> (r: usize)
        ensures
            r == self@.len(),
            is_sorted(self@),
    {
        proof {
            use_type_invariant(self);
            assert forall|i: int, j: int| 0 <= i < j < self@.len() implies text_lt(
                (#[trigger] self@[i]).0,
                (#[trigger] self@[j]).0,
            ) by {
                assert(self@[i].0 == self.keys@[i]@ && self@[j].0 == self.keys@[j]@);
            }
        }
        self.keys.len()
    }

    /// Are there no keys?
    pub fn is_empty(&self) -> (r: bool)
        ensures
            r == (self@.len() == 0),
    {
        self.keys.len() == 0
    }

    /// The `i`-th key.
    pub fn key_at(&self, i: usize) -> (r: &str)
        requires
            i < self@.len(),
        ensures
            r@ == self@[i as int].0,
    {
        self.keys[i].as_str()
    }

    /// The `i`-th value.
    pub fn value_at(&self, i: usize) -> (r: &V)
        requires
            i < self@.len(),
        ensures
            r@ == self@[i as int].1,
    {
        proof {
            use_type_invariant(self);
        }
        &self.vals[i]
    }

    /// What `k` is bound to.
    pub fn get(&self, k: &str) -> (r: Option<&V>)
        ensures
            match r {
                Some(v) => lookup(self@, k@) == Some(v@),
                None => lookup(self@, k@) is None,
            },
    {
        proof {
            use_type_invariant(self);
        }
        let ghost m = self@;
        assert forall|i: int| 0 <= i < m.len() implies (#[trigger] m[i]).0 == self.keys@[i]@ by {}
        let mut lo: usize = 0;
        let mut hi: usize = self.keys.len();
        while lo < hi
            invariant
                m == self@,
                self.keys@.len() == self.vals@.len(),
                m.len() == self.keys@.len(),
                lo <= hi <= m.len(),
                is_sorted(m),
                forall|i: int| 0 <= i < lo ==> (#[trigger] m[i]).0 != k@,
                forall|i: int| hi <= i < m.len() ==> (#[trigger] m[i]).0 != k@,
            decreases hi - lo,
        {
            let mid: usize = lo + (hi - lo) / 2;
            assert(m[mid as int].0 == self.keys@[mid as int]@);
            if same(self.keys[mid].as_str(), k) {
                proof {
                    lemma_lookup_at(m, mid as int);
                }
                return Some(&self.vals[mid]);
            }
            if before(self.keys[mid].as_str(), k) {
                proof {
                    lemma_text_lt_irreflexive(k@);
                    assert forall|i: int| 0 <= i < mid + 1 implies (#[trigger] m[i]).0 != k@ by {
                        if i < mid && m[i].0 == k@ {
                            assert(text_lt(m[i].0, m[mid as int].0));
                            lemma_text_lt_transitive(m[mid as int].0, k@, m[mid as int].0);
                            lemma_text_lt_irreflexive(m[mid as int].0);
                        }
                    }
                }
                lo = mid + 1;
            } else {
                proof {
                    lemma_text_lt_total(m[mid as int].0, k@);
                    assert forall|i: int| mid <= i < m.len() implies (#[trigger] m[i]).0 != k@ by {
                        if i > mid && m[i].0 == k@ {
                            assert(text_lt(m[mid as int].0, m[i].0));
                            lemma_text_lt_transitive(k@, m[mid as int].0, k@);
                            lemma_text_lt_irreflexive(k@);
                        }
                    }
                }
                hi = mid;
            }
        }
        proof {
            lemma_lookup(m, k@);
        }
        None
    }

    /// Is `k` bound?
    pub fn contains_key(&self, k: &str) -> (r: bool)
        ensures
            r == has_key(self@, k@),
    {
        self.get(k).is_some()
    }

    /// Bind `k` to `v`.
    pub fn insert(&mut self, k: String, v: V)
        ensures
            final(self)@ == put(old(self)@, k@, v@),
    {
        proof {
            use_type_invariant(&*self);
        }
        let ghost m = self@;
        let mut whole = Table { keys: Vec::new(), vals: Vec::new() };
        std::mem::swap(&mut whole, self);
        let Table { mut keys, mut vals } = whole;
        proof {
            assert(m =~= Seq::new(keys@.len(), |i: int| (keys@[i]@, vals@[i]@)));
            assert(is_sorted(m)) by {
                assert forall|i: int, j: int| 0 <= i < j < m.len() implies text_lt(
                    (#[trigger] m[i]).0,
                    (#[trigger] m[j]).0,
                ) by {
                    assert(m[i].0 == keys@[i]@ && m[j].0 == keys@[j]@);
                }
            }
            law_put_sorted(m, k@, v@);
        }
        let mut i: usize = 0;
        assert(m.take(0) + put(m.skip(0), k@, v@) =~= put(m, k@, v@)) by {
            assert(m.skip(0) =~= m);
        }
        while i < keys.len() && before(keys[i].as_str(), k.as_str())
            invariant
                i <= keys@.len(),
                keys@.len() == vals@.len(),
                m == Seq::new(keys@.len(), |i: int| (keys@[i]@, vals@[i]@)),
                put(m, k@, v@) == m.take(i as int) + put(m.skip(i as int), k@, v@),
            decreases keys.len() - i,
        {
            let ghost s = m.skip(i as int);
            assert(s[0] == m[i as int]);
            assert(s.drop_first() =~= m.skip(i + 1));
            proof {
                lemma_text_lt_irreflexive(k@);
                if text_lt(k@, s[0].0) {
                    lemma_text_lt_transitive(k@, s[0].0, k@);
                }
            }
            assert(m.take(i as int) + (seq![m[i as int]] + put(m.skip(i + 1), k@, v@)) =~= m.take(
                i + 1,
            ) + put(m.skip(i + 1), k@, v@));
            i += 1;
        }
        let ghost s = m.skip(i as int);
        let ghost kv = k@;
        let ghost vv = v@;
        if i < keys.len() {
            assert(s[0] == m[i as int]);
            assert(s.drop_first() =~= m.skip(i + 1));
        }
        if i < keys.len() && same(keys[i].as_str(), k.as_str()) {
            keys.set(i, k);
            vals.set(i, v);
            proof {
                assert(put(m, kv, vv) =~= Seq::new(keys@.len(), |i: int| (keys@[i]@, vals@[i]@)));
            }
        } else {
            proof {
                if i < keys@.len() {
                    lemma_text_lt_total(kv, keys@[i as int]@);
                }
            }
            keys.insert(i, k);
            vals.insert(i, v);
            proof {
                if i < m.len() {
                    assert(put(s, kv, vv) == seq![(kv, vv)] + s);
                } else {
                    assert(put(s, kv, vv) =~= seq![(kv, vv)]);
                }
                assert(put(m, kv, vv) =~= Seq::new(keys@.len(), |i: int| (keys@[i]@, vals@[i]@)));
            }
        }
        proof {
            let p = put(m, kv, vv);
            assert forall|a: int, b: int| 0 <= a < b < keys@.len() implies text_lt(
                (#[trigger] keys@[a])@,
                (#[trigger] keys@[b])@,
            ) by {
                assert(p[a].0 == keys@[a]@ && p[b].0 == keys@[b]@);
            }
        }
        *self = Table { keys, vals };
        assert(self@ =~= put(m, kv, vv));
    }

    /// Give the `i`-th key another value.
    pub fn replace_at(&mut self, i: usize, v: V)
        requires
            i < old(self)@.len(),
        ensures
            final(self)@ == old(self)@.update(i as int, (old(self)@[i as int].0, v@)),
    {
        proof {
            use_type_invariant(&*self);
        }
        let ghost m = self@;
        let ghost vv = v@;
        let mut whole = Table { keys: Vec::new(), vals: Vec::new() };
        std::mem::swap(&mut whole, self);
        let Table { keys, mut vals } = whole;
        vals.set(i, v);
        *self = Table { keys, vals };
        assert(self@ =~= m.update(i as int, (m[i as int].0, vv)));
    }

    /// The keys in order.
    pub fn to_keys(&self) -> (r: Vec<String>)
        ensures
            views(r@) == keys(self@),
    {
        let r = clone_texts(&self.keys);
        assert(views(r@) =~= keys(self@));
        r
    }
}

} // verus!
