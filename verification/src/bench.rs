//! The handle-minting benchmark: what its suite registers, what a
//! measurement has to hold to, and which samples count.

use vstd::prelude::*;

use crate::args::{number, parse_number};
use crate::schedule::opt_str;
use crate::text::{decimal, decimal_text, has_prefix, owned, starts_with};

verus! {

/// How many cases the suite registers unless told otherwise.
pub const DEFAULT_CASES: usize = 10_000;

/// How many runs come before the first that counts.
pub const WARMUP: usize = 3;

/// How many cases a setting asks for; one that is no number counts as none.
pub open spec fn cases_asked(value: Option<Seq<char>>) -> int {
    match value {
        None => DEFAULT_CASES as int,
        Some(v) => match number(v, usize::MAX as int) {
            Ok(n) => n,
            Err(_) => DEFAULT_CASES as int,
        },
    }
}

/// How many cases a setting asks for.
pub fn bench_cases(value: Option<&str>) -> (r: usize)
    ensures
        r == cases_asked(opt_str(value)),
{
    match value {
        None => DEFAULT_CASES,
        Some(v) => match parse_number(v, usize::MAX as u64) {
            Ok(n) => n as usize,
            Err(_) => DEFAULT_CASES,
        },
    }
}

/// A number in at least five digits.
pub open spec fn five_digits(n: nat) -> Seq<char> {
    let d = decimal(n);
    if d.len() >= 5 { d } else { Seq::new((5 - d.len()) as nat, |i: int| '0') + d }
}

/// The leaf of the `i`-th case of the suite.
pub fn mint_leaf(i: usize) -> (r: String)
    ensures
        r@ == seq!['c'] + five_digits(i as nat),
{
    let d = decimal_text(i as u128);
    let n: usize = d.as_str().unicode_len();
    let mut r = String::new();
    r.push('c');
    let mut k: usize = n;
    assert(r@ =~= seq!['c'] + Seq::new(0, |i: int| '0'));
    while k < 5
        invariant
            n <= k,
            n < 5 ==> k <= 5,
            n >= 5 ==> k == n,
            r@ == seq!['c'] + Seq::new((k - n) as nat, |i: int| '0'),
        decreases 5 - k,
    {
        r.push('0');
        k += 1;
        assert(r@ =~= seq!['c'] + Seq::new((k - n) as nat, |i: int| '0'));
    }
    r.append(d.as_str());
    assert(r@ =~= seq!['c'] + five_digits(i as nat));
    r
}

/// How many runs a measurement makes first, without counting them.
pub fn warmup_runs(instances: usize) -> (r: usize)
    ensures
        r == if instances < WARMUP { instances } else { WARMUP },
{
    if instances < WARMUP { instances } else { WARMUP }
}

/// Hold a suite to the number of cases that it was asked for.
pub fn check_minted(got: usize, expected: usize) -> (r: Result<(), String>)
    ensures
        match r {
            Ok(_) => got == expected,
            Err(e) => got != expected && e@ == "suite minted "@ + decimal(got as nat)
                + " cases, expected "@ + decimal(expected as nat),
        },
{
    if got == expected {
        return Ok(());
    }
    let mut e = owned("suite minted ");
    e.append(decimal_text(got as u128).as_str());
    e.append(" cases, expected ");
    e.append(decimal_text(expected as u128).as_str());
    Err(e)
}

/// Hold a case to the benchmark's prefix.
pub fn check_bench_name(name: &str) -> (r: Result<(), String>)
    ensures
        match r {
            Ok(_) => starts_with(name@, "bench/mint/"@),
            Err(e) => !starts_with(name@, "bench/mint/"@) && e@ == "unexpected case name `"@ + name@
                + "`"@,
        },
{
    if has_prefix(name, "bench/mint/") {
        return Ok(());
    }
    let mut e = owned("unexpected case name `");
    e.append(name);
    e.append("`");
    Err(e)
}

// ---------------------------------------------------------------------
// Medians
// ---------------------------------------------------------------------

/// `s` with `x` after everything that is not greater.
pub open spec fn place_number(s: Seq<u128>, x: u128) -> Seq<u128>
    decreases s.len(),
{
    if s.len() == 0 || s.last() <= x {
        s.push(x)
    } else {
        place_number(s.drop_last(), x).push(s.last())
    }
}

/// The numbers in order.
pub open spec fn numbers_in_order(s: Seq<u128>) -> Seq<u128>
    decreases s.len(),
{
    if s.len() == 0 { s } else { place_number(numbers_in_order(s.drop_last()), s.last()) }
}

fn insert_number(sorted: &mut Vec<u128>, x: u128)
    ensures
        final(sorted)@ == place_number(old(sorted)@, x),
{
    let ghost s = sorted@;
    let mut n: usize = sorted.len();
    assert(s.take(n as int) =~= s);
    assert(s.skip(n as int) =~= Seq::<u128>::empty());
    assert(place_number(s, x) =~= place_number(s.take(n as int), x) + s.skip(n as int));
    while n > 0 && sorted[n - 1] > x
        invariant
            n <= sorted@.len(),
            s == sorted@,
            place_number(s, x) == place_number(s.take(n as int), x) + s.skip(n as int),
        decreases n,
    {
        assert(s.take(n as int).last() == s[n - 1]);
        assert(s.take(n as int).drop_last() =~= s.take(n - 1));
        assert(place_number(s.take(n - 1), x).push(s[n - 1]) + s.skip(n as int) =~= place_number(
            s.take(n - 1),
            x,
        ) + s.skip(n - 1));
        n -= 1;
    }
    if n > 0 {
        assert(s.take(n as int).last() == s[n - 1]);
    }
    sorted.insert(n, x);
    assert(sorted@ =~= s.take(n as int).push(x) + s.skip(n as int));
}

proof fn lemma_place_number(s: Seq<u128>, x: u128)
    requires
        forall|i: int, j: int| 0 <= i < j < s.len() ==> s[i] <= s[j],
    ensures
        ({
            let p = place_number(s, x);
            &&& p.len() == s.len() + 1
            &&& forall|i: int, j: int| 0 <= i < j < p.len() ==> p[i] <= p[j]
            &&& p.to_multiset() =~= s.to_multiset().insert(x)
            &&& p.last() == x || (s.len() > 0 && p.last() == s.last())
        }),
    decreases s.len(),
{
    broadcast use vstd::seq_lib::group_to_multiset_ensures;

    if s.len() > 0 && s.last() > x {
        let init = s.drop_last();
        lemma_place_number(init, x);
        let q = place_number(init, x);
        let p = place_number(s, x);
        assert(p == q.push(s.last()));
        assert forall|i: int, j: int| 0 <= i < j < p.len() implies p[i] <= p[j] by {
            if j == q.len() {
                assert(q[i] <= q.last());
                if init.len() > 0 {
                    assert(init.last() == s[s.len() - 2]);
                }
            }
        }
        assert(s =~= init.push(s.last()));
    }
}

/// Sorting puts numbers in order and neither adds nor loses one.
pub proof fn law_numbers_sorted(s: Seq<u128>)
    ensures
        ({
            let p = numbers_in_order(s);
            &&& p.len() == s.len()
            &&& forall|i: int, j: int| 0 <= i < j < p.len() ==> p[i] <= p[j]
            &&& p.to_multiset() =~= s.to_multiset()
        }),
    decreases s.len(),
{
    broadcast use vstd::seq_lib::group_to_multiset_ensures;

    if s.len() > 0 {
        law_numbers_sorted(s.drop_last());
        lemma_place_number(numbers_in_order(s.drop_last()), s.last());
        assert(s =~= s.drop_last().push(s.last()));
    }
}

proof fn lemma_place_keeps_count(s: Seq<u128>, x: u128, p: spec_fn(u128) -> bool)
    ensures
        place_number(s, x).filter(p).len() == s.filter(p).len() + if p(x) { 1int } else { 0 },
    decreases s.len(),
{
    reveal(Seq::filter);
    if s.len() > 0 && s.last() > x {
        lemma_place_keeps_count(s.drop_last(), x, p);
        let q = place_number(s.drop_last(), x);
        assert(q.push(s.last()).drop_last() =~= q);
    } else {
        assert(s.push(x).drop_last() =~= s);
    }
}

proof fn lemma_order_keeps_count(s: Seq<u128>, p: spec_fn(u128) -> bool)
    ensures
        numbers_in_order(s).filter(p).len() == s.filter(p).len(),
    decreases s.len(),
{
    reveal(Seq::filter);
    if s.len() > 0 {
        lemma_order_keeps_count(s.drop_last(), p);
        lemma_place_keeps_count(numbers_in_order(s.drop_last()), s.last(), p);
    }
}

proof fn lemma_at_most(s: Seq<u128>, p: spec_fn(u128) -> bool, from: int, to: int)
    requires
        0 <= from <= to <= s.len(),
        forall|i: int| 0 <= i < s.len() && !(from <= i < to) ==> !p(#[trigger] s[i]),
    ensures
        s.filter(p).len() <= to - from,
    decreases s.len(),
{
    reveal(Seq::filter);
    if s.len() > 0 {
        let init = s.drop_last();
        let n = init.len() as int;
        assert forall|i: int| 0 <= i < init.len() implies init[i] == #[trigger] s[i] by {}
        let (a, b) = (if from > n { n } else { from }, if to > n { n } else { to });
        assert forall|i: int| 0 <= i < init.len() && !(a <= i < b) implies !p(
            #[trigger] init[i],
        ) by {
            assert(init[i] == s[i]);
        }
        lemma_at_most(init, p, a, b);
        if to <= n {
            assert(!p(s[n]));
        }
    }
}

/// The median of the samples: of an even number, the upper one. No more than
/// half of them are smaller, and fewer than the other half are greater.
pub fn median(samples: &[u128]) -> (r: u128)
    requires
        samples@.len() > 0,
    ensures
        r == numbers_in_order(samples@)[samples@.len() as int / 2],
        samples@.contains(r),
        samples@.filter(|x: u128| x < r).len() <= samples@.len() / 2,
        samples@.filter(|x: u128| x > r).len() < samples@.len() - samples@.len() / 2,
{
    let mut sorted: Vec<u128> = Vec::new();
    let mut i: usize = 0;
    assert(sorted@ =~= numbers_in_order(samples@.take(0)));
    while i < samples.len()
        invariant
            i <= samples@.len(),
            sorted@ == numbers_in_order(samples@.take(i as int)),
        decreases samples.len() - i,
    {
        assert(samples@.take(i + 1).drop_last() =~= samples@.take(i as int));
        assert(samples@.take(i + 1).last() == samples@[i as int]);
        insert_number(&mut sorted, samples[i]);
        i += 1;
    }
    assert(samples@.take(i as int) =~= samples@);
    proof {
        law_numbers_sorted(samples@);
        let all = numbers_in_order(samples@);
        let n = all.len() as int;
        let r = all[n / 2];
        let less = |x: u128| x < r;
        let more = |x: u128| x > r;
        lemma_order_keeps_count(samples@, less);
        lemma_order_keeps_count(samples@, more);
        lemma_at_most(all, less, 0, n / 2);
        lemma_at_most(all, more, n / 2 + 1, n);
        assert(all.to_multiset().contains(r)) by {
            broadcast use vstd::seq_lib::group_to_multiset_ensures;

            assert(all.contains(r));
        }
        assert(samples@.contains(r)) by {
            broadcast use vstd::seq_lib::group_to_multiset_ensures;

        }
    }
    sorted[samples.len() / 2]
}

} // verus!
