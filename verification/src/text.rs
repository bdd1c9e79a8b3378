//! Text as sequences of characters: the few string operations the rest of
//! the crate is written in, each with its meaning over `Seq<char>`.

use vstd::prelude::*;
use vstd::utf8::encode_utf8;

verus! {

/// `String::push` appends one character.
pub assume_specification[ String::push ](s: &mut String, c: char)
    ensures
        final(s)@ == old(s)@.push(c),
;

/// `==` on string slices compares their text.
pub assume_specification[ <str as PartialEq>::eq ](a: &str, b: &str) -> (res: bool)
    ensures
        res == (a@ == b@),
;

// ---------------------------------------------------------------------
// Meaning
// ---------------------------------------------------------------------

/// The texts of a list of strings.
pub open spec fn views(v: Seq<String>) -> Seq<Seq<char>> {
    Seq::new(v.len(), |i: int| v[i]@)
}

/// The length of a text in UTF-8 bytes.
pub open spec fn byte_len(s: Seq<char>) -> nat {
    encode_utf8(s).len()
}

/// The pieces of `s` between occurrences of `sep` (always at least one).
pub open spec fn split(s: Seq<char>, sep: char) -> Seq<Seq<char>>
    decreases s.len(),
{
    if s.len() == 0 {
        seq![Seq::<char>::empty()]
    } else {
        let init = split(s.drop_last(), sep);
        if s.last() == sep {
            init.push(Seq::<char>::empty())
        } else {
            init.update(init.len() - 1, init.last().push(s.last()))
        }
    }
}

/// `parts` with `sep` between neighbours.
pub open spec fn join(parts: Seq<Seq<char>>, sep: Seq<char>) -> Seq<char>
    decreases parts.len(),
{
    if parts.len() == 0 {
        Seq::<char>::empty()
    } else if parts.len() == 1 {
        parts[0]
    } else {
        join(parts.drop_last(), sep) + sep + parts.last()
    }
}

/// `parts` one after the other.
pub open spec fn concat(parts: Seq<Seq<char>>) -> Seq<char>
    decreases parts.len(),
{
    if parts.len() == 0 {
        Seq::<char>::empty()
    } else {
        concat(parts.drop_last()) + parts.last()
    }
}

/// The last position of `c` in `s`, or -1.
pub open spec fn last_index(s: Seq<char>, c: char) -> int
    decreases s.len(),
{
    if s.len() == 0 {
        -1
    } else if s.last() == c {
        s.len() - 1
    } else {
        last_index(s.drop_last(), c)
    }
}

/// The first position of `c` in `s`, or `s.len()`.
pub open spec fn first_index(s: Seq<char>, c: char) -> int
    decreases s.len(),
{
    if s.len() == 0 {
        0
    } else if s[0] == c {
        0
    } else {
        1 + first_index(s.drop_first(), c)
    }
}

/// Does `pat` stand in `s` at position `i`?
pub open spec fn occurs_at(s: Seq<char>, pat: Seq<char>, i: int) -> bool {
    0 <= i && i + pat.len() <= s.len() && s.subrange(i, i + pat.len()) == pat
}

/// Does `s` begin with `pat`?
pub open spec fn starts_with(s: Seq<char>, pat: Seq<char>) -> bool {
    occurs_at(s, pat, 0)
}

/// Does `pat` occur anywhere in `s`?
pub open spec fn contains_text(s: Seq<char>, pat: Seq<char>) -> bool {
    exists|i: int| #[trigger] occurs_at(s, pat, i)
}

/// The first position at or after `i` where `pat` occurs, or -1.
pub open spec fn occurrence_from(s: Seq<char>, pat: Seq<char>, i: int) -> int
    decreases s.len() + 1 - i,
{
    if i < 0 || i > s.len() {
        -1
    } else if occurs_at(s, pat, i) {
        i
    } else {
        occurrence_from(s, pat, i + 1)
    }
}

/// Lexicographic order by code point, which is the order of strings.
pub open spec fn text_lt(a: Seq<char>, b: Seq<char>) -> bool
    decreases a.len(),
{
    if b.len() == 0 {
        false
    } else if a.len() == 0 {
        true
    } else if a[0] != b[0] {
        (a[0] as int) < (b[0] as int)
    } else {
        text_lt(a.drop_first(), b.drop_first())
    }
}

/// The decimal digit for `d < 10`.
pub open spec fn digit(d: nat) -> char {
    if d == 0 { '0' } else if d == 1 { '1' } else if d == 2 { '2' } else if d == 3 { '3' }
    else if d == 4 { '4' } else if d == 5 { '5' } else if d == 6 { '6' } else if d == 7 { '7' }
    else if d == 8 { '8' } else { '9' }
}

/// `n` in decimal, without leading zeros.
pub open spec fn decimal(n: nat) -> Seq<char>
    decreases n,
{
    if n < 10 {
        seq![digit(n)]
    } else {
        decimal(n / 10).push(digit(n % 10))
    }
}

/// A character with the Unicode property White_Space.
pub open spec fn is_space(c: char) -> bool {
    let u = c as u32;
    ||| 0x09 <= u <= 0x0d
    ||| u == 0x20
    ||| u == 0x85
    ||| u == 0xa0
    ||| u == 0x1680
    ||| 0x2000 <= u <= 0x200a
    ||| u == 0x2028
    ||| u == 0x2029
    ||| u == 0x202f
    ||| u == 0x205f
    ||| u == 0x3000
}

/// Is `s` nothing but white space?
pub open spec fn is_blank(s: Seq<char>) -> bool {
    forall|i: int| 0 <= i < s.len() ==> is_space(#[trigger] s[i])
}

/// `s` without leading white space.
pub open spec fn trim_start(s: Seq<char>) -> Seq<char>
    decreases s.len(),
{
    if s.len() > 0 && is_space(s[0]) {
        trim_start(s.drop_first())
    } else {
        s
    }
}

/// `s` without trailing white space.
pub open spec fn trim_end(s: Seq<char>) -> Seq<char>
    decreases s.len(),
{
    if s.len() > 0 && is_space(s.last()) {
        trim_end(s.drop_last())
    } else {
        s
    }
}

/// `s` without white space at either end.
pub open spec fn trim(s: Seq<char>) -> Seq<char> {
    trim_end(trim_start(s))
}

/// One line without the carriage return that a line feed was paired with.
pub open spec fn without_cr(s: Seq<char>) -> Seq<char> {
    if s.len() > 0 && s.last() == '\r' {
        s.drop_last()
    } else {
        s
    }
}

/// The lines of `s`: the pieces between line feeds, a carriage return before
/// a line feed dropped, and no empty line after a final line feed.
pub open spec fn lines(s: Seq<char>) -> Seq<Seq<char>> {
    let pieces = split(s, '\n');
    let n = pieces.len() - 1;
    let ended = Seq::new(n as nat, |i: int| without_cr(pieces[i]));
    if pieces[n].len() == 0 {
        ended
    } else {
        ended.push(pieces[n])
    }
}

// ---------------------------------------------------------------------
// Facts
// ---------------------------------------------------------------------

/// A split has at least one piece.
pub proof fn lemma_split_nonempty(s: Seq<char>, sep: char)
    ensures
        split(s, sep).len() >= 1,
    decreases s.len(),
{
    if s.len() > 0 {
        lemma_split_nonempty(s.drop_last(), sep);
    }
}

/// Every character of a text is the separator or stands in a piece.
pub proof fn lemma_split_char(s: Seq<char>, sep: char, i: int)
    requires
        0 <= i < s.len(),
    ensures
        s[i] == sep || exists|k: int, j: int|
            0 <= k < split(s, sep).len() && 0 <= j < split(s, sep)[k].len()
                && #[trigger] split(s, sep)[k][j] == s[i],
    decreases s.len(),
{
    let init = split(s.drop_last(), sep);
    let p = split(s, sep);
    lemma_split_nonempty(s.drop_last(), sep);
    if i == s.len() - 1 {
        if s[i] != sep {
            let k = init.len() - 1;
            assert(p[k] == init[k].push(s[i]));
            assert(p[k][p[k].len() - 1] == s[i]);
        }
    } else {
        lemma_split_char(s.drop_last(), sep, i);
        if s[i] != sep {
            let (k, j) = choose|k: int, j: int|
                0 <= k < init.len() && 0 <= j < init[k].len() && #[trigger] init[k][j] == s[i];
            assert(p[k][j] == s[i]);
        }
    }
}

/// Splitting at the separator between `a` and `b` splits each by itself.
pub proof fn lemma_split_concat(a: Seq<char>, b: Seq<char>, sep: char)
    ensures
        split(a.push(sep) + b, sep) == split(a, sep) + split(b, sep),
    decreases b.len(),
{
    let s = a.push(sep) + b;
    lemma_split_nonempty(a, sep);
    lemma_split_nonempty(b, sep);
    if b.len() == 0 {
        assert(s =~= a.push(sep));
        assert(s.drop_last() =~= a);
        assert(split(s, sep) =~= split(a, sep) + split(b, sep));
    } else {
        lemma_split_concat(a, b.drop_last(), sep);
        lemma_split_nonempty(b.drop_last(), sep);
        assert(s.drop_last() =~= a.push(sep) + b.drop_last());
        assert(split(s, sep) =~= split(a, sep) + split(b, sep));
    }
}

/// A text without the separator is its only piece.
pub proof fn lemma_split_single(s: Seq<char>, sep: char)
    requires
        !s.contains(sep),
    ensures
        split(s, sep) == seq![s],
    decreases s.len(),
{
    if s.len() > 0 {
        assert(s.last() == s[s.len() - 1]);
        assert(!s.drop_last().contains(sep)) by {
            if s.drop_last().contains(sep) {
                let i = choose|i: int| 0 <= i < s.drop_last().len() && s.drop_last()[i] == sep;
                assert(s[i] == sep);
            }
        }
        lemma_split_single(s.drop_last(), sep);
        assert(s.drop_last().push(s.last()) =~= s);
        assert(split(s, sep) =~= seq![s]);
    } else {
        assert(s =~= Seq::<char>::empty());
    }
}

/// `last_index` is where the last occurrence is.
pub proof fn lemma_last_index(s: Seq<char>, c: char)
    ensures
        -1 <= last_index(s, c) < s.len(),
        last_index(s, c) >= 0 ==> s[last_index(s, c)] == c,
        forall|i: int| last_index(s, c) < i < s.len() ==> s[i] != c,
        last_index(s, c) == -1 <==> !s.contains(c),
    decreases s.len(),
{
    if s.len() > 0 && s.last() != c {
        lemma_last_index(s.drop_last(), c);
        assert forall|i: int| last_index(s, c) < i < s.len() implies s[i] != c by {
            if i < s.len() - 1 {
                assert(s.drop_last()[i] == s[i]);
            }
        }
    }
    if last_index(s, c) >= 0 {
        assert(s[last_index(s, c)] == c);
    }
}

/// `first_index` is where the first occurrence is.
pub proof fn lemma_first_index(s: Seq<char>, c: char)
    ensures
        0 <= first_index(s, c) <= s.len(),
        first_index(s, c) < s.len() ==> s[first_index(s, c)] == c,
        forall|i: int| 0 <= i < first_index(s, c) ==> s[i] != c,
        first_index(s, c) == s.len() <==> !s.contains(c),
    decreases s.len(),
{
    if s.len() > 0 && s[0] != c {
        lemma_first_index(s.drop_first(), c);
        assert forall|i: int| 0 <= i < first_index(s, c) implies s[i] != c by {
            if i > 0 {
                assert(s.drop_first()[i - 1] == s[i]);
            }
        }
    }
    if first_index(s, c) < s.len() {
        assert(s[first_index(s, c)] == c);
    }
}

/// A text is not before itself.
pub proof fn lemma_text_lt_irreflexive(a: Seq<char>)
    ensures
        !text_lt(a, a),
    decreases a.len(),
{
    if a.len() > 0 {
        lemma_text_lt_irreflexive(a.drop_first());
    }
}

/// The order of texts is transitive.
pub proof fn lemma_text_lt_transitive(a: Seq<char>, b: Seq<char>, c: Seq<char>)
    requires
        text_lt(a, b),
        text_lt(b, c),
    ensures
        text_lt(a, c),
    decreases a.len(),
{
    if a.len() > 0 && b.len() > 0 && c.len() > 0 && a[0] == b[0] && b[0] == c[0] {
        lemma_text_lt_transitive(a.drop_first(), b.drop_first(), c.drop_first());
    }
}

/// Two different texts stand in one order or the other.
pub proof fn lemma_text_lt_total(a: Seq<char>, b: Seq<char>)
    ensures
        text_lt(a, b) || a == b || text_lt(b, a),
    decreases a.len(),
{
    if a.len() > 0 && b.len() > 0 {
        if a[0] == b[0] {
            lemma_text_lt_total(a.drop_first(), b.drop_first());
            if a.drop_first() == b.drop_first() {
                assert(a =~= seq![a[0]] + a.drop_first());
                assert(b =~= seq![b[0]] + b.drop_first());
            }
        } else {
            assert((a[0] as int) < (b[0] as int) || (b[0] as int) < (a[0] as int));
        }
    } else if a.len() == 0 && b.len() == 0 {
        assert(a =~= b);
    }
}

// ---------------------------------------------------------------------
// Code
// ---------------------------------------------------------------------

/// The characters of `s`.
pub fn chars_of(s: &str) -> (v: Vec<char>)
    ensures
        v@ == s@,
{
    let mut v: Vec<char> = Vec::new();
    for c in it: s.chars()
        invariant
            v@ == it.seq().take(it.index()),
            it.seq() == s@,
    {
        v.push(c);
    }
    v
}

/// The text of `chars[from..to]`.
pub fn text_of(chars: &[char], from: usize, to: usize) -> (r: String)
    requires
        from <= to <= chars@.len(),
    ensures
        r@ == chars@.subrange(from as int, to as int),
{
    let mut r = String::new();
    let mut i: usize = from;
    while i < to
        invariant
            from <= i <= to <= chars@.len(),
            r@ == chars@.subrange(from as int, i as int),
        decreases to - i,
    {
        r.push(chars[i]);
        i += 1;
    }
    r
}

/// Do two texts agree?
pub fn same(a: &str, b: &str) -> (r: bool)
    ensures
        r == (a@ == b@),
{
    *a == *b
}

/// A copy of `s`.
pub fn owned(s: &str) -> (r: String)
    ensures
        r@ == s@,
{
    s.to_owned()
}

/// The length of `s` in bytes.
pub fn bytes_in(s: &str) -> (n: usize)
    ensures
        n == byte_len(s@),
{
    s.as_bytes().len()
}

/// A copy of a list of strings.
pub fn clone_texts(v: &[String]) -> (r: Vec<String>)
    ensures
        views(r@) == views(v@),
{
    let mut r: Vec<String> = Vec::new();
    for i in 0..v.len()
        invariant
            r@.len() == i,
            forall|k: int| 0 <= k < i ==> (#[trigger] r@[k])@ == v@[k]@,
    {
        r.push(v[i].clone());
    }
    assert(views(r@) =~= views(v@));
    r
}

/// Is `s` one of `list`?
pub fn among(list: &[String], s: &str) -> (r: bool)
    ensures
        r == views(list@).contains(s@),
{
    for i in 0..list.len()
        invariant
            forall|k: int| 0 <= k < i ==> (#[trigger] list@[k])@ != s@,
    {
        if same(list[i].as_str(), s) {
            assert(views(list@)[i as int] == s@);
            return true;
        }
    }
    assert(!views(list@).contains(s@)) by {
        if views(list@).contains(s@) {
            let k = choose|k: int| 0 <= k < views(list@).len() && views(list@)[k] == s@;
            assert(list@[k]@ == s@);
        }
    }
    false
}

/// Is `a` the smaller code point?
pub fn char_before(a: char, b: char) -> (r: bool)
    ensures
        r == ((a as int) < (b as int)),
{
    (a as u32) < (b as u32)
}

/// Is `a` before `b` in the order of texts?
pub fn before(a: &str, b: &str) -> (r: bool)
    ensures
        r == text_lt(a@, b@),
{
    let x = chars_of(a);
    let y = chars_of(b);
    let mut i: usize = 0;
    assert(x@.skip(0) =~= x@);
    assert(y@.skip(0) =~= y@);
    while i < x.len() && i < y.len()
        invariant
            x@ == a@,
            y@ == b@,
            i <= x@.len(),
            i <= y@.len(),
            text_lt(x@, y@) == text_lt(x@.skip(i as int), y@.skip(i as int)),
        decreases x.len() - i,
    {
        let ghost xs = x@.skip(i as int);
        let ghost ys = y@.skip(i as int);
        assert(xs[0] == x@[i as int] && ys[0] == y@[i as int]);
        if x[i] != y[i] {
            return char_before(x[i], y[i]);
        }
        assert(xs.drop_first() =~= x@.skip(i + 1));
        assert(ys.drop_first() =~= y@.skip(i + 1));
        i += 1;
    }
    i == x.len() && i < y.len()
}

/// The pieces of `s` between occurrences of `sep`.
pub fn split_text(s: &str, sep: char) -> (r: Vec<String>)
    ensures
        views(r@) == split(s@, sep),
{
    let chars = chars_of(s);
    let mut r: Vec<String> = Vec::new();
    let mut piece = String::new();
    let mut i: usize = 0;
    assert(views(r@).push(piece@) =~= split(chars@.take(0), sep));
    while i < chars.len()
        invariant
            i <= chars@.len(),
            views(r@).push(piece@) == split(chars@.take(i as int), sep),
        decreases chars.len() - i,
    {
        assert(chars@.take(i + 1).drop_last() =~= chars@.take(i as int));
        let ghost done = views(r@).push(piece@);
        if chars[i] == sep {
            let ghost old_r = r@;
            r.push(piece);
            piece = String::new();
            assert(views(r@) =~= done);
            assert(views(r@).push(piece@) =~= done.push(Seq::<char>::empty()));
        } else {
            let ghost p = piece@;
            piece.push(chars[i]);
            assert(done.last() == p);
            assert(views(r@).push(piece@) =~= done.update(done.len() - 1, p.push(chars@[i as int])));
        }
        i += 1;
    }
    assert(chars@.take(i as int) =~= s@);
    let ghost done = views(r@).push(piece@);
    r.push(piece);
    assert(views(r@) =~= done);
    r
}

/// `parts` with `sep` between neighbours.
pub fn join_texts(parts: &[String], sep: &str) -> (r: String)
    ensures
        r@ == join(views(parts@), sep@),
{
    let mut r = String::new();
    let mut i: usize = 0;
    while i < parts.len()
        invariant
            i <= parts@.len(),
            r@ == join(views(parts@).take(i as int), sep@),
        decreases parts.len() - i,
    {
        let ghost vs = views(parts@);
        assert(vs.take(i + 1).drop_last() =~= vs.take(i as int));
        if i > 0 {
            r.append(sep);
        }
        r.append(parts[i].as_str());
        if i == 0 {
            assert(r@ =~= vs[0]);
        }
        i += 1;
    }
    assert(views(parts@).take(i as int) =~= views(parts@));
    r
}

/// `n` in decimal.
pub fn decimal_text(n: u128) -> (r: String)
    ensures
        r@ == decimal(n as nat),
    decreases n,
{
    let mut r = if n < 10 { String::new() } else { decimal_text(n / 10) };
    let d: u128 = n % 10;
    let c = if d == 0 { '0' } else if d == 1 { '1' } else if d == 2 { '2' } else if d == 3 { '3' }
        else if d == 4 { '4' } else if d == 5 { '5' } else if d == 6 { '6' } else if d == 7 { '7' }
        else if d == 8 { '8' } else { '9' };
    r.push(c);
    assert(r@ =~= decimal(n as nat));
    r
}

/// Does `s` begin with `pat`?
pub fn has_prefix(s: &str, pat: &str) -> (r: bool)
    ensures
        r == starts_with(s@, pat@),
{
    let a = chars_of(s);
    let b = chars_of(pat);
    matches_at(&a, &b, 0)
}

/// Does `pat` stand in `s` at position `at`?
pub fn matches_at(s: &[char], pat: &[char], at: usize) -> (r: bool)
    ensures
        r == occurs_at(s@, pat@, at as int),
{
    if pat.len() > s.len() || at > s.len() - pat.len() {
        return false;
    }
    for i in 0..pat.len()
        invariant
            at + pat@.len() <= s@.len(),
            s@.len() <= usize::MAX,
            forall|k: int| 0 <= k < i ==> s@[at + k] == pat@[k],
    {
        if s[at + i] != pat[i] {
            assert(s@.subrange(at as int, at + pat@.len())[i as int] != pat@[i as int]);
            return false;
        }
    }
    assert(s@.subrange(at as int, at + pat@.len()) =~= pat@);
    true
}

/// The first position at or after `from` where `pat` occurs.
pub fn find_from(s: &[char], pat: &[char], from: usize) -> (r: Option<usize>)
    requires
        from <= s@.len(),
    ensures
        match r {
            Some(i) => i == occurrence_from(s@, pat@, from as int) && occurs_at(s@, pat@, i as int),
            None => occurrence_from(s@, pat@, from as int) == -1,
        },
{
    let mut i: usize = from;
    while i < s.len()
        invariant
            from <= i <= s@.len(),
            occurrence_from(s@, pat@, from as int) == occurrence_from(s@, pat@, i as int),
        decreases s.len() - i,
    {
        if matches_at(s, pat, i) {
            return Some(i);
        }
        i += 1;
    }
    if matches_at(s, pat, i) {
        return Some(i);
    }
    assert(occurrence_from(s@, pat@, s@.len() as int + 1) == -1);
    None
}

/// Does `pat` occur anywhere in `s`?
pub fn has_text(s: &str, pat: &str) -> (r: bool)
    ensures
        r == contains_text(s@, pat@),
{
    let a = chars_of(s);
    let b = chars_of(pat);
    let mut i: usize = 0;
    while i <= a.len()
        invariant
            a@ == s@,
            b@ == pat@,
            forall|k: int| 0 <= k < i ==> !#[trigger] occurs_at(s@, pat@, k),
            i <= a@.len() + 1,
        decreases a.len() + 1 - i,
    {
        if matches_at(&a, &b, i) {
            return true;
        }
        if i == a.len() {
            return false;
        }
        i += 1;
    }
    false
}

/// A character with the Unicode property White_Space?
pub fn space(c: char) -> (r: bool)
    ensures
        r == is_space(c),
{
    let u: u32 = c as u32;
    (0x09 <= u && u <= 0x0d) || u == 0x20 || u == 0x85 || u == 0xa0 || u == 0x1680 || (0x2000 <= u
        && u <= 0x200a) || u == 0x2028 || u == 0x2029 || u == 0x202f || u == 0x205f || u == 0x3000
}

/// Is `s` nothing but white space?
pub fn blank(s: &str) -> (r: bool)
    ensures
        r == is_blank(s@),
{
    let a = chars_of(s);
    for i in 0..a.len()
        invariant
            a@ == s@,
            forall|k: int| 0 <= k < i ==> is_space(#[trigger] s@[k]),
    {
        if !space(a[i]) {
            assert(!is_space(s@[i as int]));
            return false;
        }
    }
    true
}

/// `s` without white space at either end.
pub fn trimmed(s: &str) -> (r: String)
    ensures
        r@ == trim(s@),
{
    let a = chars_of(s);
    let mut from: usize = 0;
    assert(a@.skip(0) =~= a@);
    while from < a.len() && space(a[from])
        invariant
            from <= a@.len(),
            trim_start(a@) == trim_start(a@.skip(from as int)),
        decreases a.len() - from,
    {
        assert(a@.skip(from as int).drop_first() =~= a@.skip(from + 1));
        from += 1;
    }
    assert(trim_start(a@) == a@.skip(from as int));
    let ghost t = a@.skip(from as int);
    let mut to: usize = a.len();
    assert(a@.subrange(from as int, to as int) =~= t);
    while from < to && space(a[to - 1])
        invariant
            from <= to <= a@.len(),
            trim_end(t) == trim_end(a@.subrange(from as int, to as int)),
        decreases to - from,
    {
        assert(a@.subrange(from as int, to as int).drop_last() =~= a@.subrange(
            from as int,
            to - 1,
        ));
        to -= 1;
    }
    text_of(&a, from, to)
}

/// The lines of `s`.
pub fn lines_of(s: &str) -> (r: Vec<String>)
    ensures
        views(r@) == lines(s@),
{
    let pieces = split_text(s, '\n');
    let ghost ps = split(s@, '\n');
    proof {
        lemma_split_nonempty(s@, '\n');
    }
    let n: usize = pieces.len() - 1;
    let mut r: Vec<String> = Vec::new();
    for i in 0..n
        invariant
            views(pieces@) == ps,
            n == pieces@.len() - 1,
            views(r@) == Seq::new(i as nat, |k: int| without_cr(ps[k])),
    {
        let chars = chars_of(pieces[i].as_str());
        assert(chars@ == ps[i as int]);
        let to = if chars.len() > 0 && chars[chars.len() - 1] == '\r' {
            chars.len() - 1
        } else {
            chars.len()
        };
        let line = text_of(&chars, 0, to);
        assert(line@ =~= without_cr(ps[i as int]));
        let ghost before = views(r@);
        r.push(line);
        assert(views(r@) =~= before.push(line@));
        assert(views(r@) =~= Seq::new((i + 1) as nat, |k: int| without_cr(ps[k])));
    }
    assert(pieces@[n as int]@ == ps[n as int]);
    if !pieces[n].as_str().is_empty() {
        let ghost before = views(r@);
        r.push(pieces[n].clone());
        assert(views(r@) =~= before.push(ps[n as int]));
    }
    r
}

/// Something that is read as text.
pub trait Text {
    /// Its text.
    spec fn text(&self) -> Seq<char>;

    /// Its text.
    fn as_text(&self) -> (r: &str)
        ensures
            r@ == self.text(),
    ;
}

impl Text for String {
    open spec fn text(&self) -> Seq<char> {
        self@
    }

    fn as_text(&self) -> (r: &str) {
        self.as_str()
    }
}

impl<'a> Text for &'a str {
    open spec fn text(&self) -> Seq<char> {
        (*self)@
    }

    fn as_text(&self) -> (r: &str) {
        *self
    }
}

/// The texts of a list.
pub open spec fn texts<S: Text>(v: Seq<S>) -> Seq<Seq<char>> {
    Seq::new(v.len(), |i: int| v[i].text())
}

/// Is `s` the text of one of `list`?
pub fn listed<S: Text>(list: &[S], s: &str) -> (r: bool)
    ensures
        r == texts(list@).contains(s@),
{
    for i in 0..list.len()
        invariant
            forall|k: int| 0 <= k < i ==> (#[trigger] list@[k]).text() != s@,
    {
        if same(list[i].as_text(), s) {
            assert(texts(list@)[i as int] == s@);
            return true;
        }
    }
    assert(!texts(list@).contains(s@)) by {
        if texts(list@).contains(s@) {
            let k = choose|k: int| 0 <= k < texts(list@).len() && texts(list@)[k] == s@;
            assert(list@[k].text() == s@);
        }
    }
    false
}

/// The texts of strings are their views.
pub proof fn lemma_texts_of_strings(v: Seq<String>)
    ensures
        texts(v) == views(v),
{
    assert(texts(v) =~= views(v));
}

/// The text of an optional string.
pub open spec fn opt_text(o: Option<String>) -> Option<Seq<char>> {
    match o {
        Some(s) => Some(s@),
        None => None,
    }
}

/// A copy of an optional string.
pub fn clone_opt(o: &Option<String>) -> (r: Option<String>)
    ensures
        opt_text(r) == opt_text(*o),
{
    match o {
        Some(s) => Some(s.clone()),
        None => None,
    }
}

// ---------------------------------------------------------------------
// Laws
// ---------------------------------------------------------------------

/// A text is split at every separator and nowhere else: joined with the
/// separator the pieces give it back, and none of them holds one.
pub proof fn law_split(s: Seq<char>, sep: char)
    ensures
        join(split(s, sep), seq![sep]) == s,
        forall|i: int| 0 <= i < split(s, sep).len() ==> !(#[trigger] split(s, sep)[i]).contains(sep),
    decreases s.len(),
{
    lemma_split_nonempty(s, sep);
    if s.len() == 0 {
        assert(split(s, sep)[0].len() == 0);
        assert(join(split(s, sep), seq![sep]) =~= s);
    } else {
        let init = split(s.drop_last(), sep);
        let all = split(s, sep);
        law_split(s.drop_last(), sep);
        lemma_split_nonempty(s.drop_last(), sep);
        if s.last() == sep {
            assert(all.drop_last() =~= init);
            assert(join(all, seq![sep]) =~= s);
            assert forall|i: int| 0 <= i < all.len() implies !(#[trigger] all[i]).contains(sep) by {
                if i < init.len() {
                    assert(all[i] == init[i]);
                }
            }
        } else {
            assert(all.drop_last() =~= init.drop_last());
            if init.len() == 1 {
                assert(join(init, seq![sep]) == init[0]);
                assert(join(all, seq![sep]) =~= s);
            } else {
                let one = seq![sep];
                assert(join(init, one) == join(init.drop_last(), one) + one + init.last());
                assert(all.last() == init.last().push(s.last()));
                assert(join(all, one) == join(init.drop_last(), one) + one + all.last());
                assert(join(all, one) =~= join(init, one).push(s.last()));
                assert(join(all, one) =~= s);
            }
            assert forall|i: int| 0 <= i < all.len() implies !(#[trigger] all[i]).contains(sep) by {
                assert(!init[i].contains(sep));
                if i == init.len() - 1 && all[i].contains(sep) {
                    let k = choose|k: int| 0 <= k < all[i].len() && all[i][k] == sep;
                    assert(k < init[i].len());
                    assert(init[i][k] == sep);
                }
            }
        }
    }
}

/// Trimming takes the spaces at both ends and nothing else.
pub proof fn law_trim(s: Seq<char>)
    ensures
        exists|a: Seq<char>, b: Seq<char>|
            s == #[trigger] (a + trim(s) + b) && is_blank(a) && is_blank(b),
        trim(s).len() > 0 ==> !is_space(trim(s)[0]) && !is_space(trim(s).last()),
{
    law_trim_start(s);
    let t = trim_start(s);
    let a = choose|a: Seq<char>| s == #[trigger] (a + t) && is_blank(a);
    lemma_trim_end(t);
    let b = choose|b: Seq<char>| t == #[trigger] (trim_end(t) + b) && is_blank(b);
    assert(s =~= a + trim(s) + b);
    if trim(s).len() > 0 {
        assert(trim(s)[0] == t[0]);
    }
}

/// Trimming the start takes the spaces there and nothing else.
pub proof fn law_trim_start(s: Seq<char>)
    ensures
        exists|a: Seq<char>| s == #[trigger] (a + trim_start(s)) && is_blank(a),
        trim_start(s).len() > 0 ==> !is_space(trim_start(s)[0]),
    decreases s.len(),
{
    if s.len() > 0 && is_space(s[0]) {
        law_trim_start(s.drop_first());
        let t = trim_start(s.drop_first());
        let rest = s.drop_first();
        let a = choose|a: Seq<char>| rest == #[trigger] (a + t) && is_blank(a);
        let whole = seq![s[0]] + a;
        assert(s =~= seq![s[0]] + rest);
        assert(whole + t =~= seq![s[0]] + (a + t));
        assert(is_blank(whole));
        assert(s == whole + trim_start(s));
    } else {
        let none = Seq::<char>::empty();
        assert(is_blank(none));
        assert(s =~= none + trim_start(s));
    }
}

proof fn lemma_trim_end(s: Seq<char>)
    ensures
        exists|b: Seq<char>| s == #[trigger] (trim_end(s) + b) && is_blank(b),
        trim_end(s).len() > 0 ==> !is_space(trim_end(s).last()),
    decreases s.len(),
{
    if s.len() > 0 && is_space(s.last()) {
        lemma_trim_end(s.drop_last());
        let t = trim_end(s.drop_last());
        let rest = s.drop_last();
        let b = choose|b: Seq<char>| rest == #[trigger] (t + b) && is_blank(b);
        let whole = b.push(s.last());
        assert(s =~= rest.push(s.last()));
        assert(t + whole =~= (t + b).push(s.last()));
        assert(is_blank(whole));
        assert(s == trim_end(s) + whole);
    } else {
        let none = Seq::<char>::empty();
        assert(is_blank(none));
        assert(s =~= trim_end(s) + none);
    }
}

/// Lines end at a line feed, which takes a carriage return before it along; a
/// text without one is a line itself, unless it is empty.
pub proof fn law_lines(a: Seq<char>, b: Seq<char>)
    requires
        !a.contains('\n'),
    ensures
        a.len() > 0 ==> lines(a) == seq![a],
        lines(Seq::empty()).len() == 0,
        lines(a.push('\n') + b) == seq![
            if a.len() > 0 && a.last() == '\r' { a.take(a.len() - 1) } else { a },
        ] + lines(b),
{
    lemma_split_single(a, '\n');
    lemma_split_concat(a, b, '\n');
    lemma_split_nonempty(b, '\n');
    let e = Seq::<char>::empty();
    assert(!e.contains('\n'));
    lemma_split_single(e, '\n');
    assert(lines(a) =~= if a.len() > 0 { seq![a] } else { seq![] });
    assert(lines(e) =~= seq![]);
    let first = if a.len() > 0 && a.last() == '\r' { a.take(a.len() - 1) } else { a };
    assert(without_cr(a) =~= first);
    assert(split(a.push('\n') + b, '\n') =~= seq![a] + split(b, '\n'));
    assert(lines(a.push('\n') + b) =~= seq![first] + lines(b));
}

/// What is found is the first occurrence from where the search began.
pub proof fn law_first_occurrence(s: Seq<char>, pat: Seq<char>, from: int)
    requires
        0 <= from,
    ensures
        ({
            let at = occurrence_from(s, pat, from);
            &&& at == -1 || (at >= from && occurs_at(s, pat, at))
            &&& forall|k: int|
                from <= k && #[trigger] occurs_at(s, pat, k) ==> at != -1 && at <= k
        }),
    decreases s.len() + 1 - from,
{
    if from <= s.len() && !occurs_at(s, pat, from) {
        law_first_occurrence(s, pat, from + 1);
    }
}

/// A text occurs in another where that one is something, the text, and
/// something more.
pub proof fn law_contains_text(s: Seq<char>, pat: Seq<char>)
    ensures
        contains_text(s, pat) <==> exists|a: Seq<char>, b: Seq<char>|
            s == #[trigger] (a + pat + b),
        starts_with(s, pat) <==> exists|b: Seq<char>| s == #[trigger] (pat + b),
{
    if contains_text(s, pat) {
        let i = choose|i: int| #[trigger] occurs_at(s, pat, i);
        assert(s =~= s.take(i) + s.subrange(i, i + pat.len()) + s.skip(i + pat.len()));
        assert(s == s.take(i) + pat + s.skip(i + pat.len()));
    }
    if exists|a: Seq<char>, b: Seq<char>| s == #[trigger] (a + pat + b) {
        let (a, b) = choose|a: Seq<char>, b: Seq<char>| s == #[trigger] (a + pat + b);
        assert(s.subrange(a.len() as int, (a.len() + pat.len()) as int) =~= pat);
        assert(occurs_at(s, pat, a.len() as int));
    }
    if starts_with(s, pat) {
        assert(s =~= s.subrange(0, pat.len() as int) + s.skip(pat.len() as int));
        assert(s == pat + s.skip(pat.len() as int));
    }
    if exists|b: Seq<char>| s == #[trigger] (pat + b) {
        let b = choose|b: Seq<char>| s == #[trigger] (pat + b);
        assert(s.subrange(0, pat.len() as int) =~= pat);
    }
}

/// The number that a text of digits stands for.
pub open spec fn value_of(s: Seq<char>) -> int {
    s.fold_left(0, |v: int, c: char| v * 10 + (c as int - '0' as int))
}

/// A number is written in digits that stand for it, without a leading zero.
pub proof fn law_decimal(n: nat)
    ensures
        decimal(n).len() > 0,
        value_of(decimal(n)) == n,
        forall|i: int| 0 <= i < decimal(n).len() ==> '0' <= #[trigger] decimal(n)[i] <= '9',
        n > 0 ==> decimal(n)[0] != '0',
    decreases n,
{
    let f = |v: int, c: char| v * 10 + (c as int - '0' as int);
    assert(value_of(decimal(n)) == decimal(n).fold_left(0, f));
    if n >= 10 {
        law_decimal(n / 10);
        let init = decimal(n / 10);
        assert(decimal(n).drop_last() =~= init);
        assert(decimal(n).last() == digit(n % 10));
        assert(decimal(n).fold_left(0, f) == f(init.fold_left(0, f), digit(n % 10)));
        assert(value_of(init) == init.fold_left(0, f));
        assert(digit(n % 10) as int - '0' as int == n % 10);
        assert(decimal(n)[0] == init[0]);
        assert forall|i: int| 0 <= i < decimal(n).len() implies '0' <= #[trigger] decimal(n)[i]
            <= '9' by {
            if i < init.len() {
                assert(decimal(n)[i] == init[i]);
            }
        }
    } else {
        assert(decimal(n).drop_last() =~= Seq::<char>::empty());
        assert(decimal(n).drop_last().fold_left(0, f) == 0);
        assert(decimal(n).last() == digit(n));
        assert(digit(n) as int - '0' as int == n);
    }
}

/// Where two texts part: at `k` the first is over, or has the smaller
/// character.
pub open spec fn parts_below(a: Seq<char>, b: Seq<char>, k: int) -> bool {
    &&& 0 <= k <= a.len()
    &&& k < b.len()
    &&& a.take(k) == b.take(k)
    &&& k == a.len() || (a[k] as int) < (b[k] as int)
}

/// Texts are ordered by the first character in which they differ, and a text
/// comes before what goes on from it.
pub proof fn law_text_order(a: Seq<char>, b: Seq<char>)
    ensures
        text_lt(a, b) <==> exists|k: int| #[trigger] parts_below(a, b, k),
    decreases a.len(),
{
    if b.len() > 0 && a.len() > 0 && a[0] == b[0] {
        let (x, y) = (a.drop_first(), b.drop_first());
        law_text_order(x, y);
        if text_lt(a, b) {
            let k = choose|k: int| #[trigger] parts_below(x, y, k);
            assert(a.take(k + 1) =~= seq![a[0]] + x.take(k));
            assert(b.take(k + 1) =~= seq![b[0]] + y.take(k));
            assert(parts_below(a, b, k + 1));
        }
        if exists|k: int| #[trigger] parts_below(a, b, k) {
            let k = choose|k: int| #[trigger] parts_below(a, b, k);
            assert(k > 0);
            assert(x.take(k - 1) =~= a.take(k).drop_first());
            assert(y.take(k - 1) =~= b.take(k).drop_first());
            assert(parts_below(x, y, k - 1));
        }
    } else if b.len() > 0 {
        assert(a.take(0) =~= b.take(0));
        if text_lt(a, b) {
            assert(parts_below(a, b, 0));
        }
        if exists|k: int| #[trigger] parts_below(a, b, k) {
            let k = choose|k: int| #[trigger] parts_below(a, b, k);
            if k > 0 {
                assert(a.take(k)[0] == b.take(k)[0]);
            }
        }
    }
}

} // verus!
