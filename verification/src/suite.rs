//! From a module tree to a test suite: which functions are cases, what they
//! are called, which marks they carry, and what the inventory records.
//!
//! The tree is a plain description of the source: names, attributes and
//! their arguments. Names follow the module path, with `_` as `-`; marks
//! inherit down the tree, and per feature the nearest declaration wins.

use vstd::prelude::*;

use crate::feature::{mark_fault, mark_fault_text, mark_set_fault, mark_text, MarkView};
use crate::name::{
    fault_text, is_under, is_wit_label, label_fault, name_fault, under, CaseName,
};
use crate::schedule::opt_str;
use crate::tags::{
    clone_tags, marks_of, tag_views, tags_fault_text, unpaired, unpaired_positive_features, Tag,
    Tags,
};
use crate::text::{
    among, byte_len, bytes_in, chars_of, clone_texts, join, join_texts, opt_text, owned, same,
    split, split_text, views,
};

verus! {

// ---------------------------------------------------------------------
// The tree
// ---------------------------------------------------------------------

/// What an attribute says in its brackets.
#[derive(Debug)]
pub struct AttrArgs {
    pub name: Option<String>,
    pub prefix: Option<String>,
    pub tags: Vec<String>,
}

/// An attribute: its path, and its arguments or why they cannot be read.
#[derive(Debug)]
pub struct Attribute {
    pub path: Vec<String>,
    pub args: Result<AttrArgs, String>,
}

/// A function of the tree. `id` tells it from the other items.
#[derive(Debug)]
pub struct FnItem {
    pub id: usize,
    pub ident: String,
    pub attrs: Vec<Attribute>,
    pub is_async: bool,
    /// How many parameters it has.
    pub inputs: usize,
}

/// A module of the tree; one without an inline body has no items.
#[derive(Debug)]
pub struct ModItem {
    pub id: usize,
    pub ident: String,
    pub attrs: Vec<Attribute>,
    pub items: Option<Vec<SuiteItem>>,
}

/// An item of the tree.
#[derive(Debug)]
pub enum SuiteItem {
    Module(ModItem),
    Function(FnItem),
    Other,
}

/// What an error points at.
#[derive(Debug, Clone, Copy, PartialEq, Eq, Structural)]
pub enum Place {
    /// The whole item.
    Item(usize),
    /// The item's name.
    Ident(usize),
    /// The function's signature.
    Signature(usize),
    /// One of the item's attributes.
    Attr(usize, usize),
    /// The suite as a whole.
    Suite,
}

/// Why a tree is no suite, and where.
#[derive(Debug)]
pub struct SuiteError {
    pub place: Place,
    pub message: String,
}

/// A [`SuiteError`] over texts.
#[verifier::ext_equal]
pub struct SuiteFault {
    pub place: Place,
    pub message: Seq<char>,
}

impl View for SuiteError {
    type V = SuiteFault;

    open spec fn view(&self) -> SuiteFault {
        SuiteFault { place: self.place, message: self.message@ }
    }
}

fn error(place: Place, message: String) -> (r: SuiteError)
    ensures
        r@ == (SuiteFault { place, message: message@ }),
{
    SuiteError { place, message }
}

/// Does the attribute have exactly this name?
pub open spec fn is_named(a: Attribute, name: Seq<char>) -> bool {
    a.path@.len() == 1 && a.path@[0]@ == name
}

/// The last part of the attribute's path.
pub open spec fn last_part(a: Attribute) -> Seq<char> {
    if a.path@.len() == 0 { Seq::empty() } else { a.path@.last()@ }
}

/// The first attribute from the `i`-th on with that name, or their number.
pub open spec fn find_named(attrs: Seq<Attribute>, name: Seq<char>, i: int) -> int
    decreases attrs.len() - i,
{
    if i < 0 || i >= attrs.len() || is_named(attrs[i], name) {
        i
    } else {
        find_named(attrs, name, i + 1)
    }
}

/// Is there an attribute with that name?
pub open spec fn has_named(attrs: Seq<Attribute>, name: Seq<char>) -> bool {
    find_named(attrs, name, 0) < attrs.len()
}

fn named(a: &Attribute, name: &str) -> (r: bool)
    ensures
        r == is_named(*a, name@),
{
    a.path.len() == 1 && same(a.path[0].as_str(), name)
}

fn position_named(attrs: &[Attribute], name: &str) -> (r: Option<usize>)
    ensures
        match r {
            Some(i) => i < attrs@.len() && i == find_named(attrs@, name@, 0) && is_named(
                attrs@[i as int],
                name@,
            ),
            None => !has_named(attrs@, name@),
        },
{
    let mut i: usize = 0;
    while i < attrs.len()
        invariant
            i <= attrs@.len(),
            find_named(attrs@, name@, 0) == find_named(attrs@, name@, i as int),
        decreases attrs.len() - i,
    {
        if named(&attrs[i], name) {
            return Some(i);
        }
        i += 1;
    }
    None
}

// ---------------------------------------------------------------------
// Names
// ---------------------------------------------------------------------

/// A name without the marks of a raw identifier before it.
pub open spec fn without_raw(s: Seq<char>) -> Seq<char>
    decreases s.len(),
{
    if s.len() >= 2 && s[0] == 'r' && s[1] == '#' { without_raw(s.skip(2)) } else { s }
}

/// The segment that an identifier stands for: `_` becomes `-`.
pub open spec fn segment_of(ident: Seq<char>) -> Seq<char> {
    let s = without_raw(ident);
    Seq::new(s.len(), |i: int| if s[i] == '_' { '-' } else { s[i] })
}

/// The segment that an identifier stands for.
pub fn ident_to_segment(ident: &str) -> (r: String)
    ensures
        r@ == segment_of(ident@),
{
    let s = chars_of(ident);
    let mut from: usize = 0;
    assert(s@.skip(0) =~= s@);
    while s.len() - from >= 2 && s[from] == 'r' && s[from + 1] == '#'
        invariant
            from <= s@.len(),
            s@ == ident@,
            without_raw(ident@) == without_raw(s@.skip(from as int)),
        decreases s.len() - from,
    {
        let ghost rest = s@.skip(from as int);
        assert(rest[0] == s@[from as int] && rest[1] == s@[from + 1]);
        assert(rest.skip(2) =~= s@.skip(from + 2));
        from += 2;
    }
    let ghost rest = s@.skip(from as int);
    proof {
        if rest.len() >= 2 {
            assert(rest[0] == s@[from as int] && rest[1] == s@[from + 1]);
        }
    }
    assert(without_raw(ident@) == rest);
    let mut r = String::new();
    let mut i: usize = from;
    assert(r@ =~= segment_of(ident@).take(0));
    while i < s.len()
        invariant
            from <= i <= s@.len(),
            rest == s@.skip(from as int),
            without_raw(ident@) == rest,
            r@ == segment_of(ident@).take(i - from),
        decreases s.len() - i,
    {
        assert(rest[i - from] == s@[i as int]);
        let c = if s[i] == '_' { '-' } else { s[i] };
        r.push(c);
        assert(segment_of(ident@).take(i + 1 - from) =~= segment_of(ident@).take(i - from).push(c));
        i += 1;
    }
    assert(segment_of(ident@).take(i - from) =~= segment_of(ident@));
    r
}

/// A segment under a prefix; the top of an unrooted suite has none.
pub open spec fn name_under(prefix: Seq<char>, segment: Seq<char>) -> Seq<char> {
    if prefix.len() == 0 { segment } else { prefix + "/"@ + segment }
}

/// A segment under a prefix; an empty prefix adds nothing.
pub fn join_name(prefix: &str, segment: &str) -> (r: String)
    ensures
        r@ == name_under(prefix@, segment@),
{
    if prefix.is_empty() {
        return owned(segment);
    }
    let mut r = owned(prefix);
    r.append("/");
    r.append(segment);
    r
}

// ---------------------------------------------------------------------
// Marks in scope
// ---------------------------------------------------------------------

/// The first of the marks from the `i`-th on that is none, as an error.
pub open spec fn level_fault(level: Seq<Seq<char>>, i: int) -> Option<Seq<char>>
    decreases level.len() - i,
{
    if i < 0 || i >= level.len() {
        None
    } else {
        match mark_fault(level[i]) {
            Some(f) => Some("invalid tag `"@ + level[i] + "`: "@ + mark_fault_text(f)),
            None => level_fault(level, i + 1),
        }
    }
}

/// What is wrong with one level of marks: one that is none, or two that
/// clash.
pub open spec fn merge_fault(level: Seq<Seq<char>>) -> Option<Seq<char>> {
    match level_fault(level, 0) {
        Some(f) => Some(f),
        None => match mark_set_fault(marks_of(level)) {
            Some(f) => Some(tags_fault_text(f)),
            None => None,
        },
    }
}

/// The marks that are not about the feature.
pub open spec fn without_feature(scope: Seq<MarkView>, feature: Seq<char>) -> Seq<MarkView>
    decreases scope.len(),
{
    if scope.len() == 0 {
        scope
    } else if scope.last().feature == feature {
        without_feature(scope.drop_last(), feature)
    } else {
        without_feature(scope.drop_last(), feature).push(scope.last())
    }
}

/// The scope with the first `n` marks of a level laid over it.
pub open spec fn overlaid(scope: Seq<MarkView>, level: Seq<MarkView>, n: int) -> Seq<MarkView>
    decreases n,
{
    if n <= 0 {
        scope
    } else {
        without_feature(overlaid(scope, level, n - 1), level[n - 1].feature).push(level[n - 1])
    }
}

/// The scope with a level laid over it: per feature the nearest
/// declaration wins whole.
pub open spec fn merged(scope: Seq<MarkView>, level: Seq<Seq<char>>) -> Seq<MarkView> {
    overlaid(scope, marks_of(level), level.len() as int)
}

fn parse_level(level: &[String]) -> (r: Result<Vec<Tag>, String>)
    ensures
        match r {
            Ok(v) => merge_fault(views(level@)) is None && tag_views(v@) == marks_of(views(level@)),
            Err(e) => merge_fault(views(level@)) == Some(e@),
        },
{
    let ghost ls = views(level@);
    let mut v: Vec<Tag> = Vec::new();
    let mut i: usize = 0;
    assert(tag_views(v@) =~= marks_of(ls).take(0));
    while i < level.len()
        invariant
            i <= level@.len(),
            ls == views(level@),
            tag_views(v@) == marks_of(ls).take(i as int),
            level_fault(ls, 0) == level_fault(ls, i as int),
        decreases level.len() - i,
    {
        assert(ls[i as int] == level@[i as int]@);
        match Tag::parse(level[i].as_str()) {
            Ok(t) => {
                let ghost was = tag_views(v@);
                let ghost tv = t@;
                v.push(t);
                assert(tag_views(v@) =~= was.push(tv));
                assert(marks_of(ls).take(i + 1) =~= marks_of(ls).take(i as int).push(tv));
            },
            Err(e) => {
                let mut m = owned("invalid tag `");
                m.append(level[i].as_str());
                m.append("`: ");
                m.append(e.to_string().as_str());
                return Err(m);
            },
        }
        i += 1;
    }
    assert(marks_of(ls).take(i as int) =~= marks_of(ls));
    match Tags::new(clone_tags(&v)) {
        Ok(_) => Ok(v),
        Err(e) => Err(e.to_string()),
    }
}

fn drop_feature(scope: &[Tag], feature: &str) -> (r: Vec<Tag>)
    ensures
        tag_views(r@) == without_feature(tag_views(scope@), feature@),
{
    let ghost s = tag_views(scope@);
    let mut r: Vec<Tag> = Vec::new();
    let mut i: usize = 0;
    assert(tag_views(r@) =~= without_feature(s.take(0), feature@));
    while i < scope.len()
        invariant
            i <= scope@.len(),
            s == tag_views(scope@),
            tag_views(r@) == without_feature(s.take(i as int), feature@),
        decreases scope.len() - i,
    {
        assert(s.take(i + 1).drop_last() =~= s.take(i as int));
        assert(s.take(i + 1).last() == scope@[i as int]@);
        if !same(scope[i].feature(), feature) {
            let ghost was = tag_views(r@);
            let t = scope[i].clone();
            let ghost tv = t@;
            r.push(t);
            assert(tag_views(r@) =~= was.push(tv));
        }
        i += 1;
    }
    assert(s.take(i as int) =~= s);
    r
}

/// Lay a level of marks over a scope.
fn merge_scope(scope: &[Tag], level: &[String], place: Place) -> (r: Result<Vec<Tag>, SuiteError>)
    ensures
        match r {
            Ok(v) => merge_fault(views(level@)) is None && tag_views(v@) == merged(
                tag_views(scope@),
                views(level@),
            ),
            Err(e) => merge_fault(views(level@)) == Some(e@.message) && e@.place == place,
        },
{
    let parsed = match parse_level(level) {
        Ok(v) => v,
        Err(e) => return Err(error(place, e)),
    };
    let ghost ms = marks_of(views(level@));
    let mut out = clone_tags(scope);
    let mut i: usize = 0;
    while i < parsed.len()
        invariant
            i <= parsed@.len(),
            ms == tag_views(parsed@),
            tag_views(out@) == overlaid(tag_views(scope@), ms, i as int),
        decreases parsed.len() - i,
    {
        assert(ms[i as int] == parsed@[i as int]@);
        let mut next = drop_feature(&out, parsed[i].feature());
        let ghost was = tag_views(next@);
        let t = parsed[i].clone();
        let ghost tv = t@;
        next.push(t);
        assert(tag_views(next@) =~= was.push(tv));
        out = next;
        i += 1;
    }
    Ok(out)
}

// ---------------------------------------------------------------------
// Collected cases
// ---------------------------------------------------------------------

/// A case of the suite.
#[derive(Debug)]
pub struct CaseDef {
    pub name: String,
    pub tags: Vec<Tag>,
    /// The path from the suite's root to the function.
    pub fn_path: Vec<String>,
    pub is_async: bool,
    pub has_ctx: bool,
    pub id: usize,
}

/// A generated row of the suite.
#[derive(Debug)]
pub struct GenDef {
    pub prefix: String,
    pub tags: Vec<Tag>,
    pub fn_path: Vec<String>,
    /// Does the function register its cases itself?
    pub is_row: bool,
    pub id: usize,
}

/// A [`CaseDef`] over texts.
#[verifier::ext_equal]
pub struct CaseDefView {
    pub name: Seq<char>,
    pub tags: Seq<MarkView>,
    pub fn_path: Seq<Seq<char>>,
    pub is_async: bool,
    pub has_ctx: bool,
    pub id: usize,
}

/// A [`GenDef`] over texts.
#[verifier::ext_equal]
pub struct GenDefView {
    pub prefix: Seq<char>,
    pub tags: Seq<MarkView>,
    pub fn_path: Seq<Seq<char>>,
    pub is_row: bool,
    pub id: usize,
}

impl View for CaseDef {
    type V = CaseDefView;

    open spec fn view(&self) -> CaseDefView {
        CaseDefView {
            name: self.name@,
            tags: tag_views(self.tags@),
            fn_path: views(self.fn_path@),
            is_async: self.is_async,
            has_ctx: self.has_ctx,
            id: self.id,
        }
    }
}

impl View for GenDef {
    type V = GenDefView;

    open spec fn view(&self) -> GenDefView {
        GenDefView {
            prefix: self.prefix@,
            tags: tag_views(self.tags@),
            fn_path: views(self.fn_path@),
            is_row: self.is_row,
            id: self.id,
        }
    }
}

/// The views of a list of cases.
pub open spec fn case_defs(v: Seq<CaseDef>) -> Seq<CaseDefView> {
    Seq::new(v.len(), |i: int| v[i]@)
}

/// The views of a list of rows.
pub open spec fn gen_defs(v: Seq<GenDef>) -> Seq<GenDefView> {
    Seq::new(v.len(), |i: int| v[i]@)
}

/// What has been collected so far.
#[verifier::ext_equal]
pub struct Collected {
    pub cases: Seq<CaseDefView>,
    pub gens: Seq<GenDefView>,
}

/// Is the attribute one of another test harness?
pub open spec fn is_foreign(word: Seq<char>) -> bool {
    word == "test"@ || word == "rstest"@ || word == "test_case"@ || word == "bench"@
}

/// The first attribute from the `i`-th on of another test harness, or their
/// number.
pub open spec fn find_foreign(attrs: Seq<Attribute>, i: int) -> int
    decreases attrs.len() - i,
{
    if i < 0 || i >= attrs.len() || is_foreign(last_part(attrs[i])) {
        i
    } else {
        find_foreign(attrs, i + 1)
    }
}

/// Is the item subject to conditional compilation?
pub open spec fn is_gated(attrs: Seq<Attribute>) -> bool {
    has_named(attrs, "cfg"@) || has_named(attrs, "cfg_attr"@)
}

/// The error on an item subject to conditional compilation.
pub open spec fn gated_text() -> Seq<char> {
    "#[suite] items may not be cfg-gated: the inventory (and its lockfile) must not depend on build configuration"@
}

/// The position of the attribute that makes a function a row, and whether
/// it registers its cases itself: the first of either kind.
pub open spec fn find_row_attr(attrs: Seq<Attribute>) -> Option<(int, bool)> {
    let g = find_named(attrs, "case_generator"@, 0);
    let w = find_named(attrs, "case_row"@, 0);
    if g < attrs.len() && g <= w {
        Some((g, false))
    } else if w < attrs.len() {
        Some((w, true))
    } else {
        None
    }
}

/// What is wrong with a function before its attribute is looked at.
pub open spec fn fn_fault(f: FnItem) -> Option<SuiteFault> {
    let foreign = find_foreign(f.attrs@, 0);
    let collected = has_named(f.attrs@, "case"@) || has_named(f.attrs@, "case_generator"@)
        || has_named(f.attrs@, "case_row"@);
    if foreign < f.attrs@.len() {
        Some(
            SuiteFault {
                place: Place::Attr(f.id, foreign as usize),
                message: "`#["@ + last_part(f.attrs@[foreign])
                    + "]` inside a #[suite] module registers nothing (the case would be silently dropped): did you mean #[case]?"@,
            },
        )
    } else if collected && is_gated(f.attrs@) {
        Some(SuiteFault { place: Place::Item(f.id), message: gated_text() })
    } else if collected && !has_named(f.attrs@, "case_row"@) && f.inputs > 1 {
        Some(
            SuiteFault {
                place: Place::Signature(f.id),
                message: "#[case] functions take no arguments or exactly one (`ctx: &TestContext`)"@,
            },
        )
    } else {
        None
    }
}

/// The view of attribute arguments that can be read.
pub open spec fn args_tags(a: Attribute) -> Seq<Seq<char>> {
    views(a.args->Ok_0.tags@)
}

/// What a function does to what has been collected.
pub open spec fn fn_step(
    c: Collected,
    f: FnItem,
    prefix: Seq<char>,
    path: Seq<Seq<char>>,
    scope: Seq<MarkView>,
) -> Result<Collected, SuiteFault> {
    let at = find_named(f.attrs@, "case"@, 0);
    if fn_fault(f) is Some {
        Err(fn_fault(f)->0)
    } else if at < f.attrs@.len() {
        let a = f.attrs@[at];
        match a.args {
            Err(e) => Err(SuiteFault { place: Place::Attr(f.id, at as usize), message: e@ }),
            Ok(args) => match merge_fault(args_tags(a)) {
                Some(e) => Err(SuiteFault { place: Place::Item(f.id), message: e }),
                None => Ok(
                    Collected {
                        cases: c.cases.push(
                            CaseDefView {
                                name: name_under(
                                    prefix,
                                    match args.name {
                                        Some(n) => n@,
                                        None => segment_of(f.ident@),
                                    },
                                ),
                                tags: merged(scope, args_tags(a)),
                                fn_path: path.push(f.ident@),
                                is_async: f.is_async,
                                has_ctx: f.inputs > 0,
                                id: f.id,
                            },
                        ),
                        ..c
                    },
                ),
            },
        }
    } else {
        match find_row_attr(f.attrs@) {
            None => Ok(c),
            Some((row, is_row)) => {
                let a = f.attrs@[row];
                match a.args {
                    Err(e) => Err(
                        SuiteFault { place: Place::Attr(f.id, row as usize), message: e@ },
                    ),
                    Ok(args) => match merge_fault(args_tags(a)) {
                        Some(e) => Err(SuiteFault { place: Place::Item(f.id), message: e }),
                        None => match args.prefix {
                            None => Err(
                                SuiteFault {
                                    place: Place::Item(f.id),
                                    message: "#[case_generator]/#[case_row] requires prefix = \"...\""@,
                                },
                            ),
                            Some(p) => Ok(
                                Collected {
                                    gens: c.gens.push(
                                        GenDefView {
                                            prefix: name_under(prefix, p@),
                                            tags: merged(scope, args_tags(a)),
                                            fn_path: path.push(f.ident@),
                                            is_row,
                                            id: f.id,
                                        },
                                    ),
                                    ..c
                                },
                            ),
                        },
                    },
                }
            },
        }
    }
}

/// What an item does to what has been collected.
pub open spec fn item_step(
    c: Collected,
    item: SuiteItem,
    prefix: Seq<char>,
    path: Seq<Seq<char>>,
    scope: Seq<MarkView>,
) -> Result<Collected, SuiteFault>
    decreases item, 0int,
{
    match item {
        SuiteItem::Other => Ok(c),
        SuiteItem::Function(f) => fn_step(c, f, prefix, path, scope),
        SuiteItem::Module(m) => {
            let at = find_named(m.attrs@, "cases"@, 0);
            let level = if at < m.attrs@.len() {
                match m.attrs@[at].args {
                    Ok(_) => Ok(args_tags(m.attrs@[at])),
                    Err(e) => Err(
                        SuiteFault { place: Place::Attr(m.id, at as usize), message: e@ },
                    ),
                }
            } else {
                Ok(Seq::empty())
            };
            let segment = segment_of(m.ident@);
            if is_gated(m.attrs@) {
                Err(SuiteFault { place: Place::Item(m.id), message: gated_text() })
            } else {
                match level {
                    Err(e) => Err(e),
                    Ok(tags) => match merge_fault(tags) {
                        Some(e) => Err(SuiteFault { place: Place::Item(m.id), message: e }),
                        None => match label_fault(segment) {
                            Some(reason) => Err(
                                SuiteFault {
                                    place: Place::Ident(m.id),
                                    message: "module `"@ + m.ident@
                                        + "` maps to non-leaf segment `"@ + segment
                                        + "`, which is not a WIT label ("@ + reason + ")"@,
                                },
                            ),
                            None => match m.items {
                                None => Err(
                                    SuiteFault {
                                        place: Place::Item(m.id),
                                        message: "#[suite] modules must have inline bodies"@,
                                    },
                                ),
                                Some(children) => walked(
                                    c,
                                    children@,
                                    name_under(prefix, segment),
                                    path.push(m.ident@),
                                    merged(scope, tags),
                                    children@.len() as int,
                                ),
                            },
                        },
                    },
                }
            }
        },
    }
}

/// What the first `n` items do to what has been collected.
pub open spec fn walked(
    c: Collected,
    items: Seq<SuiteItem>,
    prefix: Seq<char>,
    path: Seq<Seq<char>>,
    scope: Seq<MarkView>,
    n: int,
) -> Result<Collected, SuiteFault>
    decreases items, n,
{
    if n <= 0 || n > items.len() {
        Ok(c)
    } else {
        match walked(c, items, prefix, path, scope, n - 1) {
            Err(e) => Err(e),
            Ok(d) => item_step(d, items[n - 1], prefix, path, scope),
        }
    }
}

fn foreign_attr(attrs: &[Attribute]) -> (r: Option<usize>)
    ensures
        match r {
            Some(i) => i < attrs@.len() && i == find_foreign(attrs@, 0) && attrs@[i as int].path@.len()
                > 0,
            None => find_foreign(attrs@, 0) >= attrs@.len(),
        },
{
    let mut i: usize = 0;
    while i < attrs.len()
        invariant
            i <= attrs@.len(),
            find_foreign(attrs@, 0) == find_foreign(attrs@, i as int),
        decreases attrs.len() - i,
    {
        let n = attrs[i].path.len();
        if n > 0 {
            let last = attrs[i].path[n - 1].as_str();
            assert(last@ == last_part(attrs@[i as int]));
            if same(last, "test") || same(last, "rstest") || same(last, "test_case") || same(
                last,
                "bench",
            ) {
                return Some(i);
            }
        } else {
            proof {
                reveal_strlit("test");
                reveal_strlit("rstest");
                reveal_strlit("test_case");
                reveal_strlit("bench");
                assert("test"@.len() > 0 && "rstest"@.len() > 0 && "test_case"@.len() > 0
                    && "bench"@.len() > 0);
            }
        }
        i += 1;
    }
    None
}

fn gated(attrs: &[Attribute]) -> (r: bool)
    ensures
        r == is_gated(attrs@),
{
    position_named(attrs, "cfg").is_some() || position_named(attrs, "cfg_attr").is_some()
}

fn gated_error(id: usize) -> (r: SuiteError)
    ensures
        r@ == (SuiteFault { place: Place::Item(id), message: gated_text() }),
{
    error(
        Place::Item(id),
        owned(
            "#[suite] items may not be cfg-gated: the inventory (and its lockfile) must not depend on build configuration",
        ),
    )
}

fn check_fn(f: &FnItem) -> (r: Result<(), SuiteError>)
    ensures
        match r {
            Ok(_) => fn_fault(*f) is None,
            Err(e) => fn_fault(*f) == Some(e@),
        },
{
    match foreign_attr(&f.attrs) {
        Some(i) => {
            let path = &f.attrs[i].path;
            let mut m = owned("`#[");
            m.append(path[path.len() - 1].as_str());
            m.append(
                "]` inside a #[suite] module registers nothing (the case would be silently dropped): did you mean #[case]?",
            );
            return Err(error(Place::Attr(f.id, i), m));
        },
        None => {},
    }
    let row = position_named(&f.attrs, "case_row").is_some();
    if row || position_named(&f.attrs, "case").is_some() || position_named(
        &f.attrs,
        "case_generator",
    ).is_some() {
        if gated(&f.attrs) {
            return Err(gated_error(f.id));
        }
        if !row && f.inputs > 1 {
            return Err(
                error(
                    Place::Signature(f.id),
                    owned(
                        "#[case] functions take no arguments or exactly one (`ctx: &TestContext`)",
                    ),
                ),
            );
        }
    }
    Ok(())
}

fn row_attr(attrs: &[Attribute]) -> (r: Option<(usize, bool)>)
    ensures
        match r {
            Some((i, is_row)) => i < attrs@.len() && find_row_attr(attrs@) == Some(
                (i as int, is_row),
            ),
            None => find_row_attr(attrs@) is None,
        },
{
    match position_named(attrs, "case_generator") {
        Some(g) => match position_named(attrs, "case_row") {
            Some(w) => if g <= w { Some((g, false)) } else { Some((w, true)) },
            None => Some((g, false)),
        },
        None => match position_named(attrs, "case_row") {
            Some(w) => Some((w, true)),
            None => None,
        },
    }
}

fn path_with(path: &[String], ident: &str) -> (r: Vec<String>)
    ensures
        views(r@) == views(path@).push(ident@),
{
    let mut r = clone_texts(path);
    let ghost was = views(r@);
    r.push(owned(ident));
    assert(views(r@) =~= was.push(ident@));
    r
}

/// What has been collected so far.
struct Collecting {
    cases: Vec<CaseDef>,
    gens: Vec<GenDef>,
}

impl View for Collecting {
    type V = Collected;

    closed spec fn view(&self) -> Collected {
        Collected { cases: case_defs(self.cases@), gens: gen_defs(self.gens@) }
    }
}

fn collect_fn(
    c: &mut Collecting,
    f: &FnItem,
    prefix: &str,
    path: &[String],
    scope: &[Tag],
) -> (r: Result<(), SuiteError>)
    ensures
        match r {
            Ok(_) => fn_step(old(c)@, *f, prefix@, views(path@), tag_views(scope@)) == Ok::<
                Collected,
                SuiteFault,
            >(final(c)@),
            Err(e) => fn_step(old(c)@, *f, prefix@, views(path@), tag_views(scope@)) == Err::<
                Collected,
                SuiteFault,
            >(e@),
        },
{
    let ghost was = c@;
    match check_fn(f) {
        Ok(_) => {},
        Err(e) => return Err(e),
    }
    match position_named(&f.attrs, "case") {
        Some(at) => {
            let args = match &f.attrs[at].args {
                Ok(a) => a,
                Err(e) => return Err(error(Place::Attr(f.id, at), e.clone())),
            };
            let tags = match merge_scope(scope, &args.tags, Place::Item(f.id)) {
                Ok(v) => v,
                Err(e) => return Err(e),
            };
            let leaf = match &args.name {
                Some(n) => n.clone(),
                None => ident_to_segment(f.ident.as_str()),
            };
            let def = CaseDef {
                name: join_name(prefix, leaf.as_str()),
                tags,
                fn_path: path_with(path, f.ident.as_str()),
                is_async: f.is_async,
                has_ctx: f.inputs > 0,
                id: f.id,
            };
            let ghost dv = def@;
            c.cases.push(def);
            assert(case_defs(c.cases@) =~= was.cases.push(dv));
            assert(c@ =~= (Collected { cases: was.cases.push(dv), ..was }));
            Ok(())
        },
        None => match row_attr(&f.attrs) {
            None => Ok(()),
            Some((at, is_row)) => {
                let args = match &f.attrs[at].args {
                    Ok(a) => a,
                    Err(e) => return Err(error(Place::Attr(f.id, at), e.clone())),
                };
                let tags = match merge_scope(scope, &args.tags, Place::Item(f.id)) {
                    Ok(v) => v,
                    Err(e) => return Err(e),
                };
                let below = match &args.prefix {
                    Some(p) => p,
                    None => return Err(
                        error(
                            Place::Item(f.id),
                            owned("#[case_generator]/#[case_row] requires prefix = \"...\""),
                        ),
                    ),
                };
                let def = GenDef {
                    prefix: join_name(prefix, below.as_str()),
                    tags,
                    fn_path: path_with(path, f.ident.as_str()),
                    is_row,
                    id: f.id,
                };
                let ghost dv = def@;
                c.gens.push(def);
                assert(gen_defs(c.gens@) =~= was.gens.push(dv));
                assert(c@ =~= (Collected { gens: was.gens.push(dv), ..was }));
                Ok(())
            },
        },
    }
}

/// The scope and the segment of a module, once it is found to be sound.
fn enter_module(m: &ModItem, scope: &[Tag]) -> (r: Result<(Vec<Tag>, String), SuiteError>)
    ensures
        forall|c: Collected, prefix: Seq<char>, path: Seq<Seq<char>>|
            match r {
                Ok((v, segment)) => segment@ == segment_of(m.ident@) && (#[trigger] item_step(
                    c,
                    SuiteItem::Module(*m),
                    prefix,
                    path,
                    tag_views(scope@),
                )) == match m.items {
                    None => Err::<Collected, SuiteFault>(
                        SuiteFault {
                            place: Place::Item(m.id),
                            message: "#[suite] modules must have inline bodies"@,
                        },
                    ),
                    Some(children) => walked(
                        c,
                        children@,
                        name_under(prefix, segment@),
                        path.push(m.ident@),
                        tag_views(v@),
                        children@.len() as int,
                    ),
                },
                Err(e) => item_step(c, SuiteItem::Module(*m), prefix, path, tag_views(scope@))
                    == Err::<Collected, SuiteFault>(e@),
            },
{
    if gated(&m.attrs) {
        return Err(gated_error(m.id));
    }
    let none: Vec<String> = Vec::new();
    assert(views(none@) =~= Seq::<Seq<char>>::empty());
    let level: &Vec<String> = match position_named(&m.attrs, "cases") {
        None => &none,
        Some(at) => match &m.attrs[at].args {
            Ok(a) => &a.tags,
            Err(e) => return Err(error(Place::Attr(m.id, at), e.clone())),
        },
    };
    let inner = match merge_scope(scope, level, Place::Item(m.id)) {
        Ok(v) => v,
        Err(e) => return Err(e),
    };
    let segment = ident_to_segment(m.ident.as_str());
    match is_wit_label(segment.as_str()) {
        Some(reason) => {
            let mut e = owned("module `");
            e.append(m.ident.as_str());
            e.append("` maps to non-leaf segment `");
            e.append(segment.as_str());
            e.append("`, which is not a WIT label (");
            e.append(reason);
            e.append(")");
            return Err(error(Place::Ident(m.id), e));
        },
        None => {},
    }
    Ok((inner, segment))
}

fn walk_items(
    c: &mut Collecting,
    items: &[SuiteItem],
    prefix: &str,
    path: &[String],
    scope: &[Tag],
) -> (r: Result<(), SuiteError>)
    ensures
        match r {
            Ok(_) => walked(
                old(c)@,
                items@,
                prefix@,
                views(path@),
                tag_views(scope@),
                items@.len() as int,
            ) == Ok::<Collected, SuiteFault>(final(c)@),
            Err(e) => walked(
                old(c)@,
                items@,
                prefix@,
                views(path@),
                tag_views(scope@),
                items@.len() as int,
            ) == Err::<Collected, SuiteFault>(e@),
        },
    decreases items@,
{
    let ghost start = c@;
    let ghost p = views(path@);
    let ghost s = tag_views(scope@);
    let mut i: usize = 0;
    while i < items.len()
        invariant
            i <= items@.len(),
            start == old(c)@,
            p == views(path@),
            s == tag_views(scope@),
            walked(start, items@, prefix@, p, s, i as int) == Ok::<Collected, SuiteFault>(c@),
        decreases items.len() - i,
    {
        let ghost before = c@;
        let ghost expected = item_step(before, items@[i as int], prefix@, p, s);
        let step = match &items[i] {
            SuiteItem::Other => Ok(()),
            SuiteItem::Function(f) => collect_fn(c, f, prefix, path, scope),
            SuiteItem::Module(m) => match enter_module(m, scope) {
                Err(e) => Err(e),
                Ok((inner, segment)) => match &m.items {
                    None => Err(
                        error(
                            Place::Item(m.id),
                            owned("#[suite] modules must have inline bodies"),
                        ),
                    ),
                    Some(children) => {
                        assert(item_step(before, SuiteItem::Module(*m), prefix@, p, s) == expected);
                        let child_prefix = join_name(prefix, segment.as_str());
                        let child_path = path_with(path, m.ident.as_str());
                        walk_items(c, children, child_prefix.as_str(), &child_path, &inner)
                    },
                },
            },
        };
        match step {
            Ok(_) => {
                assert(expected == Ok::<Collected, SuiteFault>(c@));
            },
            Err(e) => {
                assert(expected == Err::<Collected, SuiteFault>(e@));
                proof {
                    lemma_walk_stops(start, items@, prefix@, p, s, i + 1, items@.len() as int);
                }
                return Err(e);
            },
        }
        i += 1;
    }
    Ok(())
}

proof fn lemma_walk_stops(
    c: Collected,
    items: Seq<SuiteItem>,
    prefix: Seq<char>,
    path: Seq<Seq<char>>,
    scope: Seq<MarkView>,
    i: int,
    n: int,
)
    requires
        0 <= i <= n <= items.len(),
    ensures
        walked(c, items, prefix, path, scope, i) is Err ==> walked(c, items, prefix, path, scope, n)
            == walked(c, items, prefix, path, scope, i),
    decreases n,
{
    if i < n {
        lemma_walk_stops(c, items, prefix, path, scope, i, n - 1);
    }
}

// ---------------------------------------------------------------------
// Validation
// ---------------------------------------------------------------------

/// The names of the cases.
pub open spec fn def_names(cases: Seq<CaseDefView>) -> Seq<Seq<char>> {
    Seq::new(cases.len(), |i: int| cases[i].name)
}

/// The name that the inventory records a row under.
pub open spec fn row_record(prefix: Seq<char>) -> Seq<char> {
    prefix + "/*"@
}

/// The names that the rows are recorded under.
pub open spec fn row_records(gens: Seq<GenDefView>) -> Seq<Seq<char>> {
    Seq::new(gens.len(), |i: int| row_record(gens[i].prefix))
}

/// A fault at the name of an item.
pub open spec fn at_ident(id: usize, message: Seq<char>) -> Option<SuiteFault> {
    Some(SuiteFault { place: Place::Ident(id), message })
}

/// What is wrong with the names of the cases from the `i`-th on.
pub open spec fn case_names_fault(cases: Seq<CaseDefView>, i: int) -> Option<SuiteFault>
    decreases cases.len() - i,
{
    if i < 0 || i >= cases.len() {
        None
    } else {
        let c = cases[i];
        match name_fault(c.name) {
            Some(f) => at_ident(c.id, "`"@ + c.name + "`: "@ + fault_text(f)),
            None => if def_names(cases).take(i).contains(c.name) {
                at_ident(c.id, "duplicate case `"@ + c.name + "`"@)
            } else {
                case_names_fault(cases, i + 1)
            },
        }
    }
}

/// What is wrong with the segments of a row's prefix from the `i`-th on.
pub open spec fn segments_fault(segments: Seq<Seq<char>>, i: int) -> Option<Seq<char>>
    decreases segments.len() - i,
{
    if i < 0 || i >= segments.len() {
        None
    } else {
        match label_fault(segments[i]) {
            Some(reason) => Some(
                "generator prefix segment `"@ + segments[i] + "` is not a WIT label ("@ + reason
                    + ")"@,
            ),
            None => segments_fault(segments, i + 1),
        }
    }
}

/// What is wrong with the prefixes of the rows from the `i`-th on.
pub open spec fn prefixes_fault(
    cases: Seq<CaseDefView>,
    gens: Seq<GenDefView>,
    i: int,
) -> Option<SuiteFault>
    decreases gens.len() - i,
{
    if i < 0 || i >= gens.len() {
        None
    } else {
        let g = gens[i];
        match segments_fault(split(g.prefix, '/'), 0) {
            Some(e) => at_ident(g.id, e),
            None => if (def_names(cases) + row_records(gens).take(i)).contains(
                row_record(g.prefix),
            ) {
                at_ident(g.id, "duplicate generator prefix `"@ + g.prefix + "`"@)
            } else {
                prefixes_fault(cases, gens, i + 1)
            },
        }
    }
}

/// The first case from the `i`-th on that sits under a row, looking at the
/// rows from the `j`-th on.
pub open spec fn under_fault(
    cases: Seq<CaseDefView>,
    gens: Seq<GenDefView>,
    i: int,
    j: int,
) -> Option<SuiteFault>
    decreases cases.len() - i, gens.len() - j,
{
    if i < 0 || i >= cases.len() || j < 0 {
        None
    } else if j >= gens.len() {
        under_fault(cases, gens, i + 1, 0)
    } else if under(cases[i].name, gens[j].prefix) {
        at_ident(
            cases[i].id,
            "case `"@ + cases[i].name + "` sits under generator prefix `"@ + gens[j].prefix
                + "/*`: leaves would collide only at run time"@,
        )
    } else {
        under_fault(cases, gens, i, j + 1)
    }
}

/// The fault of two rows, where one sits under the other.
pub open spec fn pair_fault(a: GenDefView, b: GenDefView) -> Option<SuiteFault> {
    let (short, long) = if byte_len(a.prefix) <= byte_len(b.prefix) { (a, b) } else { (b, a) };
    if under(long.prefix, short.prefix) {
        at_ident(
            long.id,
            "generator prefixes `"@ + short.prefix + "/*` and `"@ + long.prefix
                + "/*` overlap: leaves would collide only at run time"@,
        )
    } else {
        None
    }
}

/// The first fault of two rows, of which the first is the `i`-th or a later
/// one; with the `i`-th only those from the `j`-th on are looked at.
pub open spec fn overlap_fault(gens: Seq<GenDefView>, i: int, j: int) -> Option<SuiteFault>
    decreases gens.len() - i, gens.len() - j,
{
    if i < 0 || i >= gens.len() || j < 0 {
        None
    } else if j >= gens.len() {
        overlap_fault(gens, i + 1, i + 2)
    } else {
        match pair_fault(gens[i], gens[j]) {
            Some(f) => Some(f),
            None => overlap_fault(gens, i, j + 1),
        }
    }
}

/// The marks of the first `n` cases, one case after the other.
pub open spec fn case_marks(cases: Seq<CaseDefView>, n: int) -> Seq<MarkView>
    decreases n,
{
    if n <= 0 { Seq::empty() } else { case_marks(cases, n - 1) + cases[n - 1].tags }
}

/// The marks of the first `n` rows, one row after the other.
pub open spec fn gen_marks(gens: Seq<GenDefView>, n: int) -> Seq<MarkView>
    decreases n,
{
    if n <= 0 { Seq::empty() } else { gen_marks(gens, n - 1) + gens[n - 1].tags }
}

/// Does one of the marks require one of the features?
pub open spec fn requires_one(marks: Seq<MarkView>, features: Seq<Seq<char>>) -> bool {
    exists|i: int|
        0 <= i < marks.len() && !(#[trigger] marks[i]).negative && features.contains(
            marks[i].feature,
        )
}

/// The first case from the `i`-th on that requires one of the features, or
/// else the first row.
pub open spec fn case_anchor(
    cases: Seq<CaseDefView>,
    gens: Seq<GenDefView>,
    features: Seq<Seq<char>>,
    i: int,
) -> Place
    decreases cases.len() - i,
{
    if i < 0 || i >= cases.len() {
        gen_anchor(gens, features, 0)
    } else if requires_one(cases[i].tags, features) {
        Place::Ident(cases[i].id)
    } else {
        case_anchor(cases, gens, features, i + 1)
    }
}

/// The first row from the `i`-th on that requires one of the features.
pub open spec fn gen_anchor(gens: Seq<GenDefView>, features: Seq<Seq<char>>, i: int) -> Place
    decreases gens.len() - i,
{
    if i < 0 || i >= gens.len() {
        Place::Suite
    } else if requires_one(gens[i].tags, features) {
        Place::Ident(gens[i].id)
    } else {
        gen_anchor(gens, features, i + 1)
    }
}

/// Texts in backticks.
pub open spec fn ticked(items: Seq<Seq<char>>) -> Seq<Seq<char>> {
    Seq::new(items.len(), |i: int| "`"@ + items[i] + "`"@)
}

/// What is wrong with the marks of the whole suite: a feature that is
/// required somewhere and declined nowhere.
pub open spec fn pairing_fault(cases: Seq<CaseDefView>, gens: Seq<GenDefView>) -> Option<
    SuiteFault,
> {
    let lone = unpaired(
        case_marks(cases, cases.len() as int) + gen_marks(gens, gens.len() as int),
    );
    if lone.len() == 0 {
        None
    } else {
        Some(
            SuiteFault {
                place: case_anchor(cases, gens, lone, 0),
                message: "decline-pair lint: feature(s) "@ + join(ticked(lone), ", "@)
                    + " have positively-tagged cases but no `!feature` decline-asserting case. Add a case tagged with the negated feature (e.g. tags(\"!hsm\")) asserting the feature is cleanly refused on targets that lack it — see README \"Feature tags\""@,
            },
        )
    }
}

/// What is wrong with the suite, if anything is.
pub open spec fn suite_fault(cases: Seq<CaseDefView>, gens: Seq<GenDefView>) -> Option<SuiteFault> {
    if cases.len() == 0 && gens.len() == 0 {
        Some(
            SuiteFault {
                place: Place::Suite,
                message: "suite has no cases: annotate at least one fn with #[case] (or add a #[case_generator]) — an empty suite would report vacuous success"@,
            },
        )
    } else {
        match case_names_fault(cases, 0) {
            Some(f) => Some(f),
            None => match prefixes_fault(cases, gens, 0) {
                Some(f) => Some(f),
                None => match under_fault(cases, gens, 0, 0) {
                    Some(f) => Some(f),
                    None => match overlap_fault(gens, 0, 1) {
                        Some(f) => Some(f),
                        None => pairing_fault(cases, gens),
                    },
                },
            },
        }
    }
}

/// The view of a found fault.
pub open spec fn opt_fault(e: Option<SuiteError>) -> Option<SuiteFault> {
    match e {
        Some(e) => Some(e@),
        None => None,
    }
}

fn check_case_names(cases: &[CaseDef]) -> (r: Result<Vec<String>, SuiteError>)
    ensures
        match r {
            Ok(seen) => case_names_fault(case_defs(cases@), 0) is None && views(seen@) == def_names(
                case_defs(cases@),
            ),
            Err(e) => case_names_fault(case_defs(cases@), 0) == Some(e@),
        },
{
    let ghost cs = case_defs(cases@);
    let mut seen: Vec<String> = Vec::new();
    let mut i: usize = 0;
    assert(views(seen@) =~= def_names(cs).take(0));
    while i < cases.len()
        invariant
            i <= cases@.len(),
            cs == case_defs(cases@),
            views(seen@) == def_names(cs).take(i as int),
            case_names_fault(cs, 0) == case_names_fault(cs, i as int),
        decreases cases.len() - i,
    {
        assert(cs[i as int] == cases@[i as int]@);
        let name = cases[i].name.as_str();
        match CaseName::parse(name) {
            Ok(_) => {},
            Err(e) => {
                let mut m = owned("`");
                m.append(name);
                m.append("`: ");
                m.append(e.to_string().as_str());
                return Err(error(Place::Ident(cases[i].id), m));
            },
        }
        if among(&seen, name) {
            let mut m = owned("duplicate case `");
            m.append(name);
            m.append("`");
            return Err(error(Place::Ident(cases[i].id), m));
        }
        let ghost was = views(seen@);
        seen.push(owned(name));
        assert(views(seen@) =~= was.push(name@));
        assert(def_names(cs).take(i + 1) =~= def_names(cs).take(i as int).push(name@));
        i += 1;
    }
    assert(def_names(cs).take(i as int) =~= def_names(cs));
    Ok(seen)
}

fn check_segments(prefix: &str) -> (r: Option<String>)
    ensures
        opt_text(r) == segments_fault(split(prefix@, '/'), 0),
{
    let segments = split_text(prefix, '/');
    let ghost ss = views(segments@);
    let mut i: usize = 0;
    while i < segments.len()
        invariant
            i <= segments@.len(),
            ss == views(segments@),
            ss == split(prefix@, '/'),
            segments_fault(ss, 0) == segments_fault(ss, i as int),
        decreases segments.len() - i,
    {
        assert(ss[i as int] == segments@[i as int]@);
        match is_wit_label(segments[i].as_str()) {
            Some(reason) => {
                let mut m = owned("generator prefix segment `");
                m.append(segments[i].as_str());
                m.append("` is not a WIT label (");
                m.append(reason);
                m.append(")");
                return Some(m);
            },
            None => {},
        }
        i += 1;
    }
    assert(ss.len() == segments@.len());
    None
}

fn check_prefixes(cases: &[CaseDef], gens: &[GenDef], names: Vec<String>) -> (r: Option<SuiteError>)
    requires
        views(names@) == def_names(case_defs(cases@)),
    ensures
        opt_fault(r) == prefixes_fault(case_defs(cases@), gen_defs(gens@), 0),
{
    let ghost cs = case_defs(cases@);
    let ghost gs = gen_defs(gens@);
    let mut seen = names;
    let mut i: usize = 0;
    assert(row_records(gs).take(0) =~= Seq::<Seq<char>>::empty());
    assert(views(seen@) =~= def_names(cs) + row_records(gs).take(0));
    while i < gens.len()
        invariant
            i <= gens@.len(),
            cs == case_defs(cases@),
            gs == gen_defs(gens@),
            views(seen@) == def_names(cs) + row_records(gs).take(i as int),
            prefixes_fault(cs, gs, 0) == prefixes_fault(cs, gs, i as int),
        decreases gens.len() - i,
    {
        assert(gs[i as int] == gens@[i as int]@);
        let prefix = gens[i].prefix.as_str();
        match check_segments(prefix) {
            Some(e) => return Some(error(Place::Ident(gens[i].id), e)),
            None => {},
        }
        let mut record = owned(prefix);
        record.append("/*");
        if among(&seen, record.as_str()) {
            let mut m = owned("duplicate generator prefix `");
            m.append(prefix);
            m.append("`");
            return Some(error(Place::Ident(gens[i].id), m));
        }
        let ghost was = views(seen@);
        let ghost rv = record@;
        seen.push(record);
        assert(views(seen@) =~= was.push(rv));
        assert(row_records(gs).take(i + 1) =~= row_records(gs).take(i as int).push(rv));
        assert(views(seen@) =~= def_names(cs) + row_records(gs).take(i + 1));
        i += 1;
    }
    None
}

fn check_under(cases: &[CaseDef], gens: &[GenDef]) -> (r: Option<SuiteError>)
    ensures
        opt_fault(r) == under_fault(case_defs(cases@), gen_defs(gens@), 0, 0),
{
    let ghost cs = case_defs(cases@);
    let ghost gs = gen_defs(gens@);
    let mut i: usize = 0;
    while i < cases.len()
        invariant
            i <= cases@.len(),
            cs == case_defs(cases@),
            gs == gen_defs(gens@),
            under_fault(cs, gs, 0, 0) == under_fault(cs, gs, i as int, 0),
        decreases cases.len() - i,
    {
        assert(cs[i as int] == cases@[i as int]@);
        let mut j: usize = 0;
        while j < gens.len()
            invariant
                i < cases@.len(),
                j <= gens@.len(),
                cs == case_defs(cases@),
                gs == gen_defs(gens@),
                cs[i as int] == cases@[i as int]@,
                under_fault(cs, gs, 0, 0) == under_fault(cs, gs, i as int, j as int),
            decreases gens.len() - j,
        {
            assert(gs[j as int] == gens@[j as int]@);
            if is_under(cases[i].name.as_str(), gens[j].prefix.as_str()) {
                let mut m = owned("case `");
                m.append(cases[i].name.as_str());
                m.append("` sits under generator prefix `");
                m.append(gens[j].prefix.as_str());
                m.append("/*`: leaves would collide only at run time");
                return Some(error(Place::Ident(cases[i].id), m));
            }
            j += 1;
        }
        i += 1;
    }
    None
}

fn check_pair(a: &GenDef, b: &GenDef) -> (r: Option<SuiteError>)
    ensures
        opt_fault(r) == pair_fault(a@, b@),
{
    let (short, long) = if bytes_in(a.prefix.as_str()) <= bytes_in(b.prefix.as_str()) {
        (a, b)
    } else {
        (b, a)
    };
    if is_under(long.prefix.as_str(), short.prefix.as_str()) {
        let mut m = owned("generator prefixes `");
        m.append(short.prefix.as_str());
        m.append("/*` and `");
        m.append(long.prefix.as_str());
        m.append("/*` overlap: leaves would collide only at run time");
        return Some(error(Place::Ident(long.id), m));
    }
    None
}

fn check_overlap(gens: &[GenDef]) -> (r: Option<SuiteError>)
    ensures
        opt_fault(r) == overlap_fault(gen_defs(gens@), 0, 1),
{
    let ghost gs = gen_defs(gens@);
    let mut i: usize = 0;
    while i < gens.len()
        invariant
            i <= gens@.len(),
            gs == gen_defs(gens@),
            overlap_fault(gs, 0, 1) == overlap_fault(gs, i as int, i + 1),
        decreases gens.len() - i,
    {
        assert(gs[i as int] == gens@[i as int]@);
        let mut j: usize = i + 1;
        while j < gens.len()
            invariant
                i < j <= gens@.len(),
                gs == gen_defs(gens@),
                gs[i as int] == gens@[i as int]@,
                overlap_fault(gs, 0, 1) == overlap_fault(gs, i as int, j as int),
            decreases gens.len() - j,
        {
            assert(gs[j as int] == gens@[j as int]@);
            match check_pair(&gens[i], &gens[j]) {
                Some(e) => return Some(e),
                None => {},
            }
            j += 1;
        }
        i += 1;
    }
    None
}

fn push_marks(out: &mut Vec<Tag>, tags: &[Tag])
    ensures
        tag_views(final(out)@) == tag_views(old(out)@) + tag_views(tags@),
{
    let mut more = clone_tags(tags);
    let ghost was = tag_views(out@);
    let ghost mv = tag_views(more@);
    let ghost before = out@;
    let ghost added = more@;
    out.append(&mut more);
    assert(out@ =~= before + added);
    assert(tag_views(out@) =~= was + mv);
}

fn one_required(tags: &[Tag], features: &[String]) -> (r: bool)
    ensures
        r == requires_one(tag_views(tags@), views(features@)),
{
    let ghost ms = tag_views(tags@);
    for i in 0..tags.len()
        invariant
            ms == tag_views(tags@),
            forall|k: int|
                0 <= k < i ==> (#[trigger] ms[k]).negative || !views(features@).contains(
                    ms[k].feature,
                ),
    {
        assert(ms[i as int] == tags@[i as int]@);
        if !tags[i].is_negative() && among(features, tags[i].feature()) {
            return true;
        }
    }
    false
}

fn anchor(cases: &[CaseDef], gens: &[GenDef], features: &[String]) -> (r: Place)
    ensures
        r == case_anchor(case_defs(cases@), gen_defs(gens@), views(features@), 0),
{
    let ghost cs = case_defs(cases@);
    let ghost gs = gen_defs(gens@);
    let ghost fs = views(features@);
    let mut i: usize = 0;
    while i < cases.len()
        invariant
            i <= cases@.len(),
            cs == case_defs(cases@),
            gs == gen_defs(gens@),
            fs == views(features@),
            case_anchor(cs, gs, fs, 0) == case_anchor(cs, gs, fs, i as int),
        decreases cases.len() - i,
    {
        assert(cs[i as int] == cases@[i as int]@);
        if one_required(&cases[i].tags, features) {
            return Place::Ident(cases[i].id);
        }
        i += 1;
    }
    let mut j: usize = 0;
    while j < gens.len()
        invariant
            j <= gens@.len(),
            cs == case_defs(cases@),
            gs == gen_defs(gens@),
            fs == views(features@),
            case_anchor(cs, gs, fs, 0) == gen_anchor(gs, fs, j as int),
        decreases gens.len() - j,
    {
        assert(gs[j as int] == gens@[j as int]@);
        if one_required(&gens[j].tags, features) {
            return Place::Ident(gens[j].id);
        }
        j += 1;
    }
    Place::Suite
}

fn check_pairing(cases: &[CaseDef], gens: &[GenDef]) -> (r: Option<SuiteError>)
    ensures
        opt_fault(r) == pairing_fault(case_defs(cases@), gen_defs(gens@)),
{
    let ghost cs = case_defs(cases@);
    let ghost gs = gen_defs(gens@);
    let mut marks: Vec<Tag> = Vec::new();
    let mut i: usize = 0;
    assert(tag_views(marks@) =~= case_marks(cs, 0));
    while i < cases.len()
        invariant
            i <= cases@.len(),
            cs == case_defs(cases@),
            tag_views(marks@) == case_marks(cs, i as int),
        decreases cases.len() - i,
    {
        assert(cs[i as int] == cases@[i as int]@);
        push_marks(&mut marks, &cases[i].tags);
        i += 1;
    }
    let ghost all = tag_views(marks@);
    let mut j: usize = 0;
    assert(tag_views(marks@) =~= all + gen_marks(gs, 0));
    while j < gens.len()
        invariant
            j <= gens@.len(),
            gs == gen_defs(gens@),
            tag_views(marks@) == all + gen_marks(gs, j as int),
        decreases gens.len() - j,
    {
        assert(gs[j as int] == gens@[j as int]@);
        push_marks(&mut marks, &gens[j].tags);
        assert(tag_views(marks@) =~= all + gen_marks(gs, j + 1));
        j += 1;
    }
    let lone = unpaired_positive_features(&marks);
    assert(views(lone@).len() == lone@.len());
    if lone.len() == 0 {
        return None;
    }
    let ghost ls = views(lone@);
    let mut parts: Vec<String> = Vec::new();
    let mut k: usize = 0;
    assert(views(parts@) =~= ticked(ls).take(0));
    while k < lone.len()
        invariant
            k <= lone@.len(),
            ls == views(lone@),
            views(parts@) == ticked(ls).take(k as int),
        decreases lone.len() - k,
    {
        assert(ls[k as int] == lone@[k as int]@);
        let mut part = owned("`");
        part.append(lone[k].as_str());
        part.append("`");
        let ghost was = views(parts@);
        let ghost pv = part@;
        parts.push(part);
        assert(views(parts@) =~= was.push(pv));
        assert(ticked(ls).take(k + 1) =~= ticked(ls).take(k as int).push(pv));
        k += 1;
    }
    assert(ticked(ls).take(k as int) =~= ticked(ls));
    let mut m = owned("decline-pair lint: feature(s) ");
    m.append(join_texts(&parts, ", ").as_str());
    m.append(
        " have positively-tagged cases but no `!feature` decline-asserting case. Add a case tagged with the negated feature (e.g. tags(\"!hsm\")) asserting the feature is cleanly refused on targets that lack it — see README \"Feature tags\"",
    );
    Some(error(anchor(cases, gens, &lone), m))
}

/// Check a collected suite: names and prefixes are sound and distinct, no
/// leaf can collide at run time, and every required feature has a declining
/// twin.
pub fn validate(cases: &[CaseDef], gens: &[GenDef]) -> (r: Result<(), SuiteError>)
    ensures
        match r {
            Ok(_) => suite_fault(case_defs(cases@), gen_defs(gens@)) is None,
            Err(e) => suite_fault(case_defs(cases@), gen_defs(gens@)) == Some(e@),
        },
{
    if cases.len() == 0 && gens.len() == 0 {
        return Err(
            error(
                Place::Suite,
                owned(
                    "suite has no cases: annotate at least one fn with #[case] (or add a #[case_generator]) — an empty suite would report vacuous success",
                ),
            ),
        );
    }
    let names = match check_case_names(cases) {
        Ok(names) => names,
        Err(e) => return Err(e),
    };
    match check_prefixes(cases, gens, names) {
        Some(e) => return Err(e),
        None => {},
    }
    match check_under(cases, gens) {
        Some(e) => return Err(e),
        None => {},
    }
    match check_overlap(gens) {
        Some(e) => return Err(e),
        None => {},
    }
    match check_pairing(cases, gens) {
        Some(e) => Err(e),
        None => Ok(()),
    }
}

// ---------------------------------------------------------------------
// Inventory records
// ---------------------------------------------------------------------

/// The first `n` marks, each after a space.
pub open spec fn spaced(marks: Seq<MarkView>, n: int) -> Seq<char>
    decreases n,
{
    if n <= 0 { Seq::empty() } else { spaced(marks, n - 1) + " "@ + mark_text(marks[n - 1]) }
}

/// The record of a case or row: its name and its marks on a line.
pub open spec fn record(name: Seq<char>, marks: Seq<MarkView>) -> Seq<char> {
    name + spaced(marks, marks.len() as int) + "\n"@
}

/// The records of the cases, then those of the rows.
pub open spec fn records(cases: Seq<CaseDefView>, gens: Seq<GenDefView>) -> Seq<Seq<char>> {
    Seq::new(cases.len(), |i: int| record(cases[i].name, cases[i].tags)) + Seq::new(
        gens.len(),
        |i: int| record(row_record(gens[i].prefix), gens[i].tags),
    )
}

/// The record of a case or row.
pub fn record_line(name: &str, tags: &[Tag]) -> (r: String)
    ensures
        r@ == record(name@, tag_views(tags@)),
{
    let ghost ms = tag_views(tags@);
    let mut r = owned(name);
    let mut i: usize = 0;
    assert(r@ =~= name@ + spaced(ms, 0));
    while i < tags.len()
        invariant
            i <= tags@.len(),
            ms == tag_views(tags@),
            r@ == name@ + spaced(ms, i as int),
        decreases tags.len() - i,
    {
        assert(ms[i as int] == tags@[i as int]@);
        r.append(" ");
        r.append(tags[i].to_string().as_str());
        assert(r@ =~= name@ + spaced(ms, i + 1));
        i += 1;
    }
    r.append("\n");
    r
}

/// The records of the cases, then those of the rows.
pub fn record_lines(cases: &[CaseDef], gens: &[GenDef]) -> (r: Vec<String>)
    ensures
        views(r@) == records(case_defs(cases@), gen_defs(gens@)),
{
    let ghost cs = case_defs(cases@);
    let ghost gs = gen_defs(gens@);
    let ghost all = records(cs, gs);
    let mut r: Vec<String> = Vec::new();
    let mut i: usize = 0;
    assert(views(r@) =~= all.take(0));
    while i < cases.len()
        invariant
            i <= cases@.len(),
            cs == case_defs(cases@),
            gs == gen_defs(gens@),
            all == records(cs, gs),
            views(r@) == all.take(i as int),
        decreases cases.len() - i,
    {
        assert(cs[i as int] == cases@[i as int]@);
        let line = record_line(cases[i].name.as_str(), &cases[i].tags);
        let ghost was = views(r@);
        let ghost lv = line@;
        r.push(line);
        assert(views(r@) =~= was.push(lv));
        assert(all[i as int] == lv);
        assert(all.take(i + 1) =~= all.take(i as int).push(lv));
        i += 1;
    }
    let mut j: usize = 0;
    while j < gens.len()
        invariant
            i == cases@.len(),
            j <= gens@.len(),
            cs == case_defs(cases@),
            gs == gen_defs(gens@),
            all == records(cs, gs),
            views(r@) == all.take(i + j),
        decreases gens.len() - j,
    {
        assert(gs[j as int] == gens@[j as int]@);
        let mut name = owned(gens[j].prefix.as_str());
        name.append("/*");
        let line = record_line(name.as_str(), &gens[j].tags);
        let ghost was = views(r@);
        let ghost lv = line@;
        r.push(line);
        assert(views(r@) =~= was.push(lv));
        assert(all[i + j] == lv);
        assert(all.take(i + j + 1) =~= all.take(i + j).push(lv));
        j += 1;
    }
    assert(all.take(i + j) =~= all);
    r
}

// ---------------------------------------------------------------------
// The suite
// ---------------------------------------------------------------------

/// What a module tree comes to: its cases and rows in source order, and the
/// records of the inventory.
#[derive(Debug)]
pub struct SuitePlan {
    pub cases: Vec<CaseDef>,
    pub gens: Vec<GenDef>,
    pub records: Vec<String>,
}

/// The name of the suite's root: as given, or after the module.
pub open spec fn root_name(ident: Seq<char>, name: Option<Seq<char>>) -> Seq<char> {
    match name {
        Some(n) => n,
        None => segment_of(ident),
    }
}

/// Nothing collected yet.
pub open spec fn nothing() -> Collected {
    Collected { cases: Seq::empty(), gens: Seq::empty() }
}

/// What a tree comes to, or why it is no suite.
pub open spec fn collected(root: ModItem, name: Option<Seq<char>>) -> Result<
    Collected,
    SuiteFault,
> {
    match root.items {
        None => Err(
            SuiteFault {
                place: Place::Item(root.id),
                message: "#[suite] requires an inline module body"@,
            },
        ),
        Some(items) => match walked(
            nothing(),
            items@,
            root_name(root.ident@, name),
            Seq::empty(),
            Seq::empty(),
            items@.len() as int,
        ) {
            Err(e) => Err(e),
            Ok(c) => match suite_fault(c.cases, c.gens) {
                Some(f) => Err(f),
                None => Ok(c),
            },
        },
    }
}

/// Make a suite of a module tree. `name` renames the root; an empty name
/// leaves it out.
pub fn expand(root: &ModItem, name: Option<&str>) -> (r: Result<SuitePlan, SuiteError>)
    ensures
        match r {
            Ok(p) => collected(*root, opt_str(name)) == Ok::<Collected, SuiteFault>(
                (Collected { cases: case_defs(p.cases@), gens: gen_defs(p.gens@) }),
            ) && views(p.records@) == records(case_defs(p.cases@), gen_defs(p.gens@)),
            Err(e) => collected(*root, opt_str(name)) == Err::<Collected, SuiteFault>(e@),
        },
{
    let items = match &root.items {
        Some(items) => items,
        None => return Err(
            error(Place::Item(root.id), owned("#[suite] requires an inline module body")),
        ),
    };
    let prefix = match name {
        Some(n) => owned(n),
        None => ident_to_segment(root.ident.as_str()),
    };
    let mut c = Collecting { cases: Vec::new(), gens: Vec::new() };
    assert(case_defs(c.cases@) =~= Seq::<CaseDefView>::empty());
    assert(gen_defs(c.gens@) =~= Seq::<GenDefView>::empty());
    assert(c@ =~= nothing());
    let path: Vec<String> = Vec::new();
    assert(views(path@) =~= Seq::<Seq<char>>::empty());
    let scope: Vec<Tag> = Vec::new();
    assert(tag_views(scope@) =~= Seq::<MarkView>::empty());
    match walk_items(&mut c, items, prefix.as_str(), &path, &scope) {
        Ok(_) => {},
        Err(e) => return Err(e),
    }
    match validate(&c.cases, &c.gens) {
        Ok(_) => {},
        Err(e) => return Err(e),
    }
    let records = record_lines(&c.cases, &c.gens);
    let Collecting { cases, gens } = c;
    Ok(SuitePlan { cases, gens, records })
}

} // verus!
