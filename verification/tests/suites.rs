use component_test::compose::{
    check_input, check_magic, classify, classify_exports, compose, Input, CONTEXT, FACTORY,
    RUN_PREFIX, TESTS,
};
use component_test::linking::check_links;
use component_test::opening::check_settled;
use component_test::reading::{check_core, check_readable};
use component_test::registry::{str_to_array, Registry};
use component_test::suite::{
    expand, ident_to_segment, join_name, record_line, AttrArgs, Attribute, FnItem, ModItem, Place,
    SuiteError, SuiteItem, SuitePlan,
};
use component_test::tags::Tag;
use component_test::ties::check_drains;
use component_test::verdict::Verdict;

// ----------------------------------------------------------- registry

fn ok(_: &()) -> Verdict {
    Ok(())
}

type Body = fn(&()) -> Verdict;

#[test]
fn registry_registers_and_orders() {
    let mut reg: Registry<Body> = Registry::new();
    reg.case::<&str>("a/x", &[], ok).unwrap();
    reg.case("a/y", &["hsm"], ok).unwrap();
    assert_eq!(reg.len(), 2);
    assert_eq!(reg.get(0).unwrap().name.as_str(), "a/x");
    assert_eq!(reg.get(1).unwrap().tags.as_slice().len(), 1);
}

#[test]
#[should_panic(expected = "duplicate case name")]
fn registry_rejects_duplicates() {
    let mut reg: Registry<Body> = Registry::new();
    reg.case::<&str>("a/x", &[], ok).unwrap();
    reg.case::<&str>("a/x", &[], ok).unwrap();
}

#[test]
#[should_panic(expected = "invalid case name")]
fn registry_rejects_bad_names() {
    let mut reg: Registry<Body> = Registry::new();
    reg.case::<&str>("Bad/Name", &[], ok).unwrap();
}

#[test]
fn registry_refuses_without_change() {
    let mut reg: Registry<Body> = Registry::default();
    assert!(reg.is_empty());
    assert!(reg.case("a/x", &["Bad_Tag"], ok).unwrap_err().starts_with("invalid mark `Bad_Tag`"));
    assert!(reg.case("a/x", &["a", "!a"], ok).unwrap_err().starts_with("invalid tags on `a/x`"));
    assert!(reg.is_empty());
    reg.case::<&str>("a/x", &[], ok).unwrap();
    assert_eq!(reg.cases().len(), 1);
    assert!(reg.get(1).is_none());
    assert!((reg.get(0).unwrap().run)(&()).is_ok());
    assert_eq!(str_to_array::<3>("abc"), *b"abc");
}

// -------------------------------------------------------------- suite

/// A test attribute inside a suite stays an ordinary test: the suite does
/// not take it for a case (see `foreign_test_attributes_are_refused`).
#[test]
fn forgotten_rename() {}

fn args(name: Option<&str>, prefix: Option<&str>, tags: &[&str]) -> AttrArgs {
    AttrArgs {
        name: name.map(String::from),
        prefix: prefix.map(String::from),
        tags: tags.iter().map(|t| t.to_string()).collect(),
    }
}

fn attr(path: &str, args: AttrArgs) -> Attribute {
    Attribute {
        path: path.split("::").map(String::from).collect(),
        args: Ok(args),
    }
}

fn plain(path: &str) -> Attribute {
    attr(path, args(None, None, &[]))
}

fn func(id: usize, ident: &str, attrs: Vec<Attribute>, inputs: usize) -> SuiteItem {
    SuiteItem::Function(FnItem {
        id,
        ident: ident.to_string(),
        attrs,
        is_async: true,
        inputs,
    })
}

fn module(id: usize, ident: &str, attrs: Vec<Attribute>, items: Vec<SuiteItem>) -> ModItem {
    ModItem {
        id,
        ident: ident.to_string(),
        attrs,
        items: Some(items),
    }
}

fn lines(plan: &SuitePlan) -> Vec<&str> {
    plan.records.iter().map(|r| r.as_str()).collect()
}

#[test]
fn sample_suite_expands() {
    let math = module(
        1,
        "math",
        vec![],
        vec![
            func(2, "add", vec![plain("case")], 1),
            func(3, "quick", vec![plain("case")], 0),
            SuiteItem::Other,
        ],
    );
    let hsm = module(
        4,
        "hsm",
        vec![attr("cases", args(None, None, &["hsm"]))],
        vec![
            func(5, "attest", vec![plain("case")], 1),
            func(6, "declined", vec![attr("case", args(None, None, &["!hsm"]))], 1),
        ],
    );
    let root = module(
        0,
        "sample",
        vec![],
        vec![
            SuiteItem::Module(math),
            SuiteItem::Module(hsm),
            func(7, "cases", vec![attr("case_generator", args(None, Some("gen"), &[]))], 0),
        ],
    );
    let plan = expand(&root, None).unwrap();
    assert_eq!(
        lines(&plan),
        [
            "sample/math/add\n",
            "sample/math/quick\n",
            "sample/hsm/attest hsm\n",
            "sample/hsm/declined !hsm\n",
            "sample/gen/*\n",
        ]
    );
    assert_eq!(plan.cases[0].fn_path, ["math", "add"]);
    assert!(plan.cases[0].has_ctx);
    assert!(!plan.cases[1].has_ctx);
    assert!(!plan.gens[0].is_row);
    // The nearest declaration wins whole.
    assert_eq!(plan.cases[3].tags, [Tag::parse("!hsm").unwrap()]);
}

#[test]
fn unrooted_suite_expands() {
    let part = |id: usize, ident: &str| {
        SuiteItem::Module(module(
            id,
            ident,
            vec![],
            vec![func(id + 1, "tc1", vec![plain("case")], 1)],
        ))
    };
    let root = module(0, "ported", vec![], vec![part(1, "aes_gcm"), part(3, "chacha")]);
    let plan = expand(&root, Some("")).unwrap();
    assert_eq!(lines(&plan), ["aes-gcm/tc1\n", "chacha/tc1\n"]);
    let plan = expand(&root, Some("renamed")).unwrap();
    assert_eq!(lines(&plan)[0], "renamed/aes-gcm/tc1\n");
}

fn refused(items: Vec<SuiteItem>) -> SuiteError {
    expand(&module(0, "suite", vec![], items), None).unwrap_err()
}

#[test]
fn leaf_names_follow_the_grammar() {
    let e = refused(vec![func(1, "traversal", vec![attr("case", args(Some(".."), None, &[]))], 1)]);
    assert_eq!(e.place, Place::Ident(1));
    assert!(e.message.contains("`..`"), "{}", e.message);
}

#[test]
fn module_segments_are_labels() {
    let inner = module(1, "x__y", vec![], vec![func(2, "go", vec![plain("case")], 1)]);
    let e = refused(vec![SuiteItem::Module(inner)]);
    assert_eq!(e.place, Place::Ident(1));
    assert!(e.message.contains("module `x__y`") && e.message.contains("not a WIT label"));
}

#[test]
fn case_functions_take_a_context_at_most() {
    let e = refused(vec![func(1, "two_args", vec![plain("case")], 2)]);
    assert!(e.message.contains("take no arguments or exactly one"));
}

#[test]
fn cases_do_not_sit_under_generators() {
    let inner = module(1, "gen", vec![], vec![func(2, "tc1", vec![plain("case")], 1)]);
    let rows = func(3, "rows", vec![attr("case_generator", args(None, Some("gen"), &[]))], 0);
    let e = refused(vec![SuiteItem::Module(inner), rows]);
    assert!(e.message.contains("sits under generator prefix"), "{}", e.message);
}

#[test]
fn cases_are_not_gated() {
    let e = refused(vec![func(1, "sometimes", vec![plain("case"), plain("cfg")], 1)]);
    assert!(e.message.contains("may not be cfg-gated"));
}

#[test]
fn positive_marks_need_a_decline() {
    let e = refused(vec![func(1, "attest", vec![attr("case", args(None, None, &["hsm"]))], 1)]);
    assert!(e.message.contains("decline-pair lint") && e.message.contains("`hsm`"));
}

#[test]
fn duplicate_cases_are_refused() {
    let e = refused(vec![
        func(1, "add", vec![plain("case")], 1),
        func(2, "add_again", vec![attr("case", args(Some("add"), None, &[]))], 1),
    ]);
    assert_eq!(e.place, Place::Ident(2));
    assert_eq!(e.message, "duplicate case `suite/add`");
}

#[test]
fn foreign_test_attributes_are_refused() {
    let e = refused(vec![
        func(1, "real", vec![plain("case")], 1),
        func(2, "forgotten_rename", vec![plain("test")], 0),
    ]);
    assert_eq!(e.place, Place::Attr(2, 0));
    assert!(e.message.contains("did you mean #[case]?"));
    let e = refused(vec![func(1, "ported", vec![plain("tokio::test")], 0)]);
    assert!(e.message.contains("`#[test]`"));
}

#[test]
fn generators_name_their_prefix() {
    let e = refused(vec![func(1, "rows", vec![plain("case_generator")], 0)]);
    assert!(e.message.contains("requires prefix"));
}

#[test]
fn generators_do_not_overlap() {
    let gen = |id: usize, ident: &str, prefix: &str| {
        func(id, ident, vec![attr("case_generator", args(None, Some(prefix), &[]))], 0)
    };
    let e = refused(vec![gen(1, "outer", "rows"), gen(2, "inner", "rows/sub")]);
    assert!(e.message.contains("overlap"), "{}", e.message);
}

#[test]
fn empty_and_bodiless_suites_are_refused() {
    let e = refused(vec![]);
    assert_eq!(e.place, Place::Suite);
    assert!(e.message.contains("suite has no cases"));
    let bodiless = ModItem { id: 0, ident: "s".to_string(), attrs: vec![], items: None };
    assert!(expand(&bodiless, None).unwrap_err().message.contains("inline module body"));
    let inner = ModItem { id: 1, ident: "m".to_string(), attrs: vec![], items: None };
    assert!(refused(vec![SuiteItem::Module(inner)]).message.contains("inline bodies"));
}

#[test]
fn unreadable_arguments_and_bad_marks_are_refused() {
    let odd = Attribute { path: vec!["case".to_string()], args: Err("expected `tags`".to_string()) };
    assert_eq!(refused(vec![func(1, "f", vec![odd], 0)]).message, "expected `tags`");
    let e = refused(vec![func(1, "f", vec![attr("case", args(None, None, &["Bad_Tag"]))], 0)]);
    assert!(e.message.starts_with("invalid tag `Bad_Tag`"));
    let e = refused(vec![func(1, "f", vec![attr("case", args(None, None, &["a", "!a"]))], 0)]);
    assert!(e.message.contains("`a`"));
}

#[test]
fn names_and_records() {
    assert_eq!(ident_to_segment("r#type"), "type");
    assert_eq!(ident_to_segment("aes_gcm"), "aes-gcm");
    assert_eq!(join_name("", "a"), "a");
    assert_eq!(join_name("a", "b"), "a/b");
    let tags = [Tag::parse("a").unwrap(), Tag::parse("!b").unwrap()];
    assert_eq!(record_line("x/y", &tags), "x/y a !b\n");
}

// ------------------------------------------------------------ compose

fn section(id: u8, payload: &[u8]) -> Vec<u8> {
    let mut s = vec![id, payload.len() as u8];
    assert!(payload.len() < 0x80, "single-byte LEB only");
    s.extend_from_slice(payload);
    s
}

fn name(n: &str) -> Vec<u8> {
    let mut b = vec![0x00, n.len() as u8];
    b.extend_from_slice(n.as_bytes());
    b
}

/// A component that imports and exports instances. Imports have the given
/// instance type; exports are the empty instance.
fn component(imports: &[(&str, &[u8])], exports: &[&str]) -> Vec<u8> {
    let mut wasm = b"\0asm\x0d\0\x01\0".to_vec();
    for (i, (n, ty)) in imports.iter().enumerate() {
        let mut t = vec![0x01];
        t.extend_from_slice(ty);
        wasm.extend(section(0x07, &t));
        let mut imp = vec![0x01];
        imp.extend(name(n));
        imp.extend([0x05, i as u8]);
        wasm.extend(section(0x0a, &imp));
    }
    wasm.extend(section(0x05, &[0x01, 0x01, 0x00]));
    for n in exports {
        let mut exp = vec![0x01];
        exp.extend(name(n));
        exp.extend([0x05, imports.len() as u8, 0x00]);
        wasm.extend(section(0x0b, &exp));
    }
    wasm
}

/// The type of an instance that exports nothing.
const EMPTY: &[u8] = &[0x42, 0x00];

/// The type of an instance that exports a function `f`.
const WITH_F: &[u8] = &[
    0x42, 0x02, 0x01, 0x40, 0x00, 0x01, 0x00, 0x04, 0x00, 0x01, b'f', 0x01, 0x00,
];

const RUN: &str = "wasi:cli/run@0.2.0";

fn suite() -> Vec<u8> {
    component(&[(CONTEXT, EMPTY)], &[TESTS])
}

fn provider() -> Vec<u8> {
    component(&[], &[CONTEXT, FACTORY])
}

fn runner() -> Vec<u8> {
    component(&[(FACTORY, EMPTY), (CONTEXT, EMPTY), (TESTS, EMPTY)], &[RUN])
}

#[test]
fn inputs_are_classified_by_their_exports() {
    assert_eq!(classify(&suite()), Ok(Input::Suite));
    assert_eq!(classify(&runner()), Ok(Input::Composed));
    assert_eq!(
        classify(&component(&[], &[TESTS, CONTEXT, FACTORY])),
        Ok(Input::Bundle)
    );
    assert!(classify(b"not wasm").unwrap_err().starts_with("parsing the input component: "));
    let names = |v: &[&str]| v.iter().map(|s| s.to_string()).collect::<Vec<String>>();
    assert_eq!(classify_exports(&names(&[TESTS, CONTEXT])), Input::Suite);
    assert!(RUN.starts_with(RUN_PREFIX));
    assert!(check_input(&names(&[TESTS, CONTEXT])).unwrap_err().contains("but not both"));
    assert!(check_input(&names(&[CONTEXT])).unwrap_err().contains("not a test suite"));
    assert!(check_input(&names(&[RUN])).unwrap_err().contains("already composed"));
    assert_eq!(check_input(&names(&[TESTS])), Ok(Input::Suite));
    assert_eq!(
        check_magic("x.txt", b"hello").unwrap_err(),
        "x.txt is not a WebAssembly binary (bad magic)"
    );
    assert!(check_magic("x.wasm", &suite()).is_ok());
}

#[test]
fn a_suite_composes_with_provider_and_runner() {
    let out = compose(&suite(), &provider(), &runner()).unwrap();
    assert_eq!(classify(&out), Ok(Input::Composed));
    // Every component of the three is in the composition.
    let has = |part: &[u8]| out.windows(part.len()).any(|w| w == part);
    assert!(has(&suite()) && has(&provider()) && has(&runner()));
    // What is composed already is refused.
    assert!(compose(&out, &provider(), &runner())
        .unwrap_err()
        .contains("already composed"));
}

#[test]
fn a_bundle_needs_no_provider() {
    let bundle = component(&[], &[TESTS, CONTEXT, FACTORY]);
    let a = compose(&bundle, &provider(), &runner()).unwrap();
    let b = compose(&bundle, b"not wasm", &runner()).unwrap();
    assert_eq!(a, b);
    assert_eq!(classify(&a), Ok(Input::Composed));
}

#[test]
fn compositions_that_do_not_fit_are_refused() {
    assert!(compose(&suite(), b"not wasm", &runner())
        .unwrap_err()
        .starts_with("parsing the provider component: "));
    assert!(compose(&suite(), &provider(), b"not wasm")
        .unwrap_err()
        .starts_with("parsing the runner-cli component: "));
    assert_eq!(
        compose(&suite(), &provider(), &component(&[], &[TESTS])).unwrap_err(),
        "runner core exports no `wasi:cli/run@...` — not a runner core"
    );
    let picky = component(&[(FACTORY, WITH_F)], &[RUN]);
    let e = compose(&suite(), &provider(), &picky).unwrap_err();
    assert!(
        e.starts_with(&format!(
            "plugging the runner core's `{FACTORY}` import from the provider: "
        )),
        "{e}"
    );
}

/// The type of an instance that exports a core module `m`, which is empty.
const WITH_MODULE: &[u8] = &[
    0x42, 0x02, 0x00, 0x50, 0x00, 0x04, 0x00, 0x01, b'm', 0x00, 0x11, 0x00,
];

/// The type of an instance that exports a core module `m`, which imports a
/// function on references to a type of its own.
const WITH_REFERENCES: &[u8] = &[
    0x42, 0x02, 0x00, 0x50, 0x03, 0x01, 0x60, 0x00, 0x00, 0x01, 0x60, 0x01, 0x63, 0x00, 0x00, 0x00,
    0x01, b'a', 0x01, b'b', 0x00, 0x01, 0x04, 0x00, 0x01, b'm', 0x00, 0x11, 0x00,
];

/// The type of an instance that exports a resource `r` with a method.
const WITH_METHOD: &[u8] = &[
    0x42, 0x04, 0x04, 0x00, 0x01, b'r', 0x03, 0x01, 0x01, 0x68, 0x00, 0x01, 0x40, 0x01, 0x04, b's',
    b'e', b'l', b'f', 0x01, 0x01, 0x00, 0x04, 0x00, 0x0c, b'[', b'm', b'e', b't', b'h', b'o', b'd',
    b']', b'r', b'.', b'g', b'o', 0x01, 0x02,
];

/// The type of an instance that exports a record, and a resource where `sub`
/// says so.
fn with_record(sub: bool) -> Vec<u8> {
    let mut t = vec![0x42, 0x02 + sub as u8];
    t.extend([0x01, 0x72, 0x01, 0x01, b'a', 0x79]);
    t.extend([0x04, 0x00, 0x03, b'r', b'e', b'c', 0x03, 0x00, 0x00]);
    if sub {
        t.extend([0x04, 0x00, 0x01, b'r', 0x03, 0x01]);
    }
    t
}

/// A suite with a resource `r` and a function `f` among its imports, which are
/// no instances. The function has a handle of that kind.
fn with_handle(kind: u8) -> Vec<u8> {
    let mut wasm = suite();
    wasm.extend(section(0x0a, &[0x01, 0x00, 0x01, b'r', 0x03, 0x01]));
    wasm.extend(section(0x07, &[0x02, kind, 0x01, 0x40, 0x01, 0x01, b'a', 0x02, 0x01, 0x00]));
    wasm.extend(section(0x0a, &[0x01, 0x00, 0x01, b'f', 0x01, 0x03]));
    wasm
}

const KNOT: &str =
    "encoding the composition: an import that stays open is not one that can be composed";

#[test]
fn modules_speak_of_plain_types() {
    let odd = "its interface is not one that can be composed";
    let input = component(&[(CONTEXT, EMPTY), ("x:y/z", WITH_REFERENCES)], &[TESTS]);
    assert!(!check_readable(&input));
    assert_eq!(
        classify(&input).unwrap_err(),
        format!("parsing the input component: {odd}")
    );
    assert!(compose(&input, &provider(), &runner()).is_err());
    let picky = component(&[("x:y/z", WITH_REFERENCES)], &[CONTEXT, FACTORY]);
    assert_eq!(
        compose(&suite(), &picky, &runner()).unwrap_err(),
        format!("parsing the provider component: {odd}")
    );
    assert!(check_readable(&suite()) && check_readable(b"not wasm"));
    assert!(check_core(&[]) && check_core(&[vec![None, Some((false, false))], vec![]]));
    assert!(!check_core(&[vec![None], vec![None, Some((true, false))]]));
    assert!(!check_core(&[vec![Some((false, true))]]));
}

#[test]
fn an_instance_of_modules_is_read_but_not_left_open() {
    let input = component(&[(CONTEXT, EMPTY), ("x:y/z", WITH_MODULE)], &[TESTS]);
    assert_eq!(classify(&input), Ok(Input::Suite));
    assert_eq!(compose(&input, &provider(), &runner()).unwrap_err(), KNOT);
    assert!(!check_links(&input, &[]));
}

/// A component that imports two instances of one type.
fn twice(ty: &[u8]) -> Vec<u8> {
    let mut wasm = component(&[(CONTEXT, EMPTY), ("x:y/z", ty)], &[TESTS]);
    let mut again = vec![0x01];
    again.extend(name("x:y/w"));
    again.extend([0x05, 0x01]);
    wasm.extend(section(0x0a, &again));
    wasm
}

#[test]
fn a_type_of_an_instance_is_of_one_instance() {
    for sub in [false, true] {
        let ty = with_record(sub);
        let once = component(&[(CONTEXT, EMPTY), ("x:y/z", &ty)], &[TESTS]);
        assert_eq!(classify(&once), Ok(Input::Suite));
        assert!(compose(&once, &provider(), &runner()).is_ok());
        assert_eq!(check_readable(&twice(&ty)), !sub);
        assert_eq!(classify(&twice(&ty)).is_ok(), !sub);
        assert!(!check_links(&twice(&ty), &[]));
    }
    assert_eq!(
        compose(&twice(&with_record(false)), &provider(), &runner()).unwrap_err(),
        KNOT
    );
    // Without a type of its own, an instance may come twice.
    assert!(check_links(&twice(WITH_F), &[]));
    assert!(compose(&twice(WITH_F), &provider(), &runner()).is_ok());
}

/// A suite that holds a component with two imports of that type, and
/// instantiates it.
fn instantiating(ty: &[u8]) -> Vec<u8> {
    let mut inner = b"\0asm\x0d\0\x01\0".to_vec();
    let mut t = vec![0x01];
    t.extend_from_slice(ty);
    inner.extend(section(0x07, &t));
    inner.extend(section(0x0a, &[0x02, 0x00, 0x01, b'a', 0x05, 0x00, 0x00, 0x01, b'b', 0x05, 0x00]));
    let mut wasm = component(&[(CONTEXT, EMPTY), ("x:y/z", ty)], &[TESTS]);
    wasm.extend(section(0x04, &inner));
    wasm.extend(section(
        0x05,
        &[0x01, 0x00, 0x00, 0x02, 0x01, b'a', 0x05, 0x01, 0x01, b'b', 0x05, 0x01],
    ));
    wasm
}

#[test]
fn instantiations_meet_each_type_once() {
    assert!(check_settled(&instantiating(WITH_F)));
    assert_eq!(classify(&instantiating(WITH_F)), Ok(Input::Suite));
    assert!(!check_settled(&instantiating(&with_record(false))));
    assert!(classify(&instantiating(&with_record(false))).is_err());
    assert!(check_settled(&twice(&with_record(true))) && check_settled(b"not wasm"));
}

#[test]
fn open_functions_own_but_do_not_borrow() {
    let (own, borrow) = (with_handle(0x69), with_handle(0x68));
    assert_eq!(classify(&own), Ok(Input::Suite));
    assert_eq!(classify(&borrow), Ok(Input::Suite));
    assert!(compose(&own, &provider(), &runner()).is_ok());
    assert_eq!(compose(&borrow, &provider(), &runner()).unwrap_err(), KNOT);
    let fed = |v: &[&str]| v.iter().map(|s| s.to_string()).collect::<Vec<String>>();
    assert!(check_links(&own, &[]));
    assert!(!check_links(&own, &fed(&["r"])));
    assert!(check_links(&borrow, &fed(&["f"])));
    assert!(check_links(b"not wasm", &[]));
}

#[test]
fn methods_stay_with_their_resource() {
    let input = component(&[(CONTEXT, EMPTY), ("x:y/z", WITH_METHOD)], &[TESTS]);
    let out = compose(&input, &provider(), &runner()).unwrap();
    assert_eq!(classify(&out), Ok(Input::Composed));
}

/// A suite that imports an interface with a resource `r` and a record `rec`
/// that owns one, and has types of its own for both (the third and fourth).
fn with_owner() -> Vec<u8> {
    let mut wasm = suite();
    wasm.extend(section(
        0x07,
        &[
            0x01, 0x42, 0x04, 0x04, 0x00, 0x01, b'r', 0x03, 0x01, 0x01, 0x69, 0x00, 0x01, 0x72,
            0x01, 0x01, b'h', 0x01, 0x04, 0x00, 0x03, b'r', b'e', b'c', 0x03, 0x00, 0x02,
        ],
    ));
    let mut import = vec![0x01];
    import.extend(name("x:y/a"));
    import.extend([0x05, 0x01]);
    wasm.extend(section(0x0a, &import));
    wasm.extend(section(
        0x06,
        &[0x02, 0x03, 0x00, 0x03, 0x01, b'r', 0x03, 0x00, 0x03, 0x03, b'r', b'e', b'c'],
    ));
    wasm
}

#[test]
fn an_interface_takes_types_from_another() {
    let mut input = with_owner();
    input.extend(section(
        0x07,
        &[
            0x01, 0x42, 0x06, 0x02, 0x03, 0x02, 0x01, 0x02, 0x04, 0x00, 0x01, b'r', 0x03, 0x00,
            0x00, 0x02, 0x03, 0x02, 0x01, 0x03, 0x04, 0x00, 0x03, b'r', b'e', b'c', 0x03, 0x00,
            0x02, 0x01, 0x40, 0x01, 0x01, b'a', 0x03, 0x01, 0x00, 0x04, 0x00, 0x01, b'f', 0x01,
            0x04,
        ],
    ));
    let mut import = vec![0x01];
    import.extend(name("x:y/b"));
    import.extend([0x05, 0x04]);
    input.extend(section(0x0a, &import));
    assert_eq!(classify(&input), Ok(Input::Suite));
    let out = compose(&input, &provider(), &runner()).unwrap();
    assert_eq!(classify(&out), Ok(Input::Composed));
}

#[test]
fn open_functions_speak_of_open_resources() {
    for with_resource in [true, false] {
        let mut input = with_owner();
        if with_resource {
            input.extend(section(0x0a, &[0x01, 0x00, 0x01, b'r', 0x03, 0x00, 0x02]));
        }
        let rec = 4 + with_resource as u8;
        let import_rec = [0x01, 0x00, 0x03, b'r', b'e', b'c', 0x03, 0x00, 0x03];
        input.extend(section(0x0a, &import_rec));
        input.extend(section(0x07, &[0x01, 0x40, 0x01, 0x01, b'a', rec, 0x01, 0x00]));
        input.extend(section(0x0a, &[0x01, 0x00, 0x01, b'f', 0x01, rec + 1]));
        assert_eq!(classify(&input), Ok(Input::Suite));
        match compose(&input, &provider(), &runner()) {
            Ok(out) => {
                assert!(with_resource);
                assert_eq!(classify(&out), Ok(Input::Composed));
            }
            Err(e) => {
                assert_eq!(e, KNOT);
                assert!(!with_resource);
            }
        }
    }
}

/// A component with an import more, of a type that it has.
fn importing(mut wasm: Vec<u8>, n: &str, kind: u8, ty: u8) -> Vec<u8> {
    let mut import = vec![0x01];
    import.extend(name(n));
    import.extend([kind, ty]);
    wasm.extend(section(0x0a, &import));
    wasm
}

#[test]
fn resources_come_before_what_speaks_of_them() {
    let early = [
        0x01, 0x42, 0x05, 0x02, 0x03, 0x02, 0x01, 0x02, 0x04, 0x00, 0x01, b'r', 0x03, 0x00, 0x00,
        0x01, 0x69, 0x00, 0x01, 0x40, 0x01, 0x01, b'a', 0x02, 0x01, 0x00, 0x04, 0x00, 0x01, b'f',
        0x01, 0x03,
    ];
    let late = [
        0x01, 0x42, 0x05, 0x02, 0x03, 0x02, 0x01, 0x02, 0x01, 0x69, 0x00, 0x01, 0x40, 0x01, 0x01,
        b'a', 0x01, 0x01, 0x00, 0x04, 0x00, 0x01, b'f', 0x01, 0x02, 0x04, 0x00, 0x01, b'r', 0x03,
        0x00, 0x00,
    ];
    for (ty, fits) in [(early, true), (late, false)] {
        let mut input = with_owner();
        input.extend(section(0x07, &ty));
        let input = importing(input, "x:y/b", 0x05, 0x04);
        assert_eq!(classify(&input), Ok(Input::Suite));
        let out = compose(&input, &provider(), &runner());
        let expected = if fits { Ok(Ok(Input::Composed)) } else { Err(KNOT.to_string()) };
        assert_eq!(out.map(|o| classify(&o)), expected);
    }

    // So it is with what the composition itself imports.
    let import_r = section(0x0a, &[0x01, 0x00, 0x01, b'r', 0x03, 0x00, 0x02]);
    for before in [true, false] {
        let mut input = with_owner();
        if before {
            input.extend_from_slice(&import_r);
        }
        let own = 4 + before as u8;
        input.extend(section(0x07, &[0x02, 0x69, 0x02, 0x40, 0x01, 0x01, b'a', own, 0x01, 0x00]));
        let mut input = importing(input, "f", 0x01, own + 1);
        if !before {
            input.extend_from_slice(&import_r);
        }
        assert_eq!(classify(&input), Ok(Input::Suite));
        let out = compose(&input, &provider(), &runner());
        let expected = if before { Ok(Ok(Input::Composed)) } else { Err(KNOT.to_string()) };
        assert_eq!(out.map(|o| classify(&o)), expected);
    }
}

/// A component with two imports more: an interface with a resource `r`, and
/// one that takes it from there. Before, it has so many types and instances.
fn taking(mut wasm: Vec<u8>, types: u8, instances: u8, first: &str, second: &str) -> Vec<u8> {
    wasm.extend(section(0x07, &[0x01, 0x42, 0x01, 0x04, 0x00, 0x01, b'r', 0x03, 0x01]));
    let mut wasm = importing(wasm, first, 0x05, types);
    wasm.extend(section(0x06, &[0x01, 0x03, 0x00, instances, 0x01, b'r']));
    wasm.extend(section(
        0x07,
        &[
            0x01, 0x42, 0x02, 0x02, 0x03, 0x02, 0x01, types + 1, 0x04, 0x00, 0x01, b'r', 0x03,
            0x00, 0x00,
        ],
    ));
    importing(wasm, second, 0x05, types + 2)
}

#[test]
fn interfaces_do_not_take_in_a_circle() {
    let input = taking(suite(), 1, 3, "x:y/a", "x:y/b");
    assert_eq!(classify(&input), Ok(Input::Suite));
    let plain = compose(&input, &provider(), &runner()).unwrap();
    assert_eq!(classify(&plain), Ok(Input::Composed));
    let same = taking(runner(), 3, 5, "x:y/a", "x:y/b");
    let merged = compose(&input, &provider(), &same).unwrap();
    assert_eq!(classify(&merged), Ok(Input::Composed));
    // An instance with a plain name takes from an interface, and not the other
    // way round.
    let plain = taking(suite(), 1, 3, "x:y/a", "foo");
    let out = compose(&plain, &provider(), &runner()).unwrap();
    assert_eq!(classify(&out), Ok(Input::Composed));
    let plain = taking(suite(), 1, 3, "foo", "x:y/b");
    assert_eq!(classify(&plain), Ok(Input::Suite));
    assert_eq!(compose(&plain, &provider(), &runner()).unwrap_err(), KNOT);

    let other = taking(runner(), 3, 5, "x:y/b", "x:y/a");
    assert_eq!(compose(&input, &provider(), &other).unwrap_err(), KNOT);

    let tie = |a: &str, b: &str| (a.to_string(), b.to_string());
    assert!(check_drains(vec![]));
    assert!(check_drains(vec![tie("a", "b"), tie("c", "b"), tie("b", "d"), tie("a", "d")]));
    assert!(!check_drains(vec![tie("a", "b"), tie("b", "c"), tie("c", "a")]));
    assert!(!check_drains(vec![tie("d", "a"), tie("a", "a")]));
}

#[test]
fn imports_of_one_type_take_nothing() {
    let input = importing(suite(), "x:y/c", 0x05, 0x00);
    assert_eq!(classify(&input), Ok(Input::Suite));
    let out = compose(&input, &provider(), &runner()).unwrap();
    assert_eq!(classify(&out), Ok(Input::Composed));
    let input = taking(suite(), 1, 3, "x:y/a", "x:y/b");
    let input = importing(input, "x:y/c", 0x05, 0x00);
    assert_eq!(classify(&input), Ok(Input::Suite));
    assert_eq!(compose(&input, &provider(), &runner()).unwrap_err(), KNOT);

    // So it is where a resource that is imported stands for another.
    let mut input = with_owner();
    input.extend(section(0x0a, &[0x01, 0x00, 0x01, b'r', 0x03, 0x00, 0x02]));
    let out = compose(&input, &provider(), &runner()).unwrap();
    assert_eq!(classify(&out), Ok(Input::Composed));
    let other = importing(importing(runner(), "foo", 0x05, 0x00), "x:y/a", 0x05, 0x00);
    assert_eq!(compose(&input, &provider(), &other).unwrap_err(), KNOT);
}

#[test]
fn core_modules_are_imported_and_exported() {
    let mut input = suite();
    input.extend(section(0x03, &[0x01, 0x50, 0x00]));
    input.extend(section(0x0a, &[0x01, 0x00, 0x01, b'm', 0x00, 0x11, 0x00]));
    input.extend(section(0x0b, &[0x01, 0x00, 0x01, b'n', 0x00, 0x11, 0x00, 0x00]));
    assert_eq!(classify(&input), Ok(Input::Suite));
    assert!(compose(&input, &provider(), &runner()).is_ok());
}

/// The type of an instance that exports an instance of that type as `n`.
fn nesting(ty: &[u8], n: &str) -> Vec<u8> {
    let mut t = vec![0x42, 0x02, 0x01];
    t.extend_from_slice(ty);
    t.push(0x04);
    t.extend(name(n));
    t.extend([0x05, 0x00]);
    t
}

#[test]
fn instances_nest() {
    for ty in [EMPTY, WITH_F, WITH_METHOD, &with_record(true), &nesting(WITH_F, "m")] {
        let input = component(&[(CONTEXT, EMPTY), ("x:y/z", &nesting(ty, "n"))], &[TESTS]);
        assert_eq!(classify(&input), Ok(Input::Suite));
        let out = compose(&input, &provider(), &runner()).unwrap();
        assert_eq!(classify(&out), Ok(Input::Composed));
    }
    let input = component(&[(CONTEXT, EMPTY), ("x:y/z", &nesting(WITH_MODULE, "n"))], &[TESTS]);
    assert_eq!(compose(&input, &provider(), &runner()).unwrap_err(), KNOT);

    // What is nested is of a type of its own.
    let mut input = component(&[(CONTEXT, EMPTY), ("x:y/z", WITH_F)], &[TESTS]);
    input.extend(section(
        0x07,
        &[0x01, 0x42, 0x02, 0x02, 0x03, 0x02, 0x01, 0x01, 0x04, 0x00, 0x01, b'n', 0x05, 0x00],
    ));
    let input = importing(input, "x:y/a", 0x05, 0x02);
    assert_eq!(classify(&input), Ok(Input::Suite));
    assert_eq!(compose(&input, &provider(), &runner()).unwrap_err(), KNOT);
}

#[test]
fn imports_that_nothing_feeds_stay_imports() {
    let input = component(&[(CONTEXT, EMPTY), ("x:y/z", WITH_F)], &[TESTS]);
    let out = compose(&input, &provider(), &runner()).unwrap();
    assert!(check_readable(&out));
    assert!(out.windows(5).filter(|w| *w == b"x:y/z").count() > 1);
}

/// References between the types of a core module inside a component are its
/// own affair.
#[test]
fn what_a_component_holds_inside_does_not_matter() {
    let mut module = b"\0asm\x01\0\0\0".to_vec();
    module.extend(section(0x01, &[0x02, 0x60, 0x00, 0x00, 0x60, 0x01, 0x63, 0x00, 0x00]));
    let mut input = suite();
    input.extend(section(0x01, &module));
    assert_eq!(classify(&input), Ok(Input::Suite));
    assert!(compose(&input, &provider(), &runner()).is_ok());
}
