use component_test::digest::{hex_text, sha256_hex};
use component_test::inventory::{
    gather_tags, inventory, parse_tags_records, try_inventory, Inventory,
};
use component_test::lock::{check_lock, gate, lock, lock_suite, pin_leaves, written_line};
use component_test::lockfile::{CaseEntry, GeneratedEntry, Lockfile, SuiteRef};
use component_test::name::{CaseName, TAGS_SECTION};
use component_test::order::sort_texts;
use component_test::schedule::{check_missing, plan_cases, runnable_of, stripe_of};
use component_test::tags::Tag;

#[test]
fn parses_records() {
    let inv = parse_tags_records(b"sample/math/add\nsample/hsm/attest hsm !sim\n").unwrap();
    assert_eq!(inv.cases.len(), 2);
    assert_eq!(inv.cases[1].tags.len(), 2);
    assert_eq!(inv.cases[1].tags[1].to_string(), "!sim");
}

#[test]
fn parses_prefix_records() {
    let inv = parse_tags_records(b"aes-gcm/wycheproof/* aes-gcm\nplain/case\n").unwrap();
    assert_eq!(inv.cases.len(), 1);
    assert_eq!(inv.generated.len(), 1);
    assert_eq!(inv.generated[0].prefix, "aes-gcm/wycheproof");
    assert_eq!(inv.generated[0].tags[0].to_string(), "aes-gcm");
    assert!(parse_tags_records(b"a_b/* x\n").is_err());
    assert!(parse_tags_records(b"375/*\n").is_err());
}

#[test]
fn rejects_bad_records() {
    assert!(parse_tags_records(b"Bad/Name\n").is_err());
    assert!(parse_tags_records(b"a/x\na/x\n").is_err());
    assert!(parse_tags_records(b"a/x Bad_Tag\n").is_err());
    assert!(parse_tags_records(b"a/x hsm !hsm\n").is_err());
}

#[test]
fn records_are_text() {
    assert_eq!(
        parse_tags_records(b"a/x\xff\n").unwrap_err(),
        "tags section is not UTF-8: invalid utf-8 sequence of 1 bytes from index 3"
    );
    assert_eq!(parse_tags_records(b"\n\n").unwrap(), Inventory::default());
}

#[test]
fn only_marks_sections_are_gathered() {
    let section = |name: &str, data: &[u8]| Some((name.to_string(), data.to_vec()));
    let payloads = [
        None,
        section("name", b"ignored"),
        section(TAGS_SECTION, b"a/x"),
        None,
        section(TAGS_SECTION, b"b/y\n"),
    ];
    assert_eq!(gather_tags(&payloads), b"a/x\nb/y\n");
    assert_eq!(gather_tags(&[None, section("name", b"ignored")]), b"");
    assert_eq!(gather_tags(&[section(TAGS_SECTION, b"")]), b"\n");
}

/// Minimal core module: magic + version + the given custom
/// sections (payloads small enough for single-byte LEB sizes).
fn module_with_sections(sections: &[(&str, &[u8])]) -> Vec<u8> {
    let mut wasm = b"\0asm\x01\0\0\0".to_vec();
    for (name, data) in sections {
        let mut payload = vec![name.len() as u8];
        payload.extend_from_slice(name.as_bytes());
        payload.extend_from_slice(data);
        assert!(payload.len() < 0x80, "single-byte LEB only");
        wasm.push(0x00); // custom section id
        wasm.push(payload.len() as u8);
        wasm.extend_from_slice(&payload);
    }
    wasm
}

#[test]
fn sections_do_not_fuse_without_trailing_newline() {
    let wasm = module_with_sections(&[
        (TAGS_SECTION, b"a/x".as_slice()), // no trailing newline
        (TAGS_SECTION, b"b/y hsm\nb/z !hsm\n".as_slice()),
    ]);
    let inv = try_inventory(&wasm).unwrap().unwrap();
    let names: Vec<String> = inv.cases.iter().map(|c| c.name.to_string()).collect();
    assert_eq!(names, ["a/x", "b/y", "b/z"]);
}

#[test]
fn absent_section_is_none_but_malformed_is_err() {
    let bare = module_with_sections(&[]);
    assert!(try_inventory(&bare).unwrap().is_none());
    assert!(inventory(&bare).is_err());

    let bad = module_with_sections(&[(TAGS_SECTION, b"Bad/Name\n".as_slice())]);
    assert!(try_inventory(&bad).is_err());
}

#[test]
fn inventories_tell_their_records_exactly() {
    let wasm = module_with_sections(&[
        (TAGS_SECTION, b"b/y hsm\ngen/*".as_slice()),
        (TAGS_SECTION, b"a/x !sim\n".as_slice()),
    ]);
    let inv = try_inventory(&wasm).unwrap().unwrap();
    let told: Vec<(String, Vec<String>)> = inv
        .cases
        .iter()
        .map(|c| (c.name.to_string(), c.tags.iter().map(|t| t.to_string()).collect()))
        .collect();
    assert_eq!(
        told,
        [
            ("a/x".to_string(), vec!["!sim".to_string()]),
            ("b/y".to_string(), vec!["hsm".to_string()]),
        ]
    );
    assert_eq!(inv.generated.len(), 1);
    assert_eq!(inv.generated[0].prefix, "gen");
    assert!(inv.generated[0].tags.is_empty());

    // A name or a row that two sections tell is one too many.
    for line in ["a/x\n", "gen/*\n"] {
        let twice = module_with_sections(&[
            (TAGS_SECTION, line.as_bytes()),
            (TAGS_SECTION, line.as_bytes()),
        ]);
        assert!(try_inventory(&twice).is_err(), "{line}");
    }
}

#[test]
fn inventory_comes_in_name_order() {
    let wasm = module_with_sections(&[
        ("other", b"not/ours".as_slice()),
        (TAGS_SECTION, b"b/y\na/z\nrow/b/*\nrow/a/*\na/x\n".as_slice()),
    ]);
    let inv = inventory(&wasm).unwrap();
    let names: Vec<String> = inv.cases.iter().map(|c| c.name.to_string()).collect();
    assert_eq!(names, ["a/x", "a/z", "b/y"]);
    let rows: Vec<&str> = inv.generated.iter().map(|g| g.prefix.as_str()).collect();
    assert_eq!(rows, ["row/a", "row/b"]);
}

#[test]
fn truncated_binary_is_an_error() {
    let mut wasm = module_with_sections(&[(TAGS_SECTION, b"a/x\n".as_slice())]);
    wasm.pop();
    assert!(try_inventory(&wasm).is_err());
    assert!(try_inventory(b"not wasm").is_err());
}

#[test]
fn digests() {
    assert_eq!(
        sha256_hex(b""),
        "e3b0c44298fc1c149afbf4c8996fb92427ae41e4649b934ca495991b7852b855"
    );
    assert_eq!(
        sha256_hex(b"abc"),
        "ba7816bf8f01cfea414140de5dae2223b00361a396177a9cb410ff61f20015ad"
    );
    assert_eq!(hex_text(&[0x00, 0x0f, 0xa5, 0xff]), "000fa5ff");
}

// --------------------------------------------------------------- lock

fn fixture() -> Vec<u8> {
    module_with_sections(&[(
        TAGS_SECTION,
        b"fixture/hsm/attest hsm\nfixture/hsm/declined !hsm\nfixture/gen/*\n".as_slice(),
    )])
}

#[test]
fn locking_reads_the_inventory() {
    let wasm = fixture();
    let l = lock_suite("fixture_suite", &wasm).unwrap();
    assert_eq!(l.suite.name, "fixture_suite");
    assert_eq!(l.suite.artifact_sha256, Some(sha256_hex(&wasm)));
    assert_eq!(l.case.len(), 2);
    assert_eq!(l.generated[0].prefix, "fixture/gen");
    assert_eq!(l.version, "0.1");
    assert!(l.validate().is_ok());
    assert_eq!(written_line("tests.lock", &l), "wrote 2 cases to tests.lock");
    assert!(lock_suite("bare", &module_with_sections(&[])).is_err());
}

#[test]
fn leaves_pin_generated_rows() {
    let wasm = fixture();
    let leaves = "fixture/hsm/attest\nfixture/gen/tc1\nfixture/gen/tc2\n";
    let pinned = lock("fixture_suite", &wasm, Some(leaves)).unwrap();
    assert_eq!(pinned.generated[0].cases, ["tc1", "tc2"]);

    let again = lock("fixture_suite", &wasm, Some(leaves)).unwrap();
    assert_eq!(
        gate("tests.lock", &pinned, &again, true).unwrap(),
        ["ok: 2 cases match tests.lock"]
    );

    // Without an enumeration only the static parts are compared.
    let bare = lock("fixture_suite", &wasm, None).unwrap();
    let said = gate("tests.lock", &pinned, &bare, false).unwrap();
    assert_eq!(said.len(), 2);
    assert!(said[0].contains("static check only"));

    // A drifted enumeration fails the comparison.
    let drifted = lock("fixture_suite", &wasm, Some("fixture/gen/tc1\nfixture/gen/tc3\n")).unwrap();
    let e = check_lock("tests.lock", &pinned, &drifted, true).unwrap_err();
    assert!(e.contains("lockfile drift"), "{e}");

    // An entry that matches nothing is inventory drift.
    let e = lock("fixture_suite", &wasm, Some("fixture/gen/tc1\nother/suite/case\n")).unwrap_err();
    assert!(e.contains("matches no static case or generated prefix"), "{e}");
}

#[test]
fn digest_is_not_identity() {
    let l = lock_suite("s", &fixture()).unwrap();
    let mut other = lock_suite("s", &fixture()).unwrap();
    other.suite.artifact_sha256 = None;
    assert!(gate("tests.lock", &other, &l, true).is_ok());
}

#[test]
fn another_suite_is_drift() {
    let a = lock_suite("a", &fixture()).unwrap();
    let b = lock_suite(
        "b",
        &module_with_sections(&[(TAGS_SECTION, b"sample/add\n".as_slice())]),
    )
    .unwrap();
    assert!(check_lock("tests.lock", &b, &a, false)
        .unwrap_err()
        .contains("lockfile drift"));
}

fn entry(name: &str, tags: &[&str]) -> CaseEntry {
    CaseEntry {
        name: CaseName::parse(name).unwrap(),
        tags: tags.iter().map(|t| Tag::parse(t).unwrap()).collect(),
    }
}

fn row(prefix: &str, tags: &[&str], cases: &[&str]) -> GeneratedEntry {
    GeneratedEntry {
        prefix: prefix.to_string(),
        tags: tags.iter().map(|t| Tag::parse(t).unwrap()).collect(),
        cases: cases.iter().map(|c| c.to_string()).collect(),
    }
}

fn suite() -> SuiteRef {
    SuiteRef { name: "s".to_string(), artifact_sha256: None }
}

#[test]
fn lockfile_validation() {
    let ok = Lockfile::with_generated(
        suite(),
        vec![entry("a/pos", &["hsm"]), entry("a/neg", &["!hsm"])],
        vec![row("g/rows", &[], &["tc1"])],
    );
    assert_eq!(ok.validate().unwrap().to_keys(), ["hsm"]);

    let fault = |cases: Vec<CaseEntry>, rows: Vec<GeneratedEntry>| {
        Lockfile::with_generated(suite(), cases, rows).validate().unwrap_err()
    };
    assert!(fault(vec![entry("a/x", &[]), entry("a/x", &[])], vec![]).contains("a/x"));
    assert!(fault(vec![entry("a/x", &["hsm"])], vec![]).contains("hsm"));
    assert!(fault(vec![entry("a/x", &["hsm", "!hsm"])], vec![]).contains("a/x"));
    assert!(fault(vec![], vec![row("375", &[], &[])]).contains("375"));
    assert!(fault(vec![], vec![row("g", &[], &[]), row("g", &[], &[])]).contains("g"));

    let mut old = Lockfile::new(suite(), vec![]);
    old.version = "9.9".to_string();
    assert!(old.validate().unwrap_err().contains("9.9"));
}

#[test]
fn coverage_is_exactly_once() {
    let l = Lockfile::with_generated(
        suite(),
        vec![entry("a/x", &[]), entry("a/y", &[])],
        vec![row("g/rows", &[], &["tc1"]), row("g/rows/deep", &[], &[])],
    );
    assert!(l.check_coverage(&["a/x", "a/y", "g/rows/tc1", "g/rows/deep/any"]).is_ok());
    assert!(l.check_coverage(&["a/x", "g/rows/tc1"]).unwrap_err().contains("a/y"));
    assert!(l
        .check_coverage(&["a/x", "a/x", "a/y", "g/rows/tc1"])
        .unwrap_err()
        .contains("more than once"));
    assert!(l.check_coverage(&["a/x", "a/y"]).is_err());
    assert!(l.check_coverage(&["a/x", "a/y", "g/rows/tc1", "other"]).is_err());
    assert_eq!(l.prefix_of("g/rows/deep/any").unwrap().prefix, "g/rows/deep");
    assert_eq!(l.prefix_of("g/rows/tc1").unwrap().prefix, "g/rows");
    assert!(l.prefix_of("a/x").is_none());
}

#[test]
fn pinning_keeps_the_static_parts() {
    let base = || Lockfile::with_generated(suite(), vec![entry("a/x", &[])], vec![row("g", &[], &[])]);
    let pinned = pin_leaves(base(), "g/b\ng/a\na/x\n").unwrap();
    assert_eq!(pinned.case, base().case);
    assert_eq!(pinned.generated[0].cases, ["b", "a"]);
    assert!(check_lock("l", &pinned, &base(), false).is_ok());
    assert!(check_lock("l", &pinned, &base(), true).is_err());
}

// ----------------------------------------------------------- planning

fn strings(v: &[&str]) -> Vec<String> {
    v.iter().map(|s| s.to_string()).collect()
}

#[test]
fn texts_sort() {
    assert_eq!(sort_texts(&strings(&["b", "a", "ab", "b"])), ["a", "ab", "b", "b"]);
}

#[test]
fn missing_features_exclude_cases() {
    let inv = inventory(&fixture()).unwrap();
    let names = strings(&[
        "fixture/gen/tc1",
        "fixture/hsm/attest",
        "fixture/hsm/declined",
        "fixture/gen/tc2",
    ]);
    let plan = plan_cases(Some(&inv), &names, &[], None).unwrap();
    let all: Vec<&str> = plan.iter().map(|p| p.name.as_str()).collect();
    assert_eq!(all, names);
    assert_eq!(plan[1].excluded, None);
    assert_eq!(plan[2].excluded.as_deref(), Some("!hsm"));
    assert_eq!(runnable_of(&plan), [0, 1, 3]);

    let plan = plan_cases(Some(&inv), &names, &strings(&["hsm"]), None).unwrap();
    assert_eq!(plan[1].excluded.as_deref(), Some("hsm"));
    assert_eq!(plan[2].excluded, None);

    let plan = plan_cases(Some(&inv), &names, &[], Some("tc")).unwrap();
    assert_eq!(plan.len(), 2);
    assert_eq!(plan[1].index, 3);
}

#[test]
fn drift_refuses_the_run() {
    let inv = inventory(&fixture()).unwrap();
    // A case that the inventory knows and the suite does not enumerate.
    let e = plan_cases(Some(&inv), &strings(&["fixture/hsm/attest", "fixture/gen/tc1"]), &[], None)
        .unwrap_err();
    assert!(e.contains("inventory drift") && e.contains("fixture/hsm/declined"), "{e}");
    // And the other way round.
    let e = plan_cases(
        Some(&inv),
        &strings(&["fixture/hsm/attest", "fixture/hsm/declined", "zzz/phantom"]),
        &[],
        None,
    )
    .unwrap_err();
    assert!(e.contains("all()-only") && e.contains("zzz/phantom"), "{e}");
}

#[test]
fn zero_row_generator_declines_nothing() {
    let wasm = module_with_sections(&[(
        TAGS_SECTION,
        b"z/phantom/attest phantom\nz/gen/* !phantom\n".as_slice(),
    )]);
    let inv = inventory(&wasm).unwrap();
    let e = plan_cases(Some(&inv), &strings(&["z/phantom/attest"]), &[], None).unwrap_err();
    assert!(e.contains("decline-pair check"), "{e}");
    assert!(e.contains("phantom") && e.contains("zero-row generator"), "{e}");
}

#[test]
fn empty_selections_are_errors() {
    assert!(plan_cases(None, &[], &[], None).unwrap_err().contains("zero cases"));
    let e = plan_cases(None, &strings(&["a/x"]), &[], Some("zzz-no-match")).unwrap_err();
    assert!(e.contains("matches no cases"), "{e}");
    assert!(check_missing(false, &strings(&["hsm"])).unwrap_err().starts_with("--missing requires"));
    assert!(check_missing(true, &strings(&["hsm"])).is_ok());
    assert!(check_missing(false, &[]).is_ok());
}

#[test]
fn stripes_cover_disjointly() {
    let items = [10, 11, 12, 13, 14];
    assert_eq!(stripe_of(&items, 0, 2), [10, 12, 14]);
    assert_eq!(stripe_of(&items, 1, 2), [11, 13]);
    assert_eq!(stripe_of(&items, 2, 2), [0usize; 0]);
}

#[test]
fn the_order_of_records_does_not_show() {
    let one = module_with_sections(&[
        (TAGS_SECTION, b"b/y hsm\nrow/*\n".as_slice()),
        (TAGS_SECTION, b"a/x !hsm\na/z\n".as_slice()),
    ]);
    let two = module_with_sections(&[
        (TAGS_SECTION, b"a/z\na/x !hsm".as_slice()),
        (TAGS_SECTION, b"row/*\n".as_slice()),
        (TAGS_SECTION, b"b/y hsm\n".as_slice()),
    ]);
    let inv = try_inventory(&one).unwrap().unwrap();
    assert_eq!(inv.cases.len(), 3);
    assert_eq!(inv.generated.len(), 1);
    assert_eq!(try_inventory(&two).unwrap().unwrap(), inv);
}
