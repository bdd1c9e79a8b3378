use component_test::pins::{
    bump_action_refs, bump_cargo_file, bump_cargo_toml, bump_named_lines, bump_package_file,
    bump_workflow_file, cargo_lock_pins, cargo_lock_revs, collect_revs, indent, is_rev,
    js_lock_pins, js_lock_revs, judge_pins, map_lines, next_steps, parse_rev,
    replace_bounded_revs, rev_param, PinsOutcome, JS_PACKAGE,
};
use component_test::table::Table;
use component_test::tomlread::toml_string_rows;

const REV: &str = "b80c13be7b9fecfed8ec10a91d23d8cf8349defe";
const OTHER: &str = "1917446e19c9e84cd5b9ad8def56d924f60adf61";

fn cargo_lock(rev: &str) -> String {
    format!(
        r#"
version = 4

[[package]]
name = "anyhow"
version = "1.0.0"
source = "registry+https://github.com/rust-lang/crates.io-index"

[[package]]
name = "component-test-runner"
version = "0.1.0"
source = "git+https://github.com/polymorph-components/polymorph-test?rev={rev}#{rev}"

[[package]]
name = "component-test-sdk"
version = "0.1.0"
source = "git+https://github.com/polymorph-components/polymorph-test?rev={rev}#{rev}"

[[package]]
name = "component-test-local"
version = "0.1.0"
"#
    )
}

#[test]
fn cargo_lock_extraction_is_name_anchored() {
    let revs = cargo_lock_revs(&cargo_lock(REV)).unwrap();
    assert_eq!(
        revs,
        vec![
            ("component-test-runner".into(), REV.to_string()),
            ("component-test-sdk".into(), REV.to_string()),
        ]
    );
    // A renamed repository changes the URL, not the crate names.
    let renamed = cargo_lock(REV).replace("polymorph-components/polymorph-test", "elsewhere/x");
    assert_eq!(cargo_lock_revs(&renamed).unwrap().len(), 2);
}

#[test]
fn cargo_lock_short_rev_resolves_via_fragment() {
    let lock = cargo_lock(REV).replace(&format!("?rev={REV}"), "?rev=b80c13be");
    let revs = cargo_lock_revs(&lock).unwrap();
    assert!(revs.iter().all(|(_, r)| r == REV));
}

#[test]
fn npm_package_lock_block_scan() {
    let lock = format!(
        r#"{{
  "name": "jco",
  "lockfileVersion": 3,
  "packages": {{
    "": {{
      "dependencies": {{
        "@polymorph/component-test-js": "github:polymorph-components/polymorph-test#{REV}"
      }}
    }},
    "node_modules/@polymorph/component-test-js": {{
      "version": "0.2.0",
      "resolved": "git+ssh://git@github.com/polymorph-components/polymorph-test.git#{REV}",
      "integrity": "sha512-FSOFPIQsMi5E83WwZvRrRiU6UBZ1WhegHCPOg3Zly7ntycw19KXNN9Vm8Gxjc1E6iL22DkL18aY8huZnfMo3hQ=="
    }}
  }}
}}
"#
    );
    assert_eq!(js_lock_revs(&lock), vec![REV.to_string()]);
}

#[test]
fn pnpm_lock_block_scan() {
    let lock = format!(
        r#"lockfileVersion: '9.0'

importers:
  .:
    dependencies:
      '@polymorph/component-test-js':
        specifier: github:polymorph-components/polymorph-test#{REV}
        version: https://codeload.github.com/polymorph-components/polymorph-test/tar.gz/{REV}

packages:
  '@polymorph/component-test-js@https://codeload.github.com/polymorph-components/polymorph-test/tar.gz/{REV}':
    resolution: {{gitHosted: true, integrity: sha512-FSOFPIQsMi5E83WwZvRrRiU6UBZ1WhegHCPOg3Zly7ntycw19KXNN9Vm8Gxjc1E6iL22DkL18aY8huZnfMo3hQ==, tarball: https://codeload.github.com/polymorph-components/polymorph-test/tar.gz/{REV}}}
"#
    );
    assert_eq!(js_lock_revs(&lock), vec![REV.to_string()]);
}

#[test]
fn skewed_js_lock_yields_both_revs() {
    let lock = format!(
        "  '@polymorph/component-test-js':\n    specifier: github:x/y#{REV}\n    version: https://codeload.github.com/x/y/tar.gz/{OTHER}\n"
    );
    assert_eq!(
        js_lock_revs(&lock),
        vec![OTHER.to_string(), REV.to_string()]
    );
}

#[test]
fn scan_stops_at_dedent() {
    let lock = format!(
        "  '@polymorph/component-test-js':\n    specifier: github:x/y#{REV}\n  'other-package':\n    version: https://codeload.github.com/x/y/tar.gz/{OTHER}\n"
    );
    assert_eq!(js_lock_revs(&lock), vec![REV.to_string()]);
}

#[test]
fn embedded_and_offsize_hex_rejected() {
    let mut revs: Table<()> = Table::new();
    // 40 hex embedded in a longer alphanumeric token.
    collect_revs(&format!("integrity: sha512-Z{REV}Q=="), &mut revs);
    // 39 and 41 bytes.
    collect_revs(&format!("x: {}", &REV[1..]), &mut revs);
    collect_revs(&format!("x: {REV}f"), &mut revs);
    assert!(revs.is_empty());
    collect_revs(&format!("tarball: https://c/tar.gz/{REV}"), &mut revs);
    assert_eq!(revs.len(), 1);
}

fn cargo_toml(rev: &str) -> String {
    format!(
        r#"[workspace.dependencies]
# component-test-sdk pins the whole stack; bump deliberately.
component-test-sdk = {{ git = "https://github.com/polymorph-components/polymorph-test", rev = "{rev}" }}
component-test-runner = {{ git = "https://github.com/polymorph-components/polymorph-test", rev = "{rev}" }}
rustls-rustcrypto = {{ git = "https://github.com/RustCrypto/rustls-rustcrypto", rev = "7b44a2de957b6596d267a920d3aec0d4137defb1" }}
"#
    )
}

#[test]
fn bump_cargo_toml_is_name_anchored() {
    let (out, crates) = bump_cargo_toml(&cargo_toml(OTHER), REV);
    assert_eq!(out, cargo_toml(REV));
    assert_eq!(
        crates,
        vec![
            "component-test-sdk".to_string(),
            "component-test-runner".to_string()
        ]
    );
    // The foreign git dep's rev survives; the comment line is not a
    // dependency line.
    assert!(out.contains("7b44a2de957b6596d267a920d3aec0d4137defb1"));
}

#[test]
fn bump_cargo_toml_already_at_rev_is_a_noop_site() {
    let (out, crates) = bump_cargo_toml(&cargo_toml(REV), REV);
    assert_eq!(out, cargo_toml(REV));
    assert_eq!(crates.len(), 2);
}

#[test]
fn bump_package_json_line() {
    let text = format!(
        "{{\n  \"dependencies\": {{\n    \"@polymorph/component-test-js\": \"github:polymorph-components/polymorph-test#{OTHER}\",\n    \"playwright-core\": \"^1.61.1\"\n  }}\n}}\n"
    );
    let (out, n) = bump_named_lines(&text, JS_PACKAGE, REV);
    assert_eq!(n, 1);
    assert!(out.contains(&format!("#{REV}\"")));
    assert!(!out.contains(OTHER));
}

#[test]
fn bump_action_refs_leaves_the_grep_guard_alone() {
    let text = format!(
        "      - run: |\n          if grep -E 'polymorph-test/actions/aggregate@[0-9a-f]{{40}}' ci.yml; then exit 1; fi\n      - uses: polymorph-components/polymorph-test/actions/aggregate@{OTHER}\n      - uses: polymorph-components/polymorph-test/actions/setup@{OTHER}\n"
    );
    let (out, n) = bump_action_refs(&text, REV);
    assert_eq!(n, 2);
    assert_eq!(out.matches(REV).count(), 2);
    assert!(out.contains("[0-9a-f]{40}"), "regex text is not a rev");
    assert!(!out.contains(OTHER));
}

#[test]
fn replace_bounded_revs_respects_boundaries() {
    assert_eq!(
        replace_bounded_revs(&format!("sha512-Z{OTHER}Q=="), REV),
        format!("sha512-Z{OTHER}Q==")
    );
    assert_eq!(
        replace_bounded_revs(&format!("x @{OTHER} y"), REV),
        format!("x @{REV} y")
    );
}

#[test]
fn map_lines_preserves_final_newline_shape() {
    let with = "a\nb\n";
    let without = "a\nb";
    assert_eq!(map_lines(with, |_| None), with);
    assert_eq!(map_lines(without, |_| None), without);
}

#[test]
fn full_revs_only() {
    assert!(is_rev(REV));
    assert!(!is_rev(&REV[1..]));
    assert!(!is_rev(&format!("{REV}f")));
    assert!(!is_rev(&REV.to_uppercase()));
    assert_eq!(parse_rev(&REV.to_uppercase()), Ok(REV.to_string()));
    assert_eq!(
        parse_rev("b80c13be"),
        Err("rev must be a full commit hash (40 hex)".to_string())
    );
}

#[test]
fn rev_parameter_needs_a_full_rev() {
    assert_eq!(rev_param(&format!("git+https://x/y?rev={REV}")), Some(REV.to_string()));
    assert_eq!(rev_param(&format!("git+https://x/y?rev={REV}#frag")), Some(REV.to_string()));
    assert_eq!(rev_param(&format!("git+https://x/y?rev={REV}&a=b")), Some(REV.to_string()));
    assert_eq!(rev_param("git+https://x/y?rev=b80c13be"), None);
    assert_eq!(rev_param(&format!("git+https://x/y#{REV}")), None);
}

#[test]
fn indentation_counts_leading_blanks() {
    assert_eq!(indent("    a b"), 4);
    assert_eq!(indent("a"), 0);
    assert_eq!(indent(""), 0);
}

#[test]
fn git_source_without_commit_is_an_error() {
    let lock = "[[package]]\nname = \"component-test-sdk\"\nsource = \"git+https://x/y?rev=b80c\"\n";
    assert!(cargo_lock_revs(lock).unwrap_err().contains("component-test-sdk"));
    assert!(cargo_lock_revs("= not toml").unwrap_err().starts_with("parsing Cargo.lock as TOML: "));
    assert!(cargo_lock_revs("version = 4\n").unwrap().is_empty());
    assert!(cargo_lock_revs("package = \"component-test-sdk\"\n").unwrap().is_empty());
}

#[test]
fn lock_pins_say_where_they_stand() {
    let found = cargo_lock_pins("Cargo.lock", &cargo_lock(REV)).unwrap();
    assert_eq!(
        found,
        vec![
            ("Cargo.lock: component-test-runner".to_string(), REV.to_string()),
            ("Cargo.lock: component-test-sdk".to_string(), REV.to_string()),
        ]
    );
    assert!(cargo_lock_pins("Cargo.lock", "version = 4\n")
        .unwrap_err()
        .starts_with("Cargo.lock: no git-sourced `component-test-*` packages"));
    let js = format!("  '{JS_PACKAGE}':\n    version: https://c/tar.gz/{REV}\n");
    assert_eq!(
        js_lock_pins("pnpm-lock.yaml", &js).unwrap(),
        vec![(format!("pnpm-lock.yaml: {JS_PACKAGE}"), REV.to_string())]
    );
    assert_eq!(
        js_lock_pins("pnpm-lock.yaml", "a: b\n").unwrap_err(),
        format!("pnpm-lock.yaml: no rev pin found for {JS_PACKAGE}")
    );
}

#[test]
fn pins_agree_or_are_skewed() {
    let pin = |place: &str, rev: &str| (place.to_string(), rev.to_string());
    assert_eq!(
        judge_pins(&[pin("a", REV), pin("b", REV)]),
        PinsOutcome::Agreed(format!("ok: one rev everywhere: {REV} (2 pins)"))
    );
    assert_eq!(
        judge_pins(&[pin("a", REV), pin("b", OTHER)]),
        PinsOutcome::Skewed {
            lines: vec![format!("  {REV}  a"), format!("  {OTHER}  b")],
            error: "pin skew: 2 distinct revs across 2 pins".to_string(),
        }
    );
}

#[test]
fn a_bumped_line_reads_pinned() {
    let line = format!("uses: x/polymorph-test/actions/a@{OTHER} # was {OTHER}");
    let bumped = replace_bounded_revs(&line, REV);
    let mut revs: Table<()> = Table::new();
    collect_revs(&bumped, &mut revs);
    assert_eq!(revs.to_keys(), [REV]);
}

#[test]
fn bumping_files() {
    let b = bump_cargo_file("Cargo.toml", &cargo_toml(OTHER), REV).unwrap();
    assert_eq!(b.text, cargo_toml(REV));
    assert_eq!(b.report, "Cargo.toml: bumped component-test-sdk, component-test-runner");
    let b = bump_cargo_file("Cargo.toml", &cargo_toml(REV), REV).unwrap();
    assert_eq!(
        b.report,
        "Cargo.toml: component-test-sdk, component-test-runner already at the requested rev"
    );
    assert_eq!(
        bump_cargo_file("Cargo.toml", "[dependencies]\n", REV).unwrap_err(),
        "Cargo.toml: no git-pinned `component-test-*` dependency lines found"
    );
    let b = bump_package_file("package.json", &format!("\"{JS_PACKAGE}\": \"x#{OTHER}\"\n"), REV)
        .unwrap();
    assert_eq!(b.text, format!("\"{JS_PACKAGE}\": \"x#{REV}\"\n"));
    assert!(bump_package_file("package.json", "{}", REV).is_err());
    let b = bump_workflow_file("ci.yml", &format!("polymorph-test/actions/a@{OTHER}\n"), REV)
        .unwrap();
    assert_eq!(b.report, "ci.yml: bumped 1 action ref(s)");
    assert!(bump_workflow_file("ci.yml", "jobs:\n", REV).is_err());
}

#[test]
fn steps_after_a_bump() {
    let crates = ["b".to_string(), "a".to_string(), "b".to_string()];
    assert_eq!(
        next_steps(&crates, true, REV),
        [
            "next steps (lockfiles are regenerated by their owners, not edited):".to_string(),
            "  cargo update -p a -p b".to_string(),
            "  npm install   (or: pnpm install) in each edited package directory".to_string(),
            format!("  component-test pins --cargo-lock ... [--js-lock ...] --expect {REV}"),
        ]
    );
    assert_eq!(next_steps(&[], false, REV).len(), 2);
}

#[test]
fn toml_rows_are_read() {
    let text = "[[package]]\nname = \"a\"\nsource = 3\n[[package]]\nsource = \"s\"\n";
    let some = |s: &str| Some(s.to_string());
    assert_eq!(
        toml_string_rows(text, "package", "name", "source"),
        Ok(Some(vec![(some("a"), None), (None, some("s"))]))
    );
    assert_eq!(toml_string_rows(text, "other", "name", "source"), Ok(None));
    assert_eq!(toml_string_rows("package = \"a\"", "package", "name", "source"), Ok(None));
    assert_eq!(
        toml_string_rows("package = [1]", "package", "name", "source"),
        Ok(Some(vec![(None, None)]))
    );
    assert!(toml_string_rows("package = ", "package", "name", "source").is_err());
}
