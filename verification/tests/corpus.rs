use component_test::aggregate::{aggregate, Aggregate, Assessment};
use component_test::json::json_string_member;
use component_test::junit::{attr, junit};
use component_test::lockfile::{CaseEntry, GeneratedEntry, Lockfile, SuiteRef};
use component_test::manifest::{Feature, FeatureKind, KnownFailure, Manifest, Target};
use component_test::matrix::render;
use component_test::name::CaseName;
use component_test::report::{aggregate_summary, complaints_of, report_fold, totals_of};
use component_test::results::{
    CaseResult, Document, Envelope, Event, RunError, RunInfo, Status, SuiteInfo, RESULTS_VERSION,
    TERMINATOR,
};
use component_test::roles::fold_roles;
use component_test::selection::selected_names;
use component_test::stream::{content_lines_of, fold_jsonl, to_jsonl, FoldError, LineReading};
use component_test::table::Table;
use component_test::tags::Tag;
use component_test::text::Text;
use component_test::verdict::Provenance;
use serde_json::Value;

// --------------------------------------------------------- wire forms

fn text(v: &Value, key: &str) -> Option<String> {
    v.get(key).and_then(Value::as_str).map(String::from)
}

fn read_status(word: &str) -> Option<Status> {
    [
        Status::Pass,
        Status::Fail,
        Status::Skipped,
        Status::NotReached,
        Status::NotApplicable,
        Status::Deselected,
    ]
    .into_iter()
    .find(|s| s.word() == word)
}

fn read_provenance(v: &Value) -> Option<Provenance> {
    match v.as_str() {
        Some("returned") => Some(Provenance::Returned),
        Some("trap") => Some(Provenance::Trap),
        Some("hang-guard") => Some(Provenance::HangGuard),
        _ => text(v, "limit-exceeded").map(Provenance::LimitExceeded),
    }
}

fn read_case(v: &Value) -> Option<CaseResult> {
    Some(CaseResult {
        case: text(v, "case")?,
        status: read_status(&text(v, "status")?)?,
        provenance: v.get("provenance").and_then(read_provenance),
        detail: text(v, "detail"),
        seed: text(v, "seed"),
        duration_ms: v.get("duration-ms").and_then(Value::as_u64),
        diagnostics: v
            .get("diagnostics")
            .and_then(Value::as_array)
            .map(|ds| ds.iter().map(|d| d.as_str().unwrap().to_string()).collect())
            .unwrap_or_default(),
        diagnostics_complete: v
            .get("diagnostics-complete")
            .and_then(Value::as_bool)
            .unwrap_or(true),
    })
}

fn read_line(line: &str) -> LineReading {
    let v: Value = serde_json::from_str(line).unwrap_or(Value::Null);
    LineReading {
        segment_end: v.get("segment-end").and_then(Value::as_bool),
        case: read_case(&v),
    }
}

fn read_envelope(line: &str) -> Result<Envelope, String> {
    let v: Value = serde_json::from_str(line).map_err(|e| e.to_string())?;
    let suite = v.get("suite").ok_or("missing field `suite`")?;
    let run = v.get("run").cloned().unwrap_or(Value::Null);
    Ok(Envelope {
        version: text(&v, "component-test-results").ok_or("missing version")?,
        target: text(&v, "target").ok_or("missing field `target`")?,
        suite: SuiteInfo {
            name: text(suite, "name").ok_or("missing field `name`")?,
            artifact_sha256: text(suite, "artifact-sha256"),
            lockfile_sha256: text(suite, "lockfile-sha256"),
        },
        run: RunInfo {
            id: text(&run, "id"),
            started: text(&run, "started"),
            segment: run.get("segment").and_then(Value::as_u64).unwrap_or(0) as u32,
            scheduling: text(&run, "scheduling"),
        },
    })
}

fn object(pairs: Vec<(&str, Option<Value>)>) -> Value {
    let mut m = serde_json::Map::new();
    for (k, v) in pairs {
        if let Some(v) = v {
            m.insert(k.to_string(), v);
        }
    }
    Value::Object(m)
}

fn string(s: &Option<String>) -> Option<Value> {
    s.clone().map(Value::String)
}

fn write_envelope(e: &Envelope) -> String {
    object(vec![
        ("component-test-results", Some(Value::String(e.version.clone()))),
        ("target", Some(Value::String(e.target.clone()))),
        (
            "suite",
            Some(object(vec![
                ("name", Some(Value::String(e.suite.name.clone()))),
                ("artifact-sha256", string(&e.suite.artifact_sha256)),
                ("lockfile-sha256", string(&e.suite.lockfile_sha256)),
            ])),
        ),
        (
            "run",
            Some(object(vec![
                ("id", string(&e.run.id)),
                ("started", string(&e.run.started)),
                ("segment", Some(Value::from(e.run.segment))),
                ("scheduling", string(&e.run.scheduling)),
            ])),
        ),
    ])
    .to_string()
}

fn write_provenance(p: &Provenance) -> Value {
    match p {
        Provenance::Returned => Value::String("returned".into()),
        Provenance::Trap => Value::String("trap".into()),
        Provenance::HangGuard => Value::String("hang-guard".into()),
        Provenance::LimitExceeded(l) => {
            object(vec![("limit-exceeded", Some(Value::String(l.clone())))])
        }
        _ => unreachable!(),
    }
}

fn write_event(e: &Event) -> String {
    match e {
        Event::RunError(e) => object(vec![("run-error", Some(Value::String(e.message.clone())))]),
        Event::Case(c) => object(vec![
            ("case", Some(Value::String(c.case.clone()))),
            ("status", Some(Value::String(c.status.word().into()))),
            ("provenance", c.provenance.as_ref().map(write_provenance)),
            ("detail", string(&c.detail)),
            ("seed", string(&c.seed)),
            ("duration-ms", c.duration_ms.map(Value::from)),
            (
                "diagnostics",
                Some(Value::Array(c.diagnostics.iter().cloned().map(Value::String).collect())),
            ),
            ("diagnostics-complete", Some(Value::Bool(c.diagnostics_complete))),
        ]),
    }
    .to_string()
}

/// The stream of typed events.
fn encode(envelope: &Envelope, events: &[Event]) -> String {
    let lines: Vec<String> = events.iter().map(write_event).collect();
    to_jsonl(&write_envelope(envelope), &lines)
}

/// Read the lines of a stream, then fold it.
fn fold<S: Text>(stream: &str, selected: &[S]) -> Result<Document, FoldError> {
    let lines = content_lines_of(stream);
    let head = match lines.first() {
        Some(l) => read_envelope(l),
        None => Err("no line".to_string()),
    };
    let readings: Vec<LineReading> = lines.iter().skip(1).map(|l| read_line(l)).collect();
    fold_jsonl(stream, head, &readings, selected)
}

fn strings(v: Option<&toml::Value>) -> Vec<String> {
    match v {
        Some(v) => v
            .as_array()
            .unwrap()
            .iter()
            .map(|s| s.as_str().unwrap().to_string())
            .collect(),
        None => vec![],
    }
}

fn field(t: &toml::Table, key: &str) -> String {
    t[key].as_str().unwrap().to_string()
}

/// A manifest from TOML.
fn manifest(text: &str) -> Manifest {
    let t: toml::Table = toml::from_str(text).unwrap();
    let empty = toml::Table::new();
    let table = |key: &str| match t.get(key) {
        Some(v) => v.as_table().unwrap().clone(),
        None => empty.clone(),
    };
    let mut features: Table<Feature> = Table::new();
    for (name, f) in &table("features") {
        let kind = match f["kind"].as_str().unwrap() {
            "gated" => FeatureKind::Gated,
            "structural" => FeatureKind::Structure,
            other => panic!("unknown kind {other}"),
        };
        features.insert(name.clone(), Feature { kind });
    }
    let mut targets: Table<Target> = Table::new();
    for (name, target) in &table("targets") {
        let target = target.as_table().unwrap();
        let expected_fail = match target.get("expected-fail") {
            Some(v) => v
                .as_array()
                .unwrap()
                .iter()
                .map(|k| k.as_table().unwrap())
                .map(|k| KnownFailure {
                    case: field(k, "case"),
                    reason: field(k, "reason"),
                    tracking: field(k, "tracking"),
                })
                .collect(),
            None => vec![],
        };
        targets.insert(
            name.clone(),
            Target {
                missing_features: strings(target.get("missing-features")),
                optional: target
                    .get("optional")
                    .and_then(|v| v.as_bool())
                    .unwrap_or(false),
                expected_fail,
            },
        );
    }
    Manifest { version: field(&t, "version"), features, targets }
}

fn marks(words: &[String]) -> Vec<Tag> {
    words.iter().map(|w| Tag::parse(w).unwrap()).collect()
}

/// A lockfile from TOML.
fn lock(text: &str) -> Lockfile {
    let t: toml::Table = toml::from_str(text).unwrap();
    let rows = |key: &str| -> Vec<toml::Table> {
        match t.get(key) {
            Some(v) => v
                .as_array()
                .unwrap()
                .iter()
                .map(|r| r.as_table().unwrap().clone())
                .collect(),
            None => vec![],
        }
    };
    let suite = t["suite"].as_table().unwrap();
    Lockfile {
        version: field(&t, "version"),
        suite: SuiteRef {
            name: field(suite, "name"),
            artifact_sha256: suite
                .get("artifact_sha256")
                .map(|v| v.as_str().unwrap().to_string()),
        },
        case: rows("case")
            .iter()
            .map(|r| CaseEntry {
                name: CaseName::parse(&field(r, "name")).unwrap(),
                tags: marks(&strings(r.get("tags"))),
            })
            .collect(),
        generated: rows("generated")
            .iter()
            .map(|r| GeneratedEntry {
                prefix: field(r, "prefix"),
                tags: marks(&strings(r.get("tags"))),
                cases: strings(r.get("cases")),
            })
            .collect(),
    }
}

// ------------------------------------------------------------ results

fn role_case(case: &str, status: Status, detail: Option<&str>) -> CaseResult {
    CaseResult {
        case: case.into(),
        status,
        provenance: None,
        detail: detail.map(Into::into),
        seed: None,
        duration_ms: None,
        diagnostics: Vec::new(),
        diagnostics_complete: true,
    }
}

#[test]
fn envelope_new_carries_the_format_defaults() {
    let e = Envelope::new("wasmtime/pair", "suite_ct");
    assert_eq!(e.version, RESULTS_VERSION);
    assert_eq!(e.run.segment, 0);
    assert_eq!(e.run.scheduling.as_deref(), Some("tags"));
    assert!(e.scheduled());
    assert_eq!(e.suite.name, "suite_ct");
    assert!(e.suite.artifact_sha256.is_none());
}

#[test]
fn fold_roles_worst_status_wins_with_role_labels() {
    let offerer = vec![role_case("pair/echo", Status::Pass, None)];
    let answerer = vec![role_case("pair/echo", Status::Fail, Some("boom"))];
    let folded = fold_roles(&[("offerer", offerer), ("answerer", answerer)]);
    assert_eq!(folded.len(), 1);
    assert_eq!(folded[0].status, Status::Fail);
    // The winner's label leads even when the winner is a later role.
    assert_eq!(folded[0].detail.as_deref(), Some("answerer: boom"));
}

#[test]
fn fold_roles_both_failing_names_both_sides() {
    let offerer = vec![role_case("pair/echo", Status::NotReached, None)];
    let answerer = vec![role_case("pair/echo", Status::Fail, Some("boom"))];
    let folded = fold_roles(&[("offerer", offerer), ("answerer", answerer)]);
    assert_eq!(
        folded[0].detail.as_deref(),
        Some("answerer: boom; offerer: not-reached")
    );
}

#[test]
fn fold_roles_tie_goes_to_the_earlier_role() {
    let offerer = vec![role_case("pair/echo", Status::Fail, Some("off"))];
    let answerer = vec![role_case("pair/echo", Status::Fail, Some("ans"))];
    let folded = fold_roles(&[("offerer", offerer), ("answerer", answerer)]);
    assert_eq!(
        folded[0].detail.as_deref(),
        Some("offerer: off; answerer: ans")
    );
}

#[test]
fn fold_roles_single_report_passes_through_unlabelled() {
    let offerer = vec![role_case("pair/only-off", Status::Fail, Some("boom"))];
    let folded = fold_roles(&[("offerer", offerer), ("answerer", Vec::new())]);
    assert_eq!(folded[0].detail.as_deref(), Some("boom"));
}

#[test]
fn fold_roles_order_is_first_report_order() {
    let offerer = vec![
        role_case("pair/a", Status::Pass, None),
        role_case("pair/b", Status::Pass, None),
    ];
    let answerer = vec![
        role_case("pair/b", Status::Pass, None),
        role_case("pair/z", Status::Pass, None),
    ];
    let folded = fold_roles(&[("offerer", offerer), ("answerer", answerer)]);
    let order: Vec<&str> = folded.iter().map(|r| r.case.as_str()).collect();
    assert_eq!(order, vec!["pair/a", "pair/b", "pair/z"]);
}

#[test]
fn fold_roles_three_way_diagnostics_and_duration() {
    let mut a = role_case("mesh/x", Status::Pass, None);
    a.diagnostics = vec!["hello".into()];
    a.duration_ms = Some(5);
    let mut b = role_case("mesh/x", Status::Fail, Some("mid"));
    b.duration_ms = Some(9);
    b.diagnostics_complete = false;
    let c = role_case("mesh/x", Status::Skipped, Some("late"));
    let folded = fold_roles(&[("a", vec![a]), ("b", vec![b]), ("c", vec![c])]);
    assert_eq!(folded[0].status, Status::Fail);
    assert_eq!(folded[0].detail.as_deref(), Some("b: mid; c: late"));
    assert_eq!(folded[0].diagnostics, vec!["a: hello".to_string()]);
    assert!(!folded[0].diagnostics_complete);
    assert_eq!(folded[0].duration_ms, Some(9));
}

fn envelope() -> Envelope {
    Envelope {
        version: RESULTS_VERSION.into(),
        target: "wasmtime/linux".into(),
        suite: SuiteInfo {
            name: "sample".into(),
            ..Default::default()
        },
        run: RunInfo::default(),
    }
}

fn pass(case: &str) -> Event {
    Event::Case(CaseResult {
        case: case.into(),
        status: Status::Pass,
        provenance: Some(Provenance::Returned),
        detail: None,
        seed: None,
        duration_ms: Some(1),
        diagnostics: vec![],
        diagnostics_complete: true,
    })
}

#[test]
fn roundtrip_terminated() {
    let events = vec![pass("a/x"), pass("a/y")];
    let jsonl = encode(&envelope(), &events);
    let doc = fold(&jsonl, &["a/x", "a/y"]).unwrap();
    assert!(doc.terminated);
    assert_eq!(doc.results.len(), 2);
    assert!(doc.run_errors.is_empty());
}

#[test]
fn unterminated_folds_not_reached() {
    let trap = match pass("a/x") {
        Event::Case(mut c) => {
            c.status = Status::Fail;
            c.provenance = Some(Provenance::Trap);
            c.detail = Some("wasm trap: unreachable".into());
            c.diagnostics_complete = false;
            Event::Case(c)
        }
        _ => unreachable!(),
    };
    // stream without terminator: envelope + one trap-fail
    let mut jsonl = write_envelope(&envelope());
    jsonl.push('\n');
    jsonl.push_str(&write_event(&trap));
    jsonl.push('\n');
    let doc = fold(&jsonl, &["a/x", "a/y", "a/z"]).unwrap();
    assert!(!doc.terminated);
    assert_eq!(doc.results.len(), 3);
    let nr: Vec<_> = doc
        .results
        .iter()
        .filter(|r| r.status == Status::NotReached)
        .collect();
    assert_eq!(nr.len(), 2);
    assert!(nr[0].detail.as_ref().unwrap().contains("a/x"));
}

#[test]
fn unknown_status_tolerated() {
    let mut jsonl = write_envelope(&envelope());
    jsonl.push('\n');
    jsonl.push_str(r#"{"case":"a/x","status":"abandoned-by-co-tenant"}"#);
    jsonl.push('\n');
    jsonl.push_str(r#"{"case":"a/y","status":"pass"}"#);
    jsonl.push('\n');
    jsonl.push_str(TERMINATOR);
    let doc = fold(&jsonl, &["a/x", "a/y"]).unwrap();
    assert_eq!(
        doc.unknown_statuses.get("a/x").unwrap(),
        "abandoned-by-co-tenant"
    );
    assert_eq!(doc.results.len(), 1);
}

#[test]
fn empty_selection_is_run_error() {
    let jsonl = encode(&envelope(), &[]);
    assert!(fold::<&str>(&jsonl, &[]).is_err());
}

#[test]
fn run_error_events() {
    let mut jsonl = write_envelope(&envelope());
    jsonl.push('\n');
    jsonl.push_str(r#"{"run-error":"enumeration trapped"}"#);
    jsonl.push('\n');
    jsonl.push_str(TERMINATOR);
    let doc = fold(&jsonl, &["a/x"]).unwrap();
    assert_eq!(doc.run_errors, vec!["enumeration trapped"]);
}

#[test]
fn unknown_version_refused() {
    let mut env = envelope();
    env.version = "9.9".into();
    let jsonl = encode(&env, &[pass("a/x")]);
    let err = fold(&jsonl, &["a/x"]).unwrap_err().to_string();
    assert!(err.contains("unsupported results version `9.9`"), "{err}");
}

/// The words on the wire may grow in number, never change.
#[test]
fn wire_vocabulary_pinned() {
    let statuses = [
        (Status::Pass, "pass"),
        (Status::Fail, "fail"),
        (Status::Skipped, "skipped"),
        (Status::NotReached, "not-reached"),
        (Status::NotApplicable, "not-applicable"),
        (Status::Deselected, "deselected"),
    ];
    for (status, word) in statuses {
        assert_eq!(status.word(), word);
        assert_eq!(read_status(word).unwrap(), status);
    }
    // Unit variants are flat strings; an exceeded limit carries its name.
    let provenances = [
        (Provenance::Returned, r#""returned""#),
        (Provenance::Trap, r#""trap""#),
        (
            Provenance::LimitExceeded("execution-budget".into()),
            r#"{"limit-exceeded":"execution-budget"}"#,
        ),
        (
            Provenance::LimitExceeded("case-timeout".into()),
            r#"{"limit-exceeded":"case-timeout"}"#,
        ),
    ];
    for (provenance, wire) in provenances {
        assert_eq!(write_provenance(&provenance).to_string(), wire);
        assert_eq!(
            read_provenance(&serde_json::from_str(wire).unwrap()).unwrap(),
            provenance
        );
    }
}

#[test]
fn scheduling_field_semantics() {
    // Absent (legacy) and "tags" are scheduled; only an explicit
    // "none" opts a stream out of the strict applicability gate;
    // unknown future vocabulary stays strict.
    let mut env = envelope();
    assert!(env.scheduled());
    env.run.scheduling = Some("tags".into());
    assert!(env.scheduled());
    env.run.scheduling = Some("none".into());
    assert!(!env.scheduled());
    env.run.scheduling = Some("phase-of-moon".into());
    assert!(env.scheduled());

    // Wire form + legacy tolerance both directions.
    env.run.scheduling = Some("none".into());
    let json = write_envelope(&env);
    assert!(json.contains(r#""scheduling":"none""#), "{json}");
    let back: Envelope = read_envelope(&json).unwrap();
    assert_eq!(back, env);
    let legacy = r#"{"component-test-results":"0.1","target":"t","suite":{"name":"s"},"run":{"segment":0}}"#;
    let parsed: Envelope = read_envelope(legacy).unwrap();
    assert!(parsed.scheduled());
    assert_eq!(parsed.run.scheduling, None);
}

// -------------------------------------------------------------- junit

fn junit_doc(jsonl: &str) -> Document {
    fold(jsonl, &selected_names(None, jsonl)).unwrap()
}

const STREAM: &str = r#"{"component-test-results":"0.1","target":"native","suite":{"name":"s"},"run":{"segment":0}}
{"case":"g/tc1","status":"pass","provenance":"returned","duration-ms":12,"diagnostics-complete":true}
{"case":"g/tc2","status":"fail","provenance":"trap","detail":"boom & <bust>","diagnostics":["a<b"],"diagnostics-complete":false}
{"case":"g/tc3","status":"skipped","provenance":"returned","detail":"no rng","diagnostics-complete":true}
{"case":"lonely","status":"not-applicable","detail":"hsm","diagnostics-complete":true}
{"segment-end":true}
"#;

#[test]
fn maps_the_status_vocabulary() {
    let xml = junit(&[("native".into(), junit_doc(STREAM))]);
    assert!(xml.contains(
        "<testsuite name=\"native\" tests=\"4\" failures=\"1\" errors=\"0\" skipped=\"2\""
    ));
    assert!(xml.contains("<testcase classname=\"g\" name=\"tc1\" time=\"0.012\"/>"));
    assert!(xml.contains("<failure message=\"boom &amp; &lt;bust&gt;\" type=\"trap\"/>"));
    assert!(xml.contains("<system-out>a&lt;b\n[diagnostics incomplete]</system-out>"));
    assert!(xml.contains("<skipped message=\"no rng\"/>"));
    // Single-segment names group under themselves.
    assert!(xml.contains("<testcase classname=\"lonely\" name=\"lonely\""));
    assert!(xml.contains("<skipped message=\"not applicable (hsm)\"/>"));
}

#[test]
fn transport_problems_become_errors_not_omissions() {
    // Unterminated stream with a run error: both surface as
    // <error> testcases and count in errors=.
    let broken = r#"{"component-test-results":"0.1","target":"t","suite":{"name":"s"},"run":{"segment":0}}
{"case":"g/tc1","status":"pass","provenance":"returned","diagnostics-complete":true}
{"run-error":"instance wedged"}
"#;
    let xml = junit(&[("t".into(), junit_doc(broken))]);
    assert!(xml.contains("errors=\"2\""), "{xml}");
    assert!(xml.contains("<error message=\"instance wedged\" type=\"run-error\"/>"));
    assert!(xml.contains("type=\"unterminated\""));
}
// ---------------------------------------------------------- aggregate

fn assessment<'a>(agg: &'a Aggregate, target: &str, case: &str) -> &'a Assessment {
    agg.assessments.get(target).unwrap().get(case).unwrap()
}

fn outcome<'a>(agg: &'a Aggregate, target: &str, case: &str) -> &'a CaseResult {
    agg.results.get(target).unwrap().get(case).unwrap()
}

fn entry(name: &str, tags: &[&str]) -> CaseEntry {
    CaseEntry {
        name: CaseName::parse(name).unwrap(),
        tags: tags.iter().map(|t| Tag::parse(t).unwrap()).collect(),
    }
}

fn lockfile(cases: Vec<CaseEntry>) -> Lockfile {
    Lockfile::new(
        SuiteRef {
            name: "suite".into(),
            artifact_sha256: None,
        },
        cases,
    )
}

fn result(case: &str, status: Status, detail: Option<&str>) -> CaseResult {
    CaseResult {
        case: case.into(),
        status,
        provenance: status.executed().then_some(Provenance::Returned),
        detail: detail.map(String::from),
        seed: None,
        duration_ms: None,
        diagnostics: vec![],
        diagnostics_complete: true,
    }
}

fn doc(target: &str, results: Vec<CaseResult>) -> Document {
    Document {
        envelope: Envelope {
            version: RESULTS_VERSION.into(),
            target: target.into(),
            suite: SuiteInfo {
                name: "suite".into(),
                ..Default::default()
            },
            run: RunInfo::default(),
        },
        results,
        run_errors: vec![],
        unknown_statuses: Table::new(),
        terminated: true,
    }
}

const MANIFEST: &str = r#"
        version = "0.1"
        [features.hsm]
        kind = "gated"
        [targets.native]
        missing-features = []
        [targets.sim]
        missing-features = ["hsm"]
    "#;

fn corpus_lock() -> Lockfile {
    lockfile(vec![
        entry("suite/add", &[]),
        entry("suite/hsm/attest", &["hsm"]),
        entry("suite/hsm/declined", &["!hsm"]),
    ])
}

fn native_doc() -> Document {
    doc(
        "native",
        vec![
            result("suite/add", Status::Pass, None),
            result("suite/hsm/attest", Status::Pass, None),
            result("suite/hsm/declined", Status::NotApplicable, Some("!hsm")),
        ],
    )
}

fn sim_doc() -> Document {
    doc(
        "sim",
        vec![
            result("suite/add", Status::Pass, None),
            result("suite/hsm/attest", Status::NotApplicable, Some("hsm")),
            result("suite/hsm/declined", Status::Pass, None),
        ],
    )
}

#[test]
fn clean_corpus_validates() {
    let agg = aggregate(
        &corpus_lock(),
        &manifest(MANIFEST),
        &[("native".into(), native_doc()), ("sim".into(), sim_doc())],
    );
    assert!(agg.errors.is_empty(), "{:?}", agg.errors);
    assert!(agg.ok());
    assert_eq!(agg.targets, ["native", "sim"]);
}

#[test]
fn artifact_hashes_are_provenance_not_identity() {
    // Suite builds are not reproducible across environments, so a
    // lockfile hash differing from every envelope hash is the
    // expected-normal state (committed lock, CI-built artifact):
    // neither an error nor a warning.
    let mut lock = corpus_lock();
    lock.suite.artifact_sha256 = Some("aa11".into());
    let mut native = native_doc();
    native.envelope.suite.artifact_sha256 = Some("bb22".into());
    let mut sim = sim_doc();
    sim.envelope.suite.artifact_sha256 = Some("bb22".into());
    let agg = aggregate(
        &lock,
        &manifest(MANIFEST),
        &[("native".into(), native), ("sim".into(), sim)],
    );
    assert!(agg.errors.is_empty(), "{:?}", agg.errors);
    assert!(agg.warnings.is_empty(), "{:?}", agg.warnings);

    // Cross-target disagreement IS surfaced (warning): targets in
    // one aggregation ran one pipeline, so differing hashes mean
    // mixed builds — a check that needs no reproducibility.
    let mut native = native_doc();
    native.envelope.suite.artifact_sha256 = Some("bb22".into());
    let mut sim = sim_doc();
    sim.envelope.suite.artifact_sha256 = Some("cc33".into());
    let agg = aggregate(
        &lock,
        &manifest(MANIFEST),
        &[("native".into(), native), ("sim".into(), sim)],
    );
    assert!(agg.errors.is_empty(), "{:?}", agg.errors);
    assert!(
        agg.warnings
            .iter()
            .any(|w| w.contains("mixed builds") && w.contains("bb22") && w.contains("cc33")),
        "{:?}",
        agg.warnings
    );

    // Envelopes without a hash are tolerated (foreign runners) and
    // don't count toward agreement.
    let agg = aggregate(
        &lock,
        &manifest(MANIFEST),
        &[("native".into(), native_doc()), ("sim".into(), sim_doc())],
    );
    assert!(agg.errors.is_empty(), "{:?}", agg.errors);
    assert!(agg.warnings.is_empty(), "{:?}", agg.warnings);
}

#[test]
fn suite_name_mismatch_is_warning() {
    let mut d = native_doc();
    d.envelope.suite.name = "other".into();
    let agg = aggregate(
        &corpus_lock(),
        &manifest(MANIFEST),
        &[("native".into(), d), ("sim".into(), sim_doc())],
    );
    assert!(agg.errors.is_empty(), "{:?}", agg.errors);
    assert!(
        agg.warnings
            .iter()
            .any(|w| w.contains("`other`") && w.contains("`suite`")),
        "{:?}",
        agg.warnings
    );
}

const XFAIL_MANIFEST: &str = r#"
        version = "0.1"
        [features.hsm]
        kind = "gated"
        [targets.native]
        missing-features = []
        [targets.sim]
        missing-features = ["hsm"]
        [[targets.sim.expected-fail]]
        case = "suite/add"
        reason = "integer add broken on the sim backend"
        tracking = "https://example.test/issues/9"
    "#;

/// a declared known failure fails — tracked debt,
/// not a corpus failure.
#[test]
fn expected_fail_excludes_known_failure() {
    let mut sim = sim_doc();
    sim.results[0] = result("suite/add", Status::Fail, Some("1 + 1 = 3"));
    let agg = aggregate(
        &corpus_lock(),
        &manifest(XFAIL_MANIFEST),
        &[("native".into(), native_doc()), ("sim".into(), sim)],
    );
    assert!(agg.errors.is_empty(), "{:?}", agg.errors);
    assert!(!agg.has_failures(), "{:?}", agg.results);
    assert!(agg.ok());
    assert_eq!(agg.expected_fail_count(), 1);
    assert!(matches!(
        *assessment(&agg, "sim", "suite/add"),
        Assessment::ExpectedFail { .. }
    ));
    // The wire status is untouched: reclassification is judgment,
    // not rewriting.
    assert_eq!(outcome(&agg, "sim", "suite/add").status, Status::Fail);
}

/// the declared failure passed, so the stale
/// declaration is a validation error.
#[test]
fn unexpected_pass_is_error() {
    let agg = aggregate(
        &corpus_lock(),
        &manifest(XFAIL_MANIFEST),
        &[("native".into(), native_doc()), ("sim".into(), sim_doc())],
    );
    assert!(
        agg.errors.iter().any(|e| e.contains("`suite/add`")
            && e.contains("passed")
            && e.contains("https://example.test/issues/9")),
        "{:?}",
        agg.errors
    );
    assert!(!agg.ok());
    assert_eq!(
        *assessment(&agg, "sim", "suite/add"),
        Assessment::UnexpectedPass
    );
    assert_eq!(agg.expected_fail_count(), 0);
}

/// unknown case, and a case not applicable
/// on the declaring target.
#[test]
fn stale_expected_fail_declarations_are_errors() {
    let unknown = manifest(
        r#"
            version = "0.1"
            [features.hsm]
            kind = "gated"
            [targets.native]
            missing-features = []
            [targets.sim]
            missing-features = ["hsm"]
            [[targets.sim.expected-fail]]
            case = "suite/no-such-case"
            reason = "r"
            tracking = "t"
        "#,
    );
    let agg = aggregate(
        &corpus_lock(),
        &unknown,
        &[("native".into(), native_doc()), ("sim".into(), sim_doc())],
    );
    assert!(
        agg.errors
            .iter()
            .any(|e| e.contains("suite/no-such-case") && e.contains("no known case")),
        "{:?}",
        agg.errors
    );

    // suite/hsm/attest requires hsm, which sim declares missing:
    // an xfail for it on sim can never be exercised.
    let not_applicable = manifest(
        r#"
            version = "0.1"
            [features.hsm]
            kind = "gated"
            [targets.native]
            missing-features = []
            [targets.sim]
            missing-features = ["hsm"]
            [[targets.sim.expected-fail]]
            case = "suite/hsm/attest"
            reason = "r"
            tracking = "t"
        "#,
    );
    let agg = aggregate(
        &corpus_lock(),
        &not_applicable,
        &[("native".into(), native_doc()), ("sim".into(), sim_doc())],
    );
    assert!(
        agg.errors
            .iter()
            .any(|e| e.contains("suite/hsm/attest") && e.contains("not applicable")),
        "{:?}",
        agg.errors
    );
}

/// a skipped expected-fail case neither satisfies
/// nor violates the declaration — warning, not error.
#[test]
fn skipped_expected_fail_warns() {
    let mut sim = sim_doc();
    sim.results[0] = result("suite/add", Status::Skipped, Some("no backend"));
    let agg = aggregate(
        &corpus_lock(),
        &manifest(XFAIL_MANIFEST),
        &[("native".into(), native_doc()), ("sim".into(), sim)],
    );
    assert!(agg.errors.is_empty(), "{:?}", agg.errors);
    assert!(
        agg.warnings
            .iter()
            .any(|w| w.contains("`suite/add`") && w.contains("unexercised")),
        "{:?}",
        agg.warnings
    );
    assert_eq!(agg.expected_fail_count(), 0);
}

/// a declaration naming a generated leaf that never
/// materialized is unexercised — warning (coverage does not require
/// generated leaves, so nothing else would flag it).
#[test]
fn unmaterialized_expected_fail_warns() {
    let mut lock = corpus_lock();
    lock.generated.push(GeneratedEntry {
        prefix: "suite/gen".into(),
        tags: vec![],
        cases: vec![],
    });
    let xfail_gen = manifest(
        r#"
            version = "0.1"
            [features.hsm]
            kind = "gated"
            [targets.native]
            missing-features = []
            [targets.sim]
            missing-features = ["hsm"]
            [[targets.sim.expected-fail]]
            case = "suite/gen/tc999"
            reason = "r"
            tracking = "t"
        "#,
    );
    let agg = aggregate(
        &lock,
        &xfail_gen,
        &[("native".into(), native_doc()), ("sim".into(), sim_doc())],
    );
    assert!(agg.errors.is_empty(), "{:?}", agg.errors);
    assert!(
        agg.warnings
            .iter()
            .any(|w| w.contains("suite/gen/tc999") && w.contains("did not materialize")),
        "{:?}",
        agg.warnings
    );
}

/// `[[generated]]` pins prefixes, not leaves, so per-target
/// coverage imposes no membership on generated rows — but targets
/// in one aggregation ran the same artifact, so their generated
/// leaf sets must agree. A target missing leaves the others report
/// has silently shed rows.
#[test]
fn generated_leaf_sets_must_agree_across_targets() {
    let mut lock = corpus_lock();
    lock.generated.push(GeneratedEntry {
        prefix: "suite/gen".into(),
        tags: vec![],
        cases: vec![],
    });
    let full = |target: &str| {
        let mut results = match target {
            "native" => native_doc().results,
            _ => sim_doc().results,
        };
        results.push(result("suite/gen/tc1", Status::Pass, None));
        results.push(result("suite/gen/tc2", Status::Pass, None));
        doc(target, results)
    };

    // Agreement: no errors.
    let agg = aggregate(
        &lock,
        &manifest(MANIFEST),
        &[
            ("native".into(), full("native")),
            ("sim".into(), full("sim")),
        ],
    );
    assert!(agg.errors.is_empty(), "{:?}", agg.errors);

    // One target sheds a leaf: error names the target and the leaf.
    let mut shed = full("sim");
    shed.results.retain(|r| r.case != "suite/gen/tc2");
    let agg = aggregate(
        &lock,
        &manifest(MANIFEST),
        &[("native".into(), full("native")), ("sim".into(), shed)],
    );
    assert!(
        agg.errors.iter().any(|e| e.contains("target `sim`")
            && e.contains("generated rows missing 1 leaf case(s)")
            && e.contains("suite/gen/tc2")),
        "{:?}",
        agg.errors
    );
    // The intact target is not implicated.
    assert!(
        !agg.errors
            .iter()
            .any(|e| e.contains("target `native`") && e.contains("generated rows missing")),
        "{:?}",
        agg.errors
    );

    // A uniform drop (both targets lose the same leaf) is NOT
    // caught here — the documented limit; the lockfile-side leaf
    // pin owns that bound.
    let mut a = full("native");
    a.results.retain(|r| r.case != "suite/gen/tc2");
    let mut b = full("sim");
    b.results.retain(|r| r.case != "suite/gen/tc2");
    let agg = aggregate(
        &lock,
        &manifest(MANIFEST),
        &[("native".into(), a), ("sim".into(), b)],
    );
    assert!(
        !agg.errors
            .iter()
            .any(|e| e.contains("generated rows missing")),
        "{:?}",
        agg.errors
    );
}

#[test]
fn unknown_target_is_error() {
    // The undeclared target reports a full, plausible result set
    // (including a not-applicable tagged case): exactly ONE error
    // must come out of it — the root cause — not a per-case
    // applicability cascade judged against a fabricated
    // missing-set.
    let agg = aggregate(
        &corpus_lock(),
        &manifest(MANIFEST),
        &[
            ("native".into(), native_doc()),
            ("sim".into(), sim_doc()),
            ("mystery".into(), doc("mystery", sim_doc().results)),
        ],
    );
    let mystery: Vec<&String> = agg
        .errors
        .iter()
        .filter(|e| e.contains("mystery"))
        .collect();
    assert_eq!(mystery.len(), 1, "{:?}", agg.errors);
    assert!(mystery[0].contains("not declared"), "{:?}", agg.errors);
}

#[test]
fn silent_target_is_error() {
    let agg = aggregate(
        &corpus_lock(),
        &manifest(MANIFEST),
        &[("native".into(), native_doc())],
    );
    assert!(
        agg.errors
            .iter()
            .any(|e| e.contains("`sim`") && e.contains("no results")),
        "{:?}",
        agg.errors
    );
}

#[test]
fn silent_optional_target_is_warning() {
    let optional = manifest(
        r#"
            version = "0.1"
            [features.hsm]
            kind = "gated"
            [targets.native]
            missing-features = []
            [targets.sim]
            missing-features = ["hsm"]
            optional = true
        "#,
    );
    let agg = aggregate(
        &corpus_lock(),
        &optional,
        &[("native".into(), native_doc())],
    );
    assert!(agg.errors.is_empty(), "{:?}", agg.errors);
    assert!(
        agg.warnings
            .iter()
            .any(|w| w.contains("`sim`") && w.contains("no results")),
        "{:?}",
        agg.warnings
    );
    // When the optional target does report, it is validated like any
    // other target: an applicability drift is still an error.
    let mut drifted = sim_doc();
    drifted.results[1] = result("suite/hsm/attest", Status::Pass, None);
    let agg = aggregate(
        &corpus_lock(),
        &optional,
        &[("native".into(), native_doc()), ("sim".into(), drifted)],
    );
    assert!(
        agg.errors.iter().any(|e| e.contains("not applicable")),
        "{:?}",
        agg.errors
    );
}

#[test]
fn coverage_mismatch_is_error() {
    let mut d = native_doc();
    d.results.pop();
    let agg = aggregate(
        &corpus_lock(),
        &manifest(MANIFEST),
        &[("native".into(), d), ("sim".into(), sim_doc())],
    );
    assert!(
        agg.errors.iter().any(|e| e.contains("coverage")),
        "{:?}",
        agg.errors
    );
}

#[test]
fn unterminated_and_run_errors_are_errors() {
    let mut d = native_doc();
    d.terminated = false;
    d.run_errors.push("enumeration trapped".into());
    let agg = aggregate(
        &corpus_lock(),
        &manifest(MANIFEST),
        &[("native".into(), d), ("sim".into(), sim_doc())],
    );
    assert!(agg.errors.iter().any(|e| e.contains("unterminated")));
    assert!(agg.errors.iter().any(|e| e.contains("enumeration trapped")));
}

#[test]
fn applicability_drift_is_error() {
    // sim declares hsm missing, but reports the hsm-tagged case as
    // executed (adapter/manifest drift).
    let mut d = sim_doc();
    d.results[1] = result("suite/hsm/attest", Status::Pass, None);
    let agg = aggregate(
        &corpus_lock(),
        &manifest(MANIFEST),
        &[("native".into(), native_doc()), ("sim".into(), d)],
    );
    assert!(
        agg.errors.iter().any(|e| e.contains("not applicable")),
        "{:?}",
        agg.errors
    );
}

/// a stream declaring `scheduling: none` (the
/// composed runner) gets applicability *applied* by this layer —
/// executed non-applicable cases are reclassified to the
/// host-embed not-applicable shape instead of erroring — while
/// scheduled/legacy streams keep the strict gate (previous test).
#[test]
fn unscheduled_stream_gets_applicability_applied() {
    // The composed runner executes everything: on sim (hsm
    // missing) the hsm case "ran" (and passed — drift smell), and
    // the !hsm decline probe ran too.
    let mut d = doc(
        "sim",
        vec![
            result("suite/add", Status::Pass, None),
            result("suite/hsm/attest", Status::Pass, None),
            result("suite/hsm/declined", Status::Pass, None),
        ],
    );
    d.envelope.run.scheduling = Some("none".into());
    // native, also unscheduled: the !hsm decline probe executed
    // (and failed, as decline probes do where the feature exists).
    let mut n = doc(
        "native",
        vec![
            result("suite/add", Status::Pass, None),
            result("suite/hsm/attest", Status::Pass, None),
            result("suite/hsm/declined", Status::Fail, Some("feature present")),
        ],
    );
    n.envelope.run.scheduling = Some("none".into());

    let agg = aggregate(
        &corpus_lock(),
        &manifest(MANIFEST),
        &[("native".into(), n), ("sim".into(), d)],
    );
    assert!(agg.errors.is_empty(), "{:?}", agg.errors);

    // Reclassified to exactly the host-embed shape: N/A with the
    // excluding mark as detail, nothing else.
    let sim_attest = outcome(&agg, "sim", "suite/hsm/attest");
    assert_eq!(sim_attest.status, Status::NotApplicable);
    assert_eq!(sim_attest.detail.as_deref(), Some("hsm"));
    assert_eq!(sim_attest.provenance, None);
    assert!(sim_attest.diagnostics.is_empty());
    let native_declined = outcome(&agg, "native", "suite/hsm/declined");
    assert_eq!(native_declined.status, Status::NotApplicable);
    assert_eq!(native_declined.detail.as_deref(), Some("!hsm"));

    // The reclassified fail no longer fails the corpus (that is
    // the point: runner parity), and the drift smell is preserved
    // as a warning on the stream where the required-feature case
    // passed anyway.
    assert!(!agg.has_failures(), "{:?}", agg.results);
    assert!(agg.ok());
    assert!(
        agg.warnings
            .iter()
            .any(|w| w.contains("sim") && w.contains("reclassified") && w.contains("drift")),
        "{:?}",
        agg.warnings
    );
    assert!(
        agg.warnings.iter().any(|w| w.contains("native")
            && w.contains("reclassified")
            && !w.contains("drift")),
        "{:?}",
        agg.warnings
    );
}

/// The reclassified corpus must be indistinguishable from a
/// scheduled runner's corpus downstream.
#[test]
fn unscheduled_reclassification_matches_scheduled_results() {
    let mut unscheduled = doc(
        "sim",
        vec![
            result("suite/add", Status::Pass, None),
            result("suite/hsm/attest", Status::Fail, Some("no hsm here")),
            result("suite/hsm/declined", Status::Pass, None),
        ],
    );
    unscheduled.envelope.run.scheduling = Some("none".into());
    let mut agg_a = aggregate(
        &corpus_lock(),
        &manifest(MANIFEST),
        &[("native".into(), native_doc()), ("sim".into(), unscheduled)],
    );
    let agg_b = aggregate(
        &corpus_lock(),
        &manifest(MANIFEST),
        &[("native".into(), native_doc()), ("sim".into(), sim_doc())],
    );
    assert!(agg_a.errors.is_empty(), "{:?}", agg_a.errors);
    assert_eq!(agg_a.results.get("sim"), agg_b.results.get("sim"));
    // Same rendered matrix once the reclassification warning (the
    // only intended difference) is set aside.
    agg_a.warnings.clear();
    assert_eq!(render(&agg_a), render(&agg_b));
}

#[test]
fn undeclared_lockfile_feature_is_error() {
    let unclassified = manifest(
        r#"
            version = "0.1"
            [targets.native]
            missing-features = []
            [targets.sim]
            missing-features = []
        "#,
    );
    let agg = aggregate(
        &corpus_lock(),
        &unclassified,
        &[("native".into(), native_doc()), ("sim".into(), sim_doc())],
    );
    assert!(
        agg.errors
            .iter()
            .any(|e| e.contains("`hsm`") && e.contains("not classified")),
        "{:?}",
        agg.errors
    );
}

/// Retiring a feature: a corpus with a tagged pair
/// and manifest entry. Every partial-deletion state must fail
/// validation; the complete deletion must pass.
#[test]
fn feature_retirement() {
    // Retirement removes, in one commit: (A) the tagged cases from
    // the suite/lockfile, (B) the [features] classification, (C)
    // the missing-features entries. Results follow the suite.
    let retired_lock = lockfile(vec![entry("suite/add", &[])]);
    let retired_manifest = manifest(
        r#"
            version = "0.1"
            [targets.native]
            missing-features = []
            [targets.sim]
            missing-features = []
        "#,
    );
    let retired_docs = |t: &str| doc(t, vec![result("suite/add", Status::Pass, None)]);
    let stale_docs = |t: &str| {
        if t == "native" {
            native_doc()
        } else {
            sim_doc()
        }
    };

    // Enumerate the 2^3 - 2 partial states: for each surface, keep
    // the stale version or the retired one.
    for (del_a, del_b, del_c) in itertools() {
        let lock = if del_a {
            &retired_lock
        } else {
            &corpus_lock2()
        };
        let mani = if del_b && del_c {
            retired_manifest.clone()
        } else {
            partial_manifest(del_b, del_c)
        };
        let docs: Vec<(String, Document)> = ["native", "sim"]
            .iter()
            .map(|t| {
                (
                    t.to_string(),
                    if del_a {
                        retired_docs(t)
                    } else {
                        stale_docs(t)
                    },
                )
            })
            .collect();
        let agg = aggregate(lock, &mani, &docs);
        let uniform = del_a == del_b && del_b == del_c;
        if uniform {
            // All-false is the valid pre-retirement baseline;
            // all-true is the complete deletion. Both pass.
            assert!(
                agg.errors.is_empty(),
                "uniform state (A={del_a} B={del_b} C={del_c}): {:?}",
                agg.errors
            );
        } else {
            assert!(
                !agg.errors.is_empty(),
                "partial deletion (A={del_a} B={del_b} C={del_c}) passed validation"
            );
        }
    }

    fn itertools() -> Vec<(bool, bool, bool)> {
        (0..8u8)
            .map(|i| (i & 1 != 0, i & 2 != 0, i & 4 != 0))
            .collect()
    }
    fn corpus_lock2() -> Lockfile {
        lockfile(vec![
            entry("suite/add", &[]),
            entry("suite/hsm/attest", &["hsm"]),
            entry("suite/hsm/declined", &["!hsm"]),
        ])
    }
    fn partial_manifest(del_b: bool, del_c: bool) -> Manifest {
        let features = if del_b {
            ""
        } else {
            "[features.hsm]\nkind = \"gated\"\n"
        };
        let sim_missing = if del_c { "[]" } else { "[\"hsm\"]" };
        manifest(&format!(
            "version = \"0.1\"\n{features}\
             [targets.native]\nmissing-features = []\n\
             [targets.sim]\nmissing-features = {sim_missing}\n"
        ))
    }
}

#[test]
fn case_applicable_nowhere_is_error() {
    let lock = Lockfile::new(
        SuiteRef {
            name: "s".into(),
            artifact_sha256: None,
        },
        vec![
            CaseEntry {
                name: CaseName::parse("a/pos").unwrap(),
                tags: vec![Tag::parse("hsm").unwrap()],
            },
            CaseEntry {
                name: CaseName::parse("a/neg").unwrap(),
                tags: vec![Tag::parse("!hsm").unwrap()],
            },
        ],
    );
    // Only a full-support target: the decline case runs nowhere.
    let classified = manifest(
        r#"
            version = "0.1"
            [features.hsm]
            kind = "gated"
            [targets.full]
            missing-features = []
            "#,
    );
    let agg = aggregate(&lock, &classified, &[]);
    assert!(
        agg.errors
            .iter()
            .any(|e| e.contains("a/neg") && e.contains("no declared target")),
        "{:?}",
        agg.errors
    );
    // Adding a target lacking hsm clears it.
    let classified = manifest(
        r#"
            version = "0.1"
            [features.hsm]
            kind = "gated"
            [targets.full]
            missing-features = []
            [targets.lacking]
            missing-features = ["hsm"]
            "#,
    );
    let agg = aggregate(&lock, &classified, &[]);
    assert!(
        !agg.errors.iter().any(|e| e.contains("no declared target")),
        "{:?}",
        agg.errors
    );
}

// ----------------------------------------------------------- manifest

const GOOD: &str = r#"
        version = "0.1"
        [features.chacha20-poly1305]
        kind = "gated"
        [features.ecdsa-sign]
        kind = "structural"
        [targets.wasmtime-rustcrypto]
        missing-features = []
        [targets.jco-node]
        missing-features = ["chacha20-poly1305"]
    "#;

#[test]
fn parse_and_validate() {
    let m = manifest(GOOD);
    m.validate().unwrap();
    assert_eq!(m.features.get("ecdsa-sign").unwrap().kind, FeatureKind::Structure);
    assert_eq!(
        m.missing("jco-node").unwrap(),
        ["chacha20-poly1305".to_string()]
    );
    assert!(m.missing("nonexistent").is_none());
    assert!(!m.targets.get("jco-node").unwrap().optional);
}

#[test]
fn optional_target_parses() {
    let m = manifest(
        r#"
            version = "0.1"
            [targets.browser]
            missing-features = []
            optional = true
        "#,
    );
    m.validate().unwrap();
    assert!(m.targets.get("browser").unwrap().optional);
}

#[test]
fn unclassified_missing_feature_refused() {
    let m = manifest(
        r#"
            version = "0.1"
            [targets.a]
            missing-features = ["some-quirk"]
        "#,
    );
    let err = m.validate().unwrap_err().to_string();
    assert!(err.contains("some-quirk"), "{err}");
}

#[test]
fn empty_targets_refused() {
    let m = manifest(r#"version = "0.1""#);
    let err = m.validate().unwrap_err().to_string();
    assert!(err.contains("no targets"), "{err}");
}

#[test]
fn unknown_keys_tolerated() {
    let m = manifest(
        r#"
            version = "0.1"
            future-top-level = "x"
            [features.f]
            kind = "gated"
            note = "why"
            [targets.a]
            missing-features = ["f"]
            optional = true
        "#,
    );
    m.validate().unwrap();
}

// ------------------------------------------------------------- matrix

fn bare(case: &str, status: Status, detail: Option<&str>) -> CaseResult {
    role_case(case, status, detail)
}

fn by_case(results: Vec<CaseResult>) -> Table<CaseResult> {
    let mut t: Table<CaseResult> = Table::new();
    for r in results {
        t.insert(r.case.clone(), r);
    }
    t
}

#[test]
fn snapshot() {
    let mut results: Table<Table<CaseResult>> = Table::new();
    results.insert(
        "native".into(),
        by_case(vec![
            bare("aes-gcm/wycheproof/tc1", Status::Pass, None),
            bare("aes-gcm/wycheproof/tc2", Status::Pass, None),
            bare("probe/decline", Status::NotApplicable, Some("!hsm")),
        ]),
    );
    let mut fail = bare("aes-gcm/wycheproof/tc2", Status::Fail, Some("tag mismatch"));
    fail.diagnostics.push("expected 0xab, got 0xcd".into());
    results.insert(
        "sim".into(),
        by_case(vec![
            bare("aes-gcm/wycheproof/tc1", Status::Pass, None),
            fail,
            bare("probe/decline", Status::Pass, None),
        ]),
    );
    let agg = Aggregate {
        targets: vec!["native".into(), "sim".into()],
        results,
        assessments: Table::new(),
        errors: vec![],
        warnings: vec![],
    };
    let md = render(&agg);
    let expected = "\
# Test matrix

| Case | native | sim |
| --- | --- | --- |
| aes-gcm (2 cases) | pass | 1 FAIL, 1 pass |
| probe/decline | N/A | pass |

## Failures

- `sim` `aes-gcm/wycheproof/tc2` FAIL: tag mismatch
  - diag: expected 0xab, got 0xcd

## Summary

- `native`: 1 N/A, 2 pass (3 total)
- `sim`: 1 FAIL, 2 pass (3 total)
";
    assert_eq!(md, expected, "rendered:\n{md}");
}

// ------------------------------------------------------------ reports

const LOCK_XY: &str = r#"
version = "0.1"
[suite]
name = "t"
[[case]]
name = "a/x"
[[case]]
name = "a/y"
"#;

const ENVELOPE: &str =
    r#"{"component-test-results":"0.1","target":"t","suite":{"name":"t"},"run":{"segment":0}}"#;

fn stream(events: &[&str], terminated: bool) -> String {
    let mut s = String::from(ENVELOPE);
    s.push('\n');
    for e in events {
        s.push_str(e);
        s.push('\n');
    }
    if terminated {
        s.push_str(r#"{"segment-end":true}"#);
        s.push('\n');
    }
    s
}

struct Output {
    code: i32,
    stdout: String,
    stderr: String,
}

fn fold_with(locked: &str, jsonl: &str) -> Output {
    let lockfile = lock(locked);
    let selected = selected_names(Some(&lockfile), jsonl);
    match fold(jsonl, &selected) {
        Ok(doc) => {
            let report = report_fold(&doc, Some(&lockfile));
            Output {
                code: i32::from(report.failed),
                stdout: report.text,
                stderr: String::new(),
            }
        }
        Err(e) => Output {
            code: 1,
            stdout: String::new(),
            stderr: e.to_string(),
        },
    }
}

// ------------------------------------------------------ fold semantics

#[test]
fn fold_clean_run_exits_zero() {
    let lock = LOCK_XY;
    let jsonl = stream(
        &[
            r#"{"case":"a/x","status":"pass"}"#,
            r#"{"case":"a/y","status":"pass"}"#,
        ],
        true,
    );
    let out = fold_with(lock, &jsonl);
    assert_eq!(
        out.code, 0,
        "stdout: {}\nstderr: {}",
        out.stdout, out.stderr
    );
    assert!(out.stdout.contains("2 results (terminated): 2 pass"));
}

#[test]
fn fold_missing_case_fails_coverage() {
    let lock = LOCK_XY;
    let jsonl = stream(&[r#"{"case":"a/x","status":"pass"}"#], true);
    let out = fold_with(lock, &jsonl);
    assert_eq!(out.code, 1);
    assert!(out.stdout.contains("COVERAGE:"), "{}", out.stdout);
    assert!(out.stdout.contains("a/y"), "{}", out.stdout);
}

#[test]
fn fold_duplicate_case_fails_coverage() {
    let lock = LOCK_XY;
    let jsonl = stream(
        &[
            r#"{"case":"a/x","status":"pass"}"#,
            r#"{"case":"a/x","status":"pass"}"#,
            r#"{"case":"a/y","status":"pass"}"#,
        ],
        true,
    );
    let out = fold_with(lock, &jsonl);
    assert_eq!(out.code, 1);
    assert!(out.stdout.contains("more than once"), "{}", out.stdout);
}

#[test]
fn fold_unknown_status_fails() {
    let lock = LOCK_XY;
    let jsonl = stream(
        &[
            r#"{"case":"a/x","status":"wat"}"#,
            r#"{"case":"a/y","status":"pass"}"#,
        ],
        true,
    );
    let out = fold_with(lock, &jsonl);
    assert_eq!(out.code, 1);
    assert!(
        out.stdout.contains("UNKNOWN-STATUS: a/x -> wat"),
        "{}",
        out.stdout
    );
}

#[test]
fn fold_explicit_not_reached_fails() {
    let lock = LOCK_XY;
    let jsonl = stream(
        &[
            r#"{"case":"a/x","status":"pass"}"#,
            r#"{"case":"a/y","status":"not-reached"}"#,
        ],
        true,
    );
    let out = fold_with(lock, &jsonl);
    assert_eq!(out.code, 1);
    assert!(out.stdout.contains("NOT-REACHED: a/y"), "{}", out.stdout);
}

#[test]
fn fold_unterminated_fails_and_synthesizes() {
    let lock = LOCK_XY;
    let jsonl = stream(&[r#"{"case":"a/x","status":"pass"}"#], false);
    let out = fold_with(lock, &jsonl);
    assert_eq!(out.code, 1);
    assert!(out.stdout.contains("NOT terminated"), "{}", out.stdout);
    assert!(out.stdout.contains("NOT-REACHED: a/y"), "{}", out.stdout);
}

#[test]
fn fold_run_error_fails() {
    let lock = LOCK_XY;
    let jsonl = stream(
        &[
            r#"{"case":"a/x","status":"pass"}"#,
            r#"{"case":"a/y","status":"pass"}"#,
            r#"{"run-error":"enumeration trapped"}"#,
        ],
        true,
    );
    let out = fold_with(lock, &jsonl);
    assert_eq!(out.code, 1);
    assert!(
        out.stdout.contains("RUN-ERROR: enumeration trapped"),
        "{}",
        out.stdout
    );
}

#[test]
fn fold_unknown_version_refused() {
    let lock = LOCK_XY;
    let jsonl = stream(&[r#"{"case":"a/x","status":"pass"}"#], true).replace(
        r#""component-test-results":"0.1""#,
        r#""component-test-results":"9.9""#,
    );
    let out = fold_with(lock, &jsonl);
    assert_eq!(out.code, 1);
    assert!(
        out.stderr.contains("unsupported results version `9.9`"),
        "{}",
        out.stderr
    );
}

/// An all-generated suite has an empty static case list; its selection
/// is knowable only from the stream.
#[test]
fn fold_all_generated_lockfile() {
    let lock = r#"
version = "0.1"
[suite]
name = "t"
[[generated]]
prefix = "g/rows"
"#;
    let jsonl = stream(
        &[
            r#"{"case":"g/rows/tc1","status":"pass"}"#,
            r#"{"case":"g/rows/tc2","status":"pass"}"#,
        ],
        true,
    );
    let out = fold_with(lock, &jsonl);
    assert_eq!(
        out.code, 0,
        "stdout: {}\nstderr: {}",
        out.stdout, out.stderr
    );
    assert!(out.stdout.contains("2 results (terminated): 2 pass"));

    // Grammar still enforced under the prefix.
    let jsonl = stream(
        &[r#"{"case":"g/rows/../../etc/passwd","status":"pass"}"#],
        true,
    );
    let out = fold_with(lock, &jsonl);
    assert_eq!(out.code, 1);
    assert!(
        out.stdout.contains("not a valid case name"),
        "{}",
        out.stdout
    );
}

// -------------------------------------------------------- aggregate

const AGG_LOCK: &str = r#"
version = "0.1"
[suite]
name = "t"
[[case]]
name = "a/add"
[[case]]
name = "a/hsm/attest"
tags = ["hsm"]
[[case]]
name = "a/hsm/declined"
tags = ["!hsm"]
"#;

const AGG_MANIFEST: &str = r#"
version = "0.1"
[features.hsm]
kind = "gated"
[targets.native]
missing-features = []
[targets.sim]
missing-features = ["hsm"]
"#;

fn agg_stream(target: &str, results: &[(&str, &str, Option<&str>)]) -> String {
    let mut s = format!(
        r#"{{"component-test-results":"0.1","target":"{target}","suite":{{"name":"t"}},"run":{{"segment":0}}}}"#
    );
    s.push('\n');
    for (case, status, detail) in results {
        match detail {
            Some(d) => s.push_str(&format!(
                r#"{{"case":"{case}","status":"{status}","detail":"{d}"}}"#
            )),
            None => s.push_str(&format!(r#"{{"case":"{case}","status":"{status}"}}"#)),
        }
        s.push('\n');
    }
    s.push_str(r#"{"segment-end":true}"#);
    s.push('\n');
    s
}

fn joined(locked: &str, manifest_toml: &str, native: &str, sim: &str) -> Output {
    let lockfile = lock(locked);
    let docs: Vec<(String, Document)> = [("native", native), ("sim", sim)]
        .iter()
        .map(|(target, jsonl)| {
            let selected = selected_names(Some(&lockfile), jsonl);
            (target.to_string(), fold(jsonl, &selected).unwrap())
        })
        .collect();
    let agg = aggregate(&lockfile, &manifest(manifest_toml), &docs);
    Output {
        code: i32::from(!agg.ok()),
        stdout: format!("{}{}", render(&agg), aggregate_summary(&agg, None)),
        stderr: complaints_of(&agg).join("\n"),
    }
}

fn native_ok() -> String {
    agg_stream(
        "native",
        &[
            ("a/add", "pass", None),
            ("a/hsm/attest", "pass", None),
            ("a/hsm/declined", "not-applicable", Some("!hsm")),
        ],
    )
}

fn sim_ok() -> String {
    agg_stream(
        "sim",
        &[
            ("a/add", "pass", None),
            ("a/hsm/attest", "not-applicable", Some("hsm")),
            ("a/hsm/declined", "pass", None),
        ],
    )
}

#[test]
fn aggregate_clean_corpus() {
    let out = joined(AGG_LOCK, AGG_MANIFEST, &native_ok(), &sim_ok());
    assert_eq!(
        out.code, 0,
        "stdout: {}\nstderr: {}",
        out.stdout, out.stderr
    );
    assert!(out.stdout.contains("# Test matrix"));
    assert!(
        out.stdout
            .contains("2 targets, 6 results, 0 failing, 0 validation error(s)"),
        "{}",
        out.stdout
    );
}

#[test]
fn aggregate_applicability_drift_fails() {
    // sim declares hsm missing but reports the hsm-tagged case executed.
    let sim = agg_stream(
        "sim",
        &[
            ("a/add", "pass", None),
            ("a/hsm/attest", "pass", None),
            ("a/hsm/declined", "pass", None),
        ],
    );
    let out = joined(AGG_LOCK, AGG_MANIFEST, &native_ok(), &sim);
    assert_eq!(out.code, 1);
    assert!(out.stderr.contains("not applicable"), "{}", out.stderr);
}

#[test]
fn aggregate_artifact_hashes_are_provenance() {
    // A lockfile hash that differs from the envelopes' is normal (builds are
    // not reproducible): tolerated, no error, no warning.
    let lock = AGG_LOCK.replace(
        "name = \"t\"\n[[case]]",
        "name = \"t\"\nartifact_sha256 = \"aa11\"\n[[case]]",
    );
    let native = native_ok().replace(
        r#""suite":{"name":"t"}"#,
        r#""suite":{"name":"t","artifact-sha256":"bb22"}"#,
    );
    let sim = sim_ok().replace(
        r#""suite":{"name":"t"}"#,
        r#""suite":{"name":"t","artifact-sha256":"bb22"}"#,
    );
    let out = joined(&lock, AGG_MANIFEST, &native, &sim);
    assert_eq!(out.code, 0, "{}\n{}", out.stdout, out.stderr);
    assert!(!out.stderr.contains("warning"), "{}", out.stderr);

    // Targets that disagree with each other come from mixed builds: a
    // warning only.
    let sim_other = sim_ok().replace(
        r#""suite":{"name":"t"}"#,
        r#""suite":{"name":"t","artifact-sha256":"cc33"}"#,
    );
    let out = joined(&lock, AGG_MANIFEST, &native, &sim_other);
    assert_eq!(out.code, 0, "{}\n{}", out.stdout, out.stderr);
    assert!(out.stderr.contains("mixed builds"), "{}", out.stderr);
    assert!(
        out.stderr.contains("bb22") && out.stderr.contains("cc33"),
        "{}",
        out.stderr
    );
}

#[test]
fn aggregate_applies_applicability_for_unscheduled_streams() {
    // The composed-runner topology: an execute-everything stream
    // declares `scheduling: none`; aggregate reclassifies executed
    // non-applicable cases instead of erroring, and the corpus is
    // clean despite the decline probe "running" on sim.
    let sim = agg_stream(
        "sim",
        &[
            ("a/add", "pass", None),
            ("a/hsm/attest", "fail", Some("no hsm on sim")),
            ("a/hsm/declined", "pass", None),
        ],
    )
    .replace(
        r#""run":{"segment":0}"#,
        r#""run":{"segment":0,"scheduling":"none"}"#,
    );
    let out = joined(AGG_LOCK, AGG_MANIFEST, &native_ok(), &sim);
    assert_eq!(
        out.code, 0,
        "stdout: {}\nstderr: {}",
        out.stdout, out.stderr
    );
    assert!(out.stderr.contains("reclassified"), "{}", out.stderr);
    assert!(
        out.stdout
            .contains("2 targets, 6 results, 0 failing, 0 validation error(s)"),
        "{}",
        out.stdout
    );
}

const AGG_XFAIL_MANIFEST: &str = r#"
version = "0.1"
[features.hsm]
kind = "gated"
[targets.native]
missing-features = []
[targets.sim]
missing-features = ["hsm"]
[[targets.sim.expected-fail]]
case = "a/add"
reason = "integer add broken on the sim backend"
tracking = "https://example.test/issues/9"
"#;

/// A declared known failure aggregates green with the
/// debt reported; the same declaration over a passing case is a
/// validation failure that forces cleanup.
#[test]
fn aggregate_expected_fail_roundtrip() {
    let sim_failing = agg_stream(
        "sim",
        &[
            ("a/add", "fail", Some("1 + 1 = 3")),
            ("a/hsm/attest", "not-applicable", Some("hsm")),
            ("a/hsm/declined", "pass", None),
        ],
    );
    let out = joined(AGG_LOCK, AGG_XFAIL_MANIFEST, &native_ok(), &sim_failing);
    assert_eq!(
        out.code, 0,
        "stdout: {}\nstderr: {}",
        out.stdout, out.stderr
    );
    assert!(
        out.stdout
            .contains("2 targets, 6 results, 0 failing (1 expected-fail), 0 validation error(s)"),
        "{}",
        out.stdout
    );
    assert!(
        out.stdout.contains("## Expected failures"),
        "{}",
        out.stdout
    );
    assert!(out.stdout.contains("xfail"), "{}", out.stdout);

    // The case got fixed: the stale declaration must fail the run.
    let out = joined(AGG_LOCK, AGG_XFAIL_MANIFEST, &native_ok(), &sim_ok());
    assert_eq!(
        out.code, 1,
        "stdout: {}\nstderr: {}",
        out.stdout, out.stderr
    );
    assert!(
        out.stderr.contains("passed") && out.stderr.contains("`a/add`"),
        "{}",
        out.stderr
    );
    assert!(out.stdout.contains("XPASS"), "{}", out.stdout);
}

// ------------------------------------------------------- further cases

#[test]
fn every_fold_error() {
    let stream = encode(&envelope(), &[pass("a/x")]);
    assert_eq!(fold(" \n", &["a/x"]).unwrap_err(), FoldError::MissingEnvelope);
    assert!(matches!(fold("{}\n", &["a/x"]).unwrap_err(), FoldError::BadEnvelope(_)));
    let e = fold(&format!("{stream}{{\"case\":\"a/y\",\"status\":\"pass\"}}\n"), &["a/x"])
        .unwrap_err();
    assert_eq!(e, FoldError::AfterTerminator);
    assert_eq!(e.to_string(), "events after segment terminator");
    let broken = format!("{}\nnot json\n", write_envelope(&envelope()));
    let e = fold(&broken, &["a/x"]).unwrap_err();
    assert!(e.to_string().starts_with("parsing event line: "), "{e:?}");
    assert_eq!(
        fold::<&str>(&stream, &[]).unwrap_err().to_string(),
        "empty selection is a run error"
    );
}

#[test]
fn what_is_written_is_read_back() {
    let events = [
        pass("a/x"),
        Event::RunError(RunError { message: "oops".into() }),
        pass("a/y"),
    ];
    let doc = fold(&encode(&envelope(), &events), &["a/x", "a/y"]).unwrap();
    assert_eq!(doc.envelope, envelope());
    assert_eq!(doc.run_errors, ["oops"]);
    let cases: Vec<Event> = doc.results.into_iter().map(Event::Case).collect();
    assert_eq!(cases, [pass("a/x"), pass("a/y")]);
    assert_eq!(
        content_lines_of(&to_jsonl("head", &["one".to_string(), "two".to_string()])),
        ["head", "one", "two", TERMINATOR]
    );
}

#[test]
fn shapeless_events_are_noted() {
    let stream = format!("{}\n{{\"what\":1}}\n{TERMINATOR}\n", write_envelope(&envelope()));
    let doc = fold(&stream, &["a/x"]).unwrap();
    assert_eq!(doc.unknown_statuses.get("<unknown>").unwrap(), "<unparseable>");
}

#[test]
fn selection_unites_lockfile_and_stream() {
    let l = lock(LOCK_XY);
    let s = stream(
        &[
            r#"{"case":"g/tc1","status":"pass"}"#,
            r#"{"case":"a/x","status":"pass"}"#,
            "not json",
            r#"{"case":"g/tc1","status":"pass"}"#,
        ],
        true,
    );
    assert_eq!(selected_names(Some(&l), &s), ["a/x", "a/y", "g/tc1"]);
    assert_eq!(selected_names(None, &s), ["g/tc1", "a/x"]);
}

#[test]
fn a_failing_role_fails_the_case() {
    for (status, expected) in [
        (Status::Pass, Status::Skipped),
        (Status::Skipped, Status::Skipped),
        (Status::NotReached, Status::NotReached),
        (Status::Fail, Status::Fail),
    ] {
        let folded = fold_roles(&[
            ("a", vec![role_case("x", status, None)]),
            ("b", vec![role_case("x", Status::Skipped, None)]),
        ]);
        assert_eq!(folded.len(), 1);
        assert_eq!(folded[0].status, expected);
    }
}

#[test]
fn drift_message_is_exact() {
    let mut d = sim_doc();
    d.results[1] = result("suite/hsm/attest", Status::Pass, None);
    let agg = aggregate(
        &corpus_lock(),
        &manifest(MANIFEST),
        &[("native".into(), native_doc()), ("sim".into(), d)],
    );
    assert_eq!(
        agg.errors,
        [
            "target `sim`: case `suite/hsm/attest` reported Pass but its tags make it \
             not applicable given missing-features [\"hsm\"]"
        ]
    );
}

#[test]
fn totals_match_the_summary_line() {
    let mut sim = sim_doc();
    sim.results[0] = result("suite/add", Status::Fail, Some("1 + 1 = 3"));
    let agg = aggregate(
        &corpus_lock(),
        &manifest(MANIFEST),
        &[("native".into(), native_doc()), ("sim".into(), sim)],
    );
    let t = totals_of(&agg);
    assert_eq!((t.targets, t.results, t.failing, t.expected_fail), (2, 6, 1, 0));
    assert!(!t.ok);
    assert_eq!(
        aggregate_summary(&agg, Some("m.md")),
        "2 targets, 6 results, 1 failing, 0 validation error(s); wrote m.md"
    );
    assert!(agg.has_failures());
    assert!(agg.result_failing("sim", outcome(&agg, "sim", "suite/add")));
}

#[test]
fn a_declared_failure_excuses_only_failing() {
    // Not reached is no excuse: the case never got to fail.
    let mut sim = sim_doc();
    sim.results[0] = result("suite/add", Status::NotReached, None);
    let agg = aggregate(
        &corpus_lock(),
        &manifest(XFAIL_MANIFEST),
        &[("native".into(), native_doc()), ("sim".into(), sim)],
    );
    assert!(agg.has_failures());
    assert_eq!(agg.expected_fail_count(), 0);
}

#[test]
fn a_target_reports_once() {
    let agg = aggregate(
        &corpus_lock(),
        &manifest(MANIFEST),
        &[
            ("native".into(), native_doc()),
            ("native".into(), native_doc()),
            ("sim".into(), sim_doc()),
        ],
    );
    assert_eq!(agg.errors, ["target `native`: multiple result sets"]);
}

#[test]
fn manifest_versions_are_held() {
    let mut m = manifest(GOOD);
    m.version = "9.9".into();
    assert_eq!(m.validate().unwrap_err(), "unsupported manifest version 9.9");
    assert_eq!(m.clone(), m);
}

#[test]
fn junit_shows_every_failure() {
    let broken = doc(
        "t",
        vec![
            result("g/a", Status::NotReached, None),
            result("g/b", Status::Deselected, Some("why")),
        ],
    );
    let xml = junit(&[("t".into(), broken)]);
    assert!(xml.contains("failures=\"1\""), "{xml}");
    assert!(xml.contains("name=\"a\"") && xml.contains("name=\"b\""));
}

#[test]
fn tables_keep_their_keys_in_order() {
    let mut t: Table<String> = Table::new();
    assert!(t.is_empty());
    t.insert("b".into(), "1".into());
    t.insert("a".into(), "2".into());
    t.insert("b".into(), "3".into());
    assert_eq!(t.len(), 2);
    assert_eq!(t.to_keys(), ["a", "b"]);
    assert_eq!(t.get("b").unwrap(), "3");
    assert!(t.get("c").is_none());
    assert!(t.contains_key("a"));
    assert_eq!((t.key_at(0), t.value_at(0).as_str()), ("a", "2"));
    t.replace_at(0, "4".into());
    assert_eq!(t.get("a").unwrap(), "4");
    assert_eq!(t.clone(), t);
}

/// The message of the only failure in a JUnit text, as it stands there.
fn message(detail: &str) -> String {
    let d = doc("t", vec![result("g/a", Status::Fail, Some(detail))]);
    let xml = junit(&[("t".into(), d)]);
    let rest = xml.split("<failure message=\"").nth(1).unwrap();
    rest.split('"').next().unwrap().to_string()
}

#[test]
fn escaped_messages_can_be_read_back() {
    assert_eq!(message("a<b>&\"c\""), "a&lt;b&gt;&amp;&quot;c&quot;");
    assert_eq!(message("&lt;"), "&amp;lt;");
    assert_ne!(message("&lt;"), message("<"));
    for s in ["plain", "a<b>&\"c\"", "&lt;", "&amp;amp;", "&quot\"'"] {
        let back = message(s)
            .replace("&lt;", "<")
            .replace("&gt;", ">")
            .replace("&quot;", "\"")
            .replace("&amp;", "&");
        assert_eq!(back, s);
    }
}

#[test]
fn what_was_kept_out_drifts_unscheduled_as_well() {
    // The target has the feature, and the case was kept out all the same.
    let results = || {
        vec![
            result("suite/add", Status::Pass, None),
            result("suite/hsm/attest", Status::NotApplicable, Some("hsm")),
            result("suite/hsm/declined", Status::NotApplicable, Some("!hsm")),
        ]
    };
    let scheduled = doc("native", results());
    let mut unscheduled = doc("native", results());
    unscheduled.envelope.run.scheduling = Some("none".into());
    let join = |native: Document| {
        aggregate(
            &corpus_lock(),
            &manifest(MANIFEST),
            &[("native".into(), native), ("sim".into(), sim_doc())],
        )
    };
    let (a, b) = (join(scheduled), join(unscheduled));
    assert_eq!(a.errors.len(), 1, "{:?}", a.errors);
    assert_eq!(a.errors, b.errors);
    assert_eq!(a.results, b.results);
}

#[test]
fn attributes_are_escaped() {
    assert_eq!(attr("a<b>&\"c\"'d"), "a&lt;b&gt;&amp;&quot;c&quot;'d");
    assert_eq!(attr("&amp;"), "&amp;amp;");
    assert_eq!(attr(""), "");
}

#[test]
fn json_members_are_looked_up() {
    let line = r#"{"case":"a/\u0062","seed":7,"case-of":{"case":"c"}}"#;
    assert_eq!(json_string_member(line, "case"), Ok(Some("a/b".to_string())));
    assert_eq!(json_string_member(line, "seed"), Ok(None));
    assert_eq!(json_string_member(line, "absent"), Ok(None));
    assert_eq!(json_string_member("[\"case\"]", "case"), Ok(None));
    assert!(json_string_member("{\"case\":", "case").unwrap_err().contains("EOF"));
}
