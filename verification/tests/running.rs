use component_test::args::{
    parse_bench_args, parse_env, parse_number, parse_preinit_args, parse_runner_args,
    parse_target_results, Invocation, BENCH_USAGE, PREINIT_USAGE, USAGE,
};
use component_test::bench::{
    bench_cases, check_bench_name, check_minted, median, mint_leaf, warmup_runs,
};
use component_test::composed::{composed_envelope, ComposedRun};
use component_test::provider::Shared;
use component_test::results::Status;
use component_test::runner::{
    case_of, check_suite, line_of, run_envelope, Output, OutputMode, Step, SuiteRun, Summary,
};
use component_test::schedule::{runnable_of, stripe_of, Planned};
use component_test::session::{
    call_verdict, check_index, enumeration_error, limit_from_error, trap_detail, CallError,
    CallResult, CaseVerdict, CtCtx, Ran, Served, Slot, Trouble, EPOCH_TICK_NANOS, NANOS_PER_SEC,
};
use component_test::verdict::{failed, skipped, Failure, Provenance};

#[test]
fn trap_detail_extracts_root_trap_message() {
    // The chain of an error that was given a context.
    let e = "running case `fixture/trap/boom`: wasm trap: wasm `unreachable` instruction executed";
    assert_eq!(
        trap_detail(e),
        "wasm trap: wasm `unreachable` instruction executed"
    );
}

#[test]
fn trap_detail_falls_back_to_first_line_one_liner() {
    let e = "component instantiation failed\nbecause of reasons\nand more";
    assert_eq!(trap_detail(e), "component instantiation failed");
    // One-line convention: never multiline.
    assert!(!trap_detail(e).contains('\n'));
}

#[test]
fn verdict_constructors() {
    assert_eq!(failed("boom"), Err(Failure::Failed("boom".to_string())));
    assert_eq!(skipped("no rng"), Err(Failure::Skipped("no rng".to_string())));
    assert_eq!(failed("boom").unwrap_err().to_string(), "failed: boom");
    assert_eq!(skipped("no rng").unwrap_err().to_string(), "skipped: no rng");
}

fn error(text: &str) -> CallError {
    CallError { budget: false, text: text.to_string() }
}

fn over_budget() -> CaseVerdict {
    CaseVerdict::Limit(
        "execution-budget".to_string(),
        "execution budget exceeded (10s wasm execution)".to_string(),
    )
}

#[test]
fn budget_errors_are_limits() {
    assert_eq!(limit_from_error(&error("boom"), 10), None);
    assert_eq!(limit_from_error(&error("x: execution budget exceeded"), 10), Some(over_budget()));
    let marked = CallError { budget: true, text: "x".to_string() };
    assert_eq!(limit_from_error(&marked, 10), Some(over_budget()));
}

#[test]
fn calls_come_to_verdicts() {
    assert_eq!(call_verdict(CallResult::Passed, 10), Ok(CaseVerdict::Pass));
    assert_eq!(
        call_verdict(CallResult::Outcome("failed".to_string(), Some("d".to_string())), 10),
        Ok(CaseVerdict::Fail("d".to_string()))
    );
    assert_eq!(
        call_verdict(CallResult::Outcome("skipped".to_string(), None), 10),
        Ok(CaseVerdict::Skip(String::new()))
    );
    assert_eq!(
        call_verdict(CallResult::Outcome("wat".to_string(), None), 10),
        Err("unknown outcome variant `wat`".to_string())
    );
    assert_eq!(
        call_verdict(CallResult::OddPayload("U32(1)".to_string()), 10),
        Err("unexpected outcome payload: U32(1)".to_string())
    );
    assert_eq!(
        call_verdict(CallResult::OddResult("None".to_string()), 10),
        Err("unexpected run result: None".to_string())
    );
    assert_eq!(
        call_verdict(CallResult::Errored(error("wasm trap: oops")), 10),
        Ok(CaseVerdict::Trap("wasm trap: oops".to_string()))
    );
    assert_eq!(check_index(1, 2), Ok(()));
    assert_eq!(
        check_index(2, 2),
        Err("case index 2 out of range on re-enumeration".to_string())
    );
}

#[test]
fn enumeration_fails_the_run_once() {
    assert_eq!(
        enumeration_error(Trouble::TimedOut, 10, 120),
        "suite enumeration exceeded case timeout (120s)"
    );
    assert_eq!(
        enumeration_error(Trouble::Errored(error("boom")), 10, 120),
        "enumerating suite: boom"
    );
    assert_eq!(
        enumeration_error(Trouble::Errored(error("execution budget exceeded")), 10, 120),
        "suite enumeration exceeded execution budget (10s wasm execution)"
    );
}

fn served(name: &str, verdict: CaseVerdict) -> Served {
    Served { name: name.to_string(), verdict, diagnostics: vec![] }
}

#[test]
fn slots_recycle_instances() {
    let mut slot = Slot::new();
    assert!(slot.prepare(1));
    slot.created();
    assert!(!slot.prepare(1));
    slot.begin();
    slot.finish("a", Ran::Finished(served("a", CaseVerdict::Pass)), 10, 120);
    assert!(slot.live);
    // One case per instance: the next needs a new one.
    assert!(slot.prepare(1));
    // Any number of cases per instance.
    slot.created();
    slot.begin();
    assert!(!slot.prepare(0));
    // A trap abandons it all the same.
    let s = slot.finish("b", Ran::Errored(error("wasm trap: oops")), 10, 120);
    assert_eq!(s.verdict, CaseVerdict::Trap("wasm trap: oops".to_string()));
    assert!(!slot.live);
    assert!(slot.prepare(0));
}

#[test]
fn slots_abandon_on_timeouts() {
    let mut slot = Slot::new();
    slot.created();
    slot.begin();
    let s = slot.finish("a", Ran::TimedOut(vec!["last words".to_string()]), 10, 120);
    assert_eq!(
        s.verdict,
        CaseVerdict::Limit("case-timeout".to_string(), "case timeout exceeded (120s)".to_string())
    );
    assert_eq!(s.diagnostics, ["last words"]);
    assert!(!slot.live);
    let s = slot.not_created("b", Trouble::TimedOut, 10, 120);
    assert_eq!(
        s.verdict,
        CaseVerdict::Limit(
            "case-timeout".to_string(),
            "session creation exceeded case timeout (120s)".to_string()
        )
    );
    let s = slot.not_created("b", Trouble::Errored(error("no memory")), 10, 120);
    assert_eq!(s.verdict, CaseVerdict::Trap("no memory".to_string()));
}

#[test]
fn budgets_count_one_thread_at_a_time() {
    let mut ctx = CtCtx { budget_max_secs: 1, ..CtCtx::default() };
    ctx.start_budget_phase();
    assert!(!ctx.sample(Some(100), 7));
    assert_eq!(ctx.budget_used, 0);
    assert!(!ctx.sample(Some(100 + NANOS_PER_SEC / 2), 7));
    assert_eq!(ctx.budget_used, NANOS_PER_SEC / 2);
    // Another thread has a clock of its own.
    assert!(!ctx.sample(Some(5), 8));
    assert_eq!(ctx.budget_used, NANOS_PER_SEC / 2);
    assert!(ctx.sample(Some(5 + NANOS_PER_SEC), 8));
    // Without a clock a tick is charged.
    ctx.start_budget_phase();
    assert!(!ctx.sample(None, 8));
    assert_eq!(ctx.budget_used, EPOCH_TICK_NANOS);
    // No budget, no end.
    let mut free = CtCtx::default();
    free.sample(Some(0), 1);
    assert!(!free.sample(Some(NANOS_PER_SEC * 1000), 1));
}

#[test]
fn diagnostics_are_kept_and_shown() {
    let mut ctx = CtCtx { live_print: true, ..CtCtx::default() };
    assert_eq!(ctx.diagnostic("one".to_string()), Some("    diag: one".to_string()));
    ctx.live_print = false;
    assert_eq!(ctx.diagnostic("two".to_string()), None);
    assert_eq!(ctx.take_diagnostics(), ["one", "two"]);
    assert!(ctx.take_diagnostics().is_empty());
}

// ------------------------------------------------------------- runner

#[test]
fn cases_and_lines() {
    let limit = served("a/x", over_budget());
    let c = case_of(&limit);
    assert_eq!(c.status, Status::Fail);
    assert_eq!(
        c.provenance,
        Some(Provenance::LimitExceeded("execution-budget".to_string()))
    );
    assert!(!c.diagnostics_complete);
    assert_eq!(
        line_of(&limit),
        "test a/x: FAIL: execution budget exceeded (10s wasm execution)"
    );
    let line = |v: CaseVerdict| line_of(&served("a", v));
    assert_eq!(line(CaseVerdict::Pass), "test a: PASS");
    assert_eq!(line(CaseVerdict::Fail("d".to_string())), "test a: FAIL: d");
    assert_eq!(line(CaseVerdict::Skip("d".to_string())), "test a: SKIP: d");
    assert_eq!(line(CaseVerdict::Trap("d".to_string())), "test a: FAIL: trap: d");
    assert_eq!(
        case_of(&served("a", CaseVerdict::Skip("d".to_string()))).status,
        Status::Skipped
    );
}

fn plan() -> Vec<Planned> {
    let entry = |index: usize, name: &str, excluded: Option<&str>| Planned {
        index,
        name: name.to_string(),
        excluded: excluded.map(String::from),
    };
    vec![
        entry(0, "f/before", None),
        entry(1, "f/boom", None),
        entry(2, "f/declined", Some("!hsm")),
    ]
}

#[test]
fn a_run_deals_with_its_plan_in_order() {
    let mut run = SuiteRun::new(plan(), OutputMode::Jsonl);
    let index = match run.next() {
        Step::Serve(_, index, name) => {
            assert_eq!(name, "f/before");
            index
        }
        other => panic!("{other:?}"),
    };
    assert_eq!(index, 0);
    assert!(matches!(
        run.served(served("f/before", CaseVerdict::Pass), false),
        Output::Case(_)
    ));
    assert!(matches!(run.next(), Step::Serve(_, 1, _)));
    let boom = run.served(served("f/boom", CaseVerdict::Trap("t".to_string())), false);
    match boom {
        Output::Case(c) => {
            assert_eq!(c.status, Status::Fail);
            assert_eq!(c.provenance, Some(Provenance::Trap));
        }
        other => panic!("{other:?}"),
    }
    match run.next() {
        Step::Report(Output::Case(c)) => {
            assert_eq!(c.case, "f/declined");
            assert_eq!(c.status, Status::NotApplicable);
            assert_eq!(c.detail.as_deref(), Some("!hsm"));
            assert_eq!(c.provenance, None);
        }
        other => panic!("{other:?}"),
    }
    assert_eq!(run.next(), Step::Done(Output::Terminator));
    let s = run.summary();
    assert_eq!((s.passed, s.failed, s.skipped, s.not_applicable), (1, 1, 0, 1));
    assert_eq!(s.total(), 3);
    assert_eq!(Summary::default().total(), 0);
}

#[test]
fn a_run_for_people() {
    let mut run = SuiteRun::new(plan(), OutputMode::Human);
    run.next();
    let mut first = served("f/before", CaseVerdict::Pass);
    first.diagnostics.push("hello".to_string());
    assert_eq!(
        run.served(first, false),
        Output::Lines(vec![
            "    diag: hello".to_string(),
            "test f/before: PASS".to_string()
        ])
    );
    run.next();
    let mut boom = served("f/boom", CaseVerdict::Fail("d".to_string()));
    boom.diagnostics.push("shown already".to_string());
    assert_eq!(
        run.served(boom, true),
        Output::Lines(vec!["test f/boom: FAIL: d".to_string()])
    );
}

/// Run the plan with the cases served by so many workers, each its stripe.
fn run_with(jobs: usize) -> (Vec<Output>, [usize; 4]) {
    let runnable = runnable_of(&plan());
    let mut results: Vec<Option<Served>> = vec![None, None, None];
    for worker in (0..jobs).rev() {
        for index in stripe_of(&runnable, worker, jobs) {
            let verdict = match index {
                0 => CaseVerdict::Pass,
                _ => CaseVerdict::Fail("d".to_string()),
            };
            results[index] = Some(served(&plan()[index].name, verdict));
        }
    }
    let mut run = SuiteRun::new(plan(), OutputMode::Jsonl);
    let mut outs = Vec::new();
    loop {
        match run.next() {
            Step::Serve(out, index, _) => {
                outs.push(out);
                outs.push(run.served(results[index].take().unwrap(), jobs == 1));
            }
            Step::Report(out) => outs.push(out),
            Step::Done(out) => {
                outs.push(out);
                let s = run.summary();
                return (outs, [s.passed, s.failed, s.skipped, s.not_applicable]);
            }
        }
    }
}

#[test]
fn the_number_of_workers_does_not_show() {
    let (outs, summary) = run_with(1);
    assert_eq!(summary, [1, 1, 0, 1]);
    assert_eq!(outs.iter().filter(|o| matches!(o, Output::Case(_))).count(), 3);
    for jobs in [2, 3, 7] {
        assert_eq!(run_with(jobs), run_with(1));
    }
}

#[test]
fn envelopes_bind_the_artifact() {
    let e = run_envelope("wasmtime/host", "sample", b"abc", None, true);
    assert_eq!(
        e.suite.artifact_sha256.as_deref(),
        Some("ba7816bf8f01cfea414140de5dae2223b00361a396177a9cb410ff61f20015ad")
    );
    assert_eq!(e.run.scheduling.as_deref(), Some("tags"));
    let e = run_envelope("wasmtime/host", "sample", b"abc", Some("ff"), false);
    assert_eq!(e.suite.artifact_sha256.as_deref(), Some("ff"));
    assert!(!e.scheduled());
    assert!(check_suite("x.wasm", b"\0asm\x0d\0\x01\0").is_ok());
    assert!(check_suite("x.txt", b"hello, wasm-shaped world\n")
        .unwrap_err()
        .starts_with("x.txt is not a WebAssembly binary"));
}

#[test]
fn composed_runs_fail_when_empty() {
    assert!(!ComposedRun::new(false, 0).finish().1);
    let mut run = ComposedRun::new(true, 2);
    assert_eq!(run.announce("a"), Output::Lines(vec!["test a ...".to_string()]));
    assert_eq!(run.diagnostic("d"), Output::Lines(vec!["    diag: d".to_string()]));
    run.served(&served("a", CaseVerdict::Pass));
    assert!(run.finish().1);
    run.served(&served("b", CaseVerdict::Fail("d".to_string())));
    let (out, ok) = run.finish();
    assert!(!ok);
    assert_eq!(
        out,
        Output::Lines(vec!["\nresult: 1 passed, 1 failed, 0 skipped, 2 total".to_string()])
    );
    let quiet = ComposedRun::new(false, 1);
    assert_eq!(quiet.announce("a"), Output::Lines(vec![]));
    assert_eq!(quiet.finish().0, Output::Terminator);
    let header = composed_envelope();
    assert_eq!(header.target, "composed-cli");
    assert_eq!(header.run.scheduling.as_deref(), Some("none"));
    assert!(!header.scheduled());
}

#[test]
fn diagnostics_vanish_until_observed() {
    let mut s = Shared::default();
    assert!(!s.begin());
    s.observe();
    assert!(s.begin());
    // While one is being written, others vanish.
    assert!(!s.begin());
    assert!(s.delivered(true));
    assert!(s.begin());
    // Dropped in the meantime: the writing end does not come back.
    s.close();
    assert!(!s.delivered(true));
    assert!(!s.begin());
    let mut hung_up = Shared::default();
    hung_up.observe();
    hung_up.begin();
    assert!(!hung_up.delivered(false));
    assert!(!hung_up.begin());
}

#[test]
fn benchmarks() {
    assert_eq!(bench_cases(None), 10_000);
    assert_eq!(bench_cases(Some("12")), 12);
    assert_eq!(bench_cases(Some("wat")), 10_000);
    assert_eq!(mint_leaf(7), "c00007");
    assert_eq!(mint_leaf(123_456), "c123456");
    assert_eq!(warmup_runs(2), 2);
    assert_eq!(warmup_runs(20), 3);
    assert!(check_minted(3, 3).is_ok());
    assert_eq!(check_minted(2, 3).unwrap_err(), "suite minted 2 cases, expected 3");
    assert!(check_bench_name("bench/mint/c00001").is_ok());
    assert_eq!(check_bench_name("a/b").unwrap_err(), "unexpected case name `a/b`");
    assert_eq!(median(&[5, 1, 9]), 5);
    assert_eq!(median(&[4, 1, 3, 2]), 3);
}

// ---------------------------------------------------------- arguments

fn words(v: &[&str]) -> Vec<String> {
    v.iter().map(|s| s.to_string()).collect()
}

#[test]
fn pairs() {
    assert_eq!(
        parse_target_results("native=a=b.jsonl"),
        Ok(("native".to_string(), "a=b.jsonl".to_string()))
    );
    assert_eq!(parse_target_results("native"), Err("must be target=path.jsonl".to_string()));
    assert_eq!(parse_env("A="), Ok(("A".to_string(), String::new())));
    assert_eq!(parse_env("A"), Err("must be NAME=VAL".to_string()));
}

#[test]
fn numbers() {
    for (word, max) in [("0", 9), ("+7", 9), ("18446744073709551615", u64::MAX), ("10", 9), ("", 9), ("+", 9), ("-1", 9), ("1x", 9)] {
        let read = parse_number(word, max);
        match word.parse::<u64>() {
            Ok(n) if n <= max => assert_eq!(read, Ok(n)),
            Ok(_) => assert_eq!(
                read,
                Err("number too large to fit in target type".to_string())
            ),
            Err(e) => assert_eq!(read, Err(e.to_string())),
        }
    }
}

#[test]
fn runner_arguments() {
    let all = words(&[
        "suite.wasm",
        "--jsonl",
        "--missing",
        "a,b",
        "--jobs",
        "3",
        "--cases-per-instance",
        "0",
        "--target",
        "k",
        "--only",
        "tc",
        "--enumerate",
        "--suite-artifact",
        "inner.wasm",
        "--case-execution-budget",
        "4",
        "--case-timeout",
        "5",
    ]);
    match parse_runner_args(&all).unwrap() {
        Invocation::Run(a) => {
            assert_eq!(a.suite, "suite.wasm");
            assert!(matches!(a.mode, OutputMode::Jsonl));
            assert_eq!(a.missing, ["a", "b"]);
            assert_eq!((a.jobs, a.cases_per_instance), (3, 0));
            assert_eq!(a.target, "k");
            assert_eq!(a.only.as_deref(), Some("tc"));
            assert!(a.enumerate);
            assert_eq!(a.suite_artifact.as_deref(), Some("inner.wasm"));
            assert_eq!((a.case_execution_budget, a.case_timeout), (4, 5));
        }
        _ => unreachable!(),
    }
    match parse_runner_args(&words(&["suite.wasm"])).unwrap() {
        Invocation::Run(a) => {
            assert!(matches!(a.mode, OutputMode::Human));
            assert_eq!(a.target, "wasmtime/host");
            assert_eq!((a.jobs, a.cases_per_instance), (1, 1));
            assert_eq!((a.case_execution_budget, a.case_timeout), (10, 120));
        }
        _ => unreachable!(),
    }
    assert!(matches!(parse_runner_args(&words(&["--help"])), Ok(Invocation::Help)));
    assert!(matches!(parse_runner_args(&words(&["--version"])), Ok(Invocation::Version)));
    assert!(parse_runner_args(&[]).err().unwrap().contains(USAGE));
    let refused = |v: &[&str]| parse_runner_args(&words(v)).err().unwrap();
    assert!(refused(&["a.wasm", "--bogus"]).contains("--bogus"));
    assert!(refused(&["a.wasm", "--jobs"]).contains("--jobs"));
    assert!(refused(&["a.wasm", "--jobs", "x"]).contains("invalid digit found in string"));
    assert!(refused(&["a.wasm", "b.wasm"]).contains("b.wasm"));
}

#[test]
fn preinit_and_bench_arguments() {
    let a = parse_preinit_args(&words(&["in.wasm", "out.wasm", "A=1", "B=x=y"])).unwrap();
    assert_eq!((a.input.as_str(), a.output.as_str()), ("in.wasm", "out.wasm"));
    assert_eq!(
        a.env,
        [
            ("A".to_string(), "1".to_string()),
            ("B".to_string(), "x=y".to_string())
        ]
    );
    assert_eq!(parse_preinit_args(&words(&["in.wasm"])).err().unwrap(), PREINIT_USAGE);
    assert_eq!(
        parse_preinit_args(&words(&["i", "o", "bad"])).err().unwrap(),
        format!("bad env pair `bad` (want NAME=VAL)\n{PREINIT_USAGE}")
    );

    let b = parse_bench_args(&words(&["b.wasm", "--cases", "1,2", "--instances", "7"])).unwrap();
    assert_eq!((b.suite.as_str(), b.instances), ("b.wasm", 7));
    assert_eq!(b.cases, [1, 2]);
    let b = parse_bench_args(&words(&["b.wasm"])).unwrap();
    assert_eq!(b.cases, [100, 1000, 10000]);
    assert!(parse_bench_args(&[]).err().unwrap().contains(BENCH_USAGE));
    assert_eq!(
        parse_bench_args(&words(&["b.wasm", "--cases", "1,x"])).err().unwrap(),
        "--cases: invalid count: invalid digit found in string"
    );
    assert_eq!(
        parse_bench_args(&words(&["--what"])).err().unwrap(),
        "unknown flag `--what`"
    );
}
