//! Command lines: what the words that a program is given ask for.

use vstd::prelude::*;

use crate::inventory::nonempty;
use crate::runner::{OutputMode, DEFAULT_CASE_EXECUTION_BUDGET_SECS, DEFAULT_CASE_TIMEOUT_SECS};
use crate::text::{
    chars_of, decimal, first_index, has_prefix, law_decimal, lemma_first_index, opt_text, owned,
    same, split, split_text, starts_with, text_of, value_of, views,
};

verus! {

// ---------------------------------------------------------------------
// Pairs
// ---------------------------------------------------------------------

/// What stands before and after the first `=`, if there is one.
pub open spec fn halves(s: Seq<char>) -> Option<(Seq<char>, Seq<char>)> {
    let at = first_index(s, '=');
    if at < s.len() { Some((s.take(at), s.skip(at + 1))) } else { None }
}

fn split_pair(s: &str) -> (r: Option<(String, String)>)
    ensures
        match r {
            Some(p) => halves(s@) == Some((p.0@, p.1@)),
            None => halves(s@) is None,
        },
{
    let chars = chars_of(s);
    proof {
        lemma_first_index(s@, '=');
    }
    let mut i: usize = 0;
    while i < chars.len()
        invariant
            i <= chars@.len(),
            chars@ == s@,
            0 <= first_index(s@, '=') <= s@.len(),
            first_index(s@, '=') < s@.len() ==> s@[first_index(s@, '=')] == '=',
            forall|k: int| 0 <= k < first_index(s@, '=') ==> s@[k] != '=',
            forall|k: int| 0 <= k < i ==> s@[k] != '=',
        decreases chars.len() - i,
    {
        if chars[i] == '=' {
            let n: usize = chars.len();
            let a = text_of(&chars, 0, i);
            let b = text_of(&chars, i + 1, n);
            assert(first_index(s@, '=') == i);
            assert(a@ =~= s@.take(i as int));
            assert(b@ =~= s@.skip(i + 1));
            return Some((a, b));
        }
        i += 1;
    }
    None
}

/// Read `target=path.jsonl`.
pub fn parse_target_results(s: &str) -> (r: Result<(String, String), String>)
    ensures
        match r {
            Ok(p) => halves(s@) == Some((p.0@, p.1@)),
            Err(e) => halves(s@) is None && e@ == "must be target=path.jsonl"@,
        },
{
    match split_pair(s) {
        Some(p) => Ok(p),
        None => Err(owned("must be target=path.jsonl")),
    }
}

/// Read `NAME=VAL`.
pub fn parse_env(s: &str) -> (r: Result<(String, String), String>)
    ensures
        match r {
            Ok(p) => halves(s@) == Some((p.0@, p.1@)),
            Err(e) => halves(s@) is None && e@ == "must be NAME=VAL"@,
        },
{
    match split_pair(s) {
        Some(p) => Ok(p),
        None => Err(owned("must be NAME=VAL")),
    }
}

// ---------------------------------------------------------------------
// Numbers
// ---------------------------------------------------------------------

/// What the digits from the `i`-th character on come to after `acc`, where
/// no more than `max` fits.
pub open spec fn digits_from(s: Seq<char>, i: int, acc: int, max: int) -> Result<int, Seq<char>>
    decreases s.len() - i,
{
    if i < 0 || i >= s.len() {
        Ok(acc)
    } else if !('0' <= s[i] && s[i] <= '9') {
        Err("invalid digit found in string"@)
    } else {
        let next = acc * 10 + (s[i] as int - '0' as int);
        if next > max {
            Err("number too large to fit in target type"@)
        } else {
            digits_from(s, i + 1, next, max)
        }
    }
}

/// What a word means as a number of at most `max`: decimal digits, with a
/// `+` before them or not.
pub open spec fn number(s: Seq<char>, max: int) -> Result<int, Seq<char>> {
    if s.len() == 0 {
        Err("cannot parse integer from empty string"@)
    } else if s.len() == 1 && s[0] == '+' {
        Err("invalid digit found in string"@)
    } else {
        digits_from(s, if s[0] == '+' { 1int } else { 0 }, 0, max)
    }
}

/// Read a number of at most `max`.
pub fn parse_number(s: &str, max: u64) -> (r: Result<u64, String>)
    ensures
        match r {
            Ok(n) => n <= max && number(s@, max as int) == Ok::<int, Seq<char>>(n as int),
            Err(e) => number(s@, max as int) == Err::<int, Seq<char>>(e@),
        },
{
    let chars = chars_of(s);
    if chars.len() == 0 {
        return Err(owned("cannot parse integer from empty string"));
    }
    if chars.len() == 1 && chars[0] == '+' {
        return Err(owned("invalid digit found in string"));
    }
    let mut acc: u64 = 0;
    let mut i: usize = if chars[0] == '+' { 1 } else { 0 };
    while i < chars.len()
        invariant
            i <= chars@.len(),
            chars@ == s@,
            acc <= max,
            number(s@, max as int) == digits_from(s@, i as int, acc as int, max as int),
        decreases chars.len() - i,
    {
        let c = chars[i];
        if !('0' <= c && c <= '9') {
            return Err(owned("invalid digit found in string"));
        }
        let next: u128 = acc as u128 * 10 + (c as u32 - '0' as u32) as u128;
        if next > max as u128 {
            return Err(owned("number too large to fit in target type"));
        }
        acc = next as u64;
        i += 1;
    }
    Ok(acc)
}

/// The error on a flag whose value is no number.
pub open spec fn number_text(flag: Seq<char>, value: Seq<char>, why: Seq<char>) -> Seq<char> {
    flag + ": invalid number `"@ + value + "`: "@ + why
}

fn number_error(flag: &str, value: &str, why: &str) -> (r: String)
    ensures
        r@ == number_text(flag@, value@, why@),
{
    let mut r = owned(flag);
    r.append(": invalid number `");
    r.append(value);
    r.append("`: ");
    r.append(why);
    r
}

// ---------------------------------------------------------------------
// The runner
// ---------------------------------------------------------------------

/// How to call the runner.
pub const USAGE: &'static str = "usage: ct-runner <suite.wasm> [--jsonl] [--missing f1,f2,...] [--jobs N] [--cases-per-instance N] [--target key] [--only substring] [--enumerate] [--suite-artifact suite.wasm] [--case-execution-budget secs] [--case-timeout secs]";

/// What the runner is asked to do.
#[derive(Debug)]
pub struct RunnerArgs {
    pub suite: String,
    pub mode: OutputMode,
    pub missing: Vec<String>,
    pub cases_per_instance: usize,
    pub jobs: usize,
    pub target: String,
    pub only: Option<String>,
    pub enumerate: bool,
    /// The suite that an executed bundle was composed from.
    pub suite_artifact: Option<String>,
    pub case_execution_budget: u64,
    pub case_timeout: u64,
}

/// What the words so far ask of the runner.
#[verifier::ext_equal]
pub struct RunnerAsk {
    pub suite: Option<Seq<char>>,
    pub human: bool,
    pub missing: Seq<Seq<char>>,
    pub cases_per_instance: int,
    pub jobs: int,
    pub target: Seq<char>,
    pub only: Option<Seq<char>>,
    pub enumerate: bool,
    pub suite_artifact: Option<Seq<char>>,
    pub case_execution_budget: int,
    pub case_timeout: int,
}

/// What is asked by no words at all.
pub open spec fn runner_defaults() -> RunnerAsk {
    RunnerAsk {
        suite: None,
        human: true,
        missing: Seq::empty(),
        cases_per_instance: 1,
        jobs: 1,
        target: "wasmtime/host"@,
        only: None,
        enumerate: false,
        suite_artifact: None,
        case_execution_budget: DEFAULT_CASE_EXECUTION_BUDGET_SECS as int,
        case_timeout: DEFAULT_CASE_TIMEOUT_SECS as int,
    }
}

/// A command line of the runner.
#[derive(Debug)]
pub enum Invocation {
    Run(RunnerArgs),
    Help,
    Version,
}

/// An [`Invocation`] over texts.
pub enum InvocationView {
    Run(RunnerAsk),
    Help,
    Version,
}

impl View for Invocation {
    type V = InvocationView;

    open spec fn view(&self) -> InvocationView {
        match *self {
            Invocation::Run(a) => InvocationView::Run(
                RunnerAsk {
                    suite: Some(a.suite@),
                    human: a.mode is Human,
                    missing: views(a.missing@),
                    cases_per_instance: a.cases_per_instance as int,
                    jobs: a.jobs as int,
                    target: a.target@,
                    only: opt_text(a.only),
                    enumerate: a.enumerate,
                    suite_artifact: opt_text(a.suite_artifact),
                    case_execution_budget: a.case_execution_budget as int,
                    case_timeout: a.case_timeout as int,
                },
            ),
            Invocation::Help => InvocationView::Help,
            Invocation::Version => InvocationView::Version,
        }
    }
}

/// What one word does: it changes what is asked and takes one word or two,
/// ends the reading, or is refused.
pub enum WordStep {
    Go(RunnerAsk, int),
    End(InvocationView),
    Refuse(Seq<char>),
}

/// What a flag does that takes a number of at most `max`.
pub open spec fn number_step(
    flag: Seq<char>,
    need: Seq<char>,
    value: Option<Seq<char>>,
    max: int,
) -> Result<int, Seq<char>> {
    match value {
        None => Err(need),
        Some(v) => match number(v, max) {
            Ok(n) => Ok(n),
            Err(why) => Err(number_text(flag, v, why)),
        },
    }
}

/// What the `i`-th word does.
pub open spec fn word_step(ask: RunnerAsk, words: Seq<Seq<char>>, i: int) -> WordStep {
    let word = words[i];
    let value = if i + 1 < words.len() { Some(words[i + 1]) } else { None };
    if word == "--missing"@ {
        match value {
            None => WordStep::Refuse("--missing needs a list"@),
            Some(list) => WordStep::Go(
                RunnerAsk { missing: ask.missing + nonempty(split(list, ',')), ..ask },
                i + 2,
            ),
        }
    } else if word == "--suite-artifact"@ {
        match value {
            None => WordStep::Refuse("--suite-artifact needs a path"@),
            Some(p) => WordStep::Go(RunnerAsk { suite_artifact: Some(p), ..ask }, i + 2),
        }
    } else if word == "--only"@ {
        match value {
            None => WordStep::Refuse("--only needs a substring"@),
            Some(o) => WordStep::Go(RunnerAsk { only: Some(o), ..ask }, i + 2),
        }
    } else if word == "--enumerate"@ {
        WordStep::Go(RunnerAsk { enumerate: true, ..ask }, i + 1)
    } else if word == "--target"@ {
        match value {
            None => WordStep::Refuse("--target needs a value"@),
            Some(t) => WordStep::Go(RunnerAsk { target: t, ..ask }, i + 2),
        }
    } else if word == "--jobs"@ {
        match number_step(word, "--jobs needs a number"@, value, usize::MAX as int) {
            Err(e) => WordStep::Refuse(e),
            Ok(n) => WordStep::Go(RunnerAsk { jobs: if n > 1 { n } else { 1 }, ..ask }, i + 2),
        }
    } else if word == "--cases-per-instance"@ {
        match number_step(word, "--cases-per-instance needs a number"@, value, usize::MAX as int) {
            Err(e) => WordStep::Refuse(e),
            Ok(n) => WordStep::Go(RunnerAsk { cases_per_instance: n, ..ask }, i + 2),
        }
    } else if word == "--case-execution-budget"@ {
        match number_step(
            word,
            "--case-execution-budget needs seconds (0 disables)"@,
            value,
            u64::MAX as int,
        ) {
            Err(e) => WordStep::Refuse(e),
            Ok(n) => WordStep::Go(RunnerAsk { case_execution_budget: n, ..ask }, i + 2),
        }
    } else if word == "--case-timeout"@ {
        match number_step(word, "--case-timeout needs seconds (0 disables)"@, value, u64::MAX as int) {
            Err(e) => WordStep::Refuse(e),
            Ok(n) => WordStep::Go(RunnerAsk { case_timeout: n, ..ask }, i + 2),
        }
    } else if word == "--jsonl"@ {
        WordStep::Go(RunnerAsk { human: false, ..ask }, i + 1)
    } else if word == "-h"@ || word == "--help"@ {
        WordStep::End(InvocationView::Help)
    } else if word == "-V"@ || word == "--version"@ {
        WordStep::End(InvocationView::Version)
    } else if starts_with(word, "-"@) {
        WordStep::Refuse("unknown flag `"@ + word + "`\n"@ + USAGE@)
    } else if ask.suite is None {
        WordStep::Go(RunnerAsk { suite: Some(word), ..ask }, i + 1)
    } else {
        WordStep::Refuse("unexpected argument `"@ + word + "`\n"@ + USAGE@)
    }
}

/// What the words from the `i`-th on ask for.
pub open spec fn asked_from(ask: RunnerAsk, words: Seq<Seq<char>>, i: int) -> Result<
    InvocationView,
    Seq<char>,
>
    decreases words.len() - i,
{
    if i < 0 || i >= words.len() {
        if ask.suite is None { Err(USAGE@) } else { Ok(InvocationView::Run(ask)) }
    } else {
        match word_step(ask, words, i) {
            WordStep::Refuse(e) => Err(e),
            WordStep::End(v) => Ok(v),
            WordStep::Go(next, j) => if j > i { asked_from(next, words, j) } else { Err(USAGE@) },
        }
    }
}

struct Asking {
    suite: Option<String>,
    args: RunnerArgs,
}

impl Asking {
    spec fn ask(&self) -> RunnerAsk {
        RunnerAsk {
            suite: opt_text(self.suite),
            human: self.args.mode is Human,
            missing: views(self.args.missing@),
            cases_per_instance: self.args.cases_per_instance as int,
            jobs: self.args.jobs as int,
            target: self.args.target@,
            only: opt_text(self.args.only),
            enumerate: self.args.enumerate,
            suite_artifact: opt_text(self.args.suite_artifact),
            case_execution_budget: self.args.case_execution_budget as int,
            case_timeout: self.args.case_timeout as int,
        }
    }
}

fn push_listed(out: &mut Vec<String>, list: &str)
    ensures
        views(final(out)@) == views(old(out)@) + nonempty(split(list@, ',')),
{
    let pieces = split_text(list, ',');
    let ghost ps = views(pieces@);
    let ghost start = views(out@);
    let mut i: usize = 0;
    assert(views(out@) =~= start + nonempty(ps.take(0)));
    while i < pieces.len()
        invariant
            i <= pieces@.len(),
            ps == views(pieces@),
            views(out@) == start + nonempty(ps.take(i as int)),
        decreases pieces.len() - i,
    {
        assert(ps.take(i + 1).drop_last() =~= ps.take(i as int));
        assert(ps.take(i + 1).last() == pieces@[i as int]@);
        if !pieces[i].as_str().is_empty() {
            let ghost was = views(out@);
            out.push(pieces[i].clone());
            assert(views(out@) =~= was.push(ps[i as int]));
            assert(views(out@) =~= start + nonempty(ps.take(i + 1)));
        }
        i += 1;
    }
    assert(ps.take(i as int) =~= ps);
}

fn number_value(words: &[String], i: usize, need: &str, max: u64) -> (r: Result<u64, String>)
    requires
        i < words@.len(),
    ensures
        match r {
            Ok(n) => n <= max && i + 1 < words@.len() && number_step(
                words@[i as int]@,
                need@,
                Some(words@[i + 1]@),
                max as int,
            ) == Ok::<int, Seq<char>>(n as int),
            Err(e) => number_step(
                words@[i as int]@,
                need@,
                if i + 1 < words@.len() { Some(words@[i + 1]@) } else { None },
                max as int,
            ) == Err::<int, Seq<char>>(e@),
        },
{
    if words.len() - i < 2 {
        return Err(owned(need));
    }
    match parse_number(words[i + 1].as_str(), max) {
        Ok(n) => Ok(n),
        Err(why) => Err(number_error(words[i].as_str(), words[i + 1].as_str(), why.as_str())),
    }
}

/// One word of the runner's command line: how many words it took, or how
/// the reading ends.
enum Taken {
    Words(usize),
    End(Invocation),
}

#[verifier::rlimit(40)]
fn take_word(a: &mut Asking, words: &[String], i: usize) -> (r: Result<Taken, String>)
    requires
        i < words@.len(),
    ensures
        match r {
            Ok(Taken::Words(n)) => 1 <= n <= 2 && i + n <= words@.len() && word_step(
                old(a).ask(),
                views(words@),
                i as int,
            ) == WordStep::Go(final(a).ask(), i + n),
            Ok(Taken::End(v)) => word_step(old(a).ask(), views(words@), i as int)
                == WordStep::End(v@),
            Err(e) => word_step(old(a).ask(), views(words@), i as int) == WordStep::Refuse(e@),
        },
{
    let ghost ws = views(words@);
    let ghost was = a.ask();
    assert(ws[i as int] == words@[i as int]@);
    let word = words[i].as_str();
    let more = words.len() - i >= 2;
    if more {
        assert(ws[i + 1] == words@[i + 1]@);
    }
    if same(word, "--missing") {
        if !more {
            return Err(owned("--missing needs a list"));
        }
        push_listed(&mut a.args.missing, words[i + 1].as_str());
        return Ok(Taken::Words(2));
    }
    if same(word, "--suite-artifact") {
        if !more {
            return Err(owned("--suite-artifact needs a path"));
        }
        a.args.suite_artifact = Some(words[i + 1].clone());
        return Ok(Taken::Words(2));
    }
    if same(word, "--only") {
        if !more {
            return Err(owned("--only needs a substring"));
        }
        a.args.only = Some(words[i + 1].clone());
        return Ok(Taken::Words(2));
    }
    if same(word, "--enumerate") {
        a.args.enumerate = true;
        return Ok(Taken::Words(1));
    }
    if same(word, "--target") {
        if !more {
            return Err(owned("--target needs a value"));
        }
        a.args.target = words[i + 1].clone();
        return Ok(Taken::Words(2));
    }
    if same(word, "--jobs") {
        return match number_value(words, i, "--jobs needs a number", usize::MAX as u64) {
            Ok(n) => {
                a.args.jobs = if n > 1 { n as usize } else { 1 };
                Ok(Taken::Words(2))
            },
            Err(e) => Err(e),
        };
    }
    if same(word, "--cases-per-instance") {
        return match number_value(
            words,
            i,
            "--cases-per-instance needs a number",
            usize::MAX as u64,
        ) {
            Ok(n) => {
                a.args.cases_per_instance = n as usize;
                Ok(Taken::Words(2))
            },
            Err(e) => Err(e),
        };
    }
    if same(word, "--case-execution-budget") {
        return match number_value(
            words,
            i,
            "--case-execution-budget needs seconds (0 disables)",
            u64::MAX,
        ) {
            Ok(n) => {
                a.args.case_execution_budget = n;
                Ok(Taken::Words(2))
            },
            Err(e) => Err(e),
        };
    }
    if same(word, "--case-timeout") {
        return match number_value(words, i, "--case-timeout needs seconds (0 disables)", u64::MAX) {
            Ok(n) => {
                a.args.case_timeout = n;
                Ok(Taken::Words(2))
            },
            Err(e) => Err(e),
        };
    }
    if same(word, "--jsonl") {
        a.args.mode = OutputMode::Jsonl;
        return Ok(Taken::Words(1));
    }
    if same(word, "-h") || same(word, "--help") {
        return Ok(Taken::End(Invocation::Help));
    }
    if same(word, "-V") || same(word, "--version") {
        return Ok(Taken::End(Invocation::Version));
    }
    if has_prefix(word, "-") {
        let mut e = owned("unknown flag `");
        e.append(word);
        e.append("`\n");
        e.append(USAGE);
        return Err(e);
    }
    if a.suite.is_none() {
        a.suite = Some(owned(word));
        return Ok(Taken::Words(1));
    }
    let mut e = owned("unexpected argument `");
    e.append(word);
    e.append("`\n");
    e.append(USAGE);
    Err(e)
}

/// Read the runner's command line, without the program's own name.
pub fn parse_runner_args(words: &[String]) -> (r: Result<Invocation, String>)
    ensures
        match r {
            Ok(v) => asked_from(runner_defaults(), views(words@), 0) == Ok::<
                InvocationView,
                Seq<char>,
            >(v@),
            Err(e) => asked_from(runner_defaults(), views(words@), 0) == Err::<
                InvocationView,
                Seq<char>,
            >(e@),
        },
{
    let ghost ws = views(words@);
    let mut a = Asking {
        suite: None,
        args: RunnerArgs {
            suite: String::new(),
            mode: OutputMode::Human,
            missing: Vec::new(),
            cases_per_instance: 1,
            jobs: 1,
            target: owned("wasmtime/host"),
            only: None,
            enumerate: false,
            suite_artifact: None,
            case_execution_budget: DEFAULT_CASE_EXECUTION_BUDGET_SECS,
            case_timeout: DEFAULT_CASE_TIMEOUT_SECS,
        },
    };
    assert(views(a.args.missing@) =~= Seq::<Seq<char>>::empty());
    assert(a.ask() =~= runner_defaults());
    let mut i: usize = 0;
    while i < words.len()
        invariant
            i <= words@.len(),
            ws == views(words@),
            asked_from(runner_defaults(), ws, 0) == asked_from(a.ask(), ws, i as int),
        decreases words.len() - i,
    {
        match take_word(&mut a, words, i) {
            Ok(Taken::Words(n)) => {
                i += n;
            },
            Ok(Taken::End(v)) => {
                return Ok(v);
            },
            Err(e) => {
                return Err(e);
            },
        }
    }
    let Asking { suite, args } = a;
    match suite {
        None => Err(owned(USAGE)),
        Some(s) => {
            let mut args = args;
            args.suite = s;
            Ok(Invocation::Run(args))
        },
    }
}

// ---------------------------------------------------------------------
// The pre-initializer
// ---------------------------------------------------------------------

/// How to call the pre-initializer.
pub const PREINIT_USAGE: &'static str = "usage: wizer-preinit <in.wasm> <out.wasm> [ENV=VAL ...]";

/// What the pre-initializer is asked to do.
#[derive(Debug)]
pub struct PreinitArgs {
    pub input: String,
    pub output: String,
    pub env: Vec<(String, String)>,
}

/// The views of a list of pairs.
pub open spec fn pair_views(v: Seq<(String, String)>) -> Seq<(Seq<char>, Seq<char>)> {
    Seq::new(v.len(), |i: int| (v[i].0@, v[i].1@))
}

/// The pairs of the words from the third on, up to the `n`-th, or why one
/// is none.
pub open spec fn env_pairs(words: Seq<Seq<char>>, n: int) -> Result<
    Seq<(Seq<char>, Seq<char>)>,
    Seq<char>,
>
    decreases n,
{
    if n <= 2 {
        Ok(Seq::empty())
    } else {
        match env_pairs(words, n - 1) {
            Err(e) => Err(e),
            Ok(init) => match halves(words[n - 1]) {
                Some(p) => Ok(init.push(p)),
                None => Err(
                    "bad env pair `"@ + words[n - 1] + "` (want NAME=VAL)\n"@ + PREINIT_USAGE@,
                ),
            },
        }
    }
}

/// Read the pre-initializer's command line, without the program's own name.
pub fn parse_preinit_args(words: &[String]) -> (r: Result<PreinitArgs, String>)
    ensures
        match r {
            Ok(a) => words@.len() >= 2 && a.input@ == words@[0]@ && a.output@ == words@[1]@
                && env_pairs(views(words@), words@.len() as int) == Ok::<
                Seq<(Seq<char>, Seq<char>)>,
                Seq<char>,
            >(pair_views(a.env@)),
            Err(e) => if words@.len() < 2 {
                e@ == PREINIT_USAGE@
            } else {
                env_pairs(views(words@), words@.len() as int) == Err::<
                    Seq<(Seq<char>, Seq<char>)>,
                    Seq<char>,
                >(e@)
            },
        },
{
    let ghost ws = views(words@);
    if words.len() < 2 {
        return Err(owned(PREINIT_USAGE));
    }
    let mut env: Vec<(String, String)> = Vec::new();
    let mut i: usize = 2;
    assert(pair_views(env@) =~= Seq::<(Seq<char>, Seq<char>)>::empty());
    while i < words.len()
        invariant
            2 <= i <= words@.len(),
            ws == views(words@),
            env_pairs(ws, i as int) == Ok::<Seq<(Seq<char>, Seq<char>)>, Seq<char>>(
                pair_views(env@),
            ),
        decreases words.len() - i,
    {
        assert(ws[i as int] == words@[i as int]@);
        match split_pair(words[i].as_str()) {
            Some(p) => {
                let ghost was = pair_views(env@);
                let ghost pv = (p.0@, p.1@);
                env.push(p);
                assert(pair_views(env@) =~= was.push(pv));
            },
            None => {
                let mut e = owned("bad env pair `");
                e.append(words[i].as_str());
                e.append("` (want NAME=VAL)\n");
                e.append(PREINIT_USAGE);
                proof {
                    lemma_env_stops(ws, i + 1, ws.len() as int);
                }
                return Err(e);
            },
        }
        i += 1;
    }
    Ok(PreinitArgs { input: words[0].clone(), output: words[1].clone(), env })
}

proof fn lemma_env_stops(words: Seq<Seq<char>>, i: int, n: int)
    requires
        2 <= i <= n,
    ensures
        env_pairs(words, i) is Err ==> env_pairs(words, n) == env_pairs(words, i),
    decreases n,
{
    if i < n {
        lemma_env_stops(words, i, n - 1);
    }
}

// ---------------------------------------------------------------------
// The benchmark
// ---------------------------------------------------------------------

/// How to call the benchmark.
pub const BENCH_USAGE: &'static str = "usage: bench-mint <bench_suite.wasm> [--cases N,N,...] [--instances M]";

/// What the benchmark is asked to do.
#[derive(Debug)]
pub struct BenchArgs {
    pub suite: String,
    pub cases: Vec<usize>,
    pub instances: usize,
}

/// What the words so far ask of the benchmark.
#[verifier::ext_equal]
pub struct BenchAsk {
    pub suite: Option<Seq<char>>,
    pub cases: Seq<int>,
    pub instances: int,
}

/// Indices as numbers.
pub open spec fn counts(v: Seq<usize>) -> Seq<int> {
    Seq::new(v.len(), |i: int| v[i] as int)
}

/// The numbers of the first `n` pieces, or why one is none.
pub open spec fn listed_counts(pieces: Seq<Seq<char>>, n: int) -> Result<Seq<int>, Seq<char>>
    decreases n,
{
    if n <= 0 {
        Ok(Seq::empty())
    } else {
        match listed_counts(pieces, n - 1) {
            Err(e) => Err(e),
            Ok(init) => match number(pieces[n - 1], usize::MAX as int) {
                Ok(c) => Ok(init.push(c)),
                Err(why) => Err("--cases: invalid count: "@ + why),
            },
        }
    }
}

/// What the words from the `i`-th on ask of the benchmark.
pub open spec fn bench_from(ask: BenchAsk, words: Seq<Seq<char>>, i: int) -> Result<
    BenchAsk,
    Seq<char>,
>
    decreases words.len() - i,
{
    if i < 0 || i >= words.len() {
        if ask.suite is None { Err(BENCH_USAGE@) } else { Ok(ask) }
    } else if words[i] == "--cases"@ {
        if i + 1 >= words.len() {
            Err("--cases needs a list"@)
        } else {
            let pieces = split(words[i + 1], ',');
            match listed_counts(pieces, pieces.len() as int) {
                Err(e) => Err(e),
                Ok(cases) => bench_from(BenchAsk { cases, ..ask }, words, i + 2),
            }
        }
    } else if words[i] == "--instances"@ {
        if i + 1 >= words.len() {
            Err("--instances needs a number"@)
        } else {
            match number(words[i + 1], usize::MAX as int) {
                Err(why) => Err("--instances: invalid number: "@ + why),
                Ok(n) => bench_from(BenchAsk { instances: n, ..ask }, words, i + 2),
            }
        }
    } else if starts_with(words[i], "-"@) {
        Err("unknown flag `"@ + words[i] + "`"@)
    } else if ask.suite is None {
        bench_from(BenchAsk { suite: Some(words[i]), ..ask }, words, i + 1)
    } else {
        Err("unexpected argument `"@ + words[i] + "`"@)
    }
}

/// What is asked of the benchmark by no words at all.
pub open spec fn bench_defaults() -> BenchAsk {
    BenchAsk { suite: None, cases: seq![100, 1000, 10000], instances: 20 }
}

fn parse_counts(list: &str) -> (r: Result<Vec<usize>, String>)
    ensures
        match r {
            Ok(v) => listed_counts(split(list@, ','), split(list@, ',').len() as int) == Ok::<
                Seq<int>,
                Seq<char>,
            >(counts(v@)),
            Err(e) => listed_counts(split(list@, ','), split(list@, ',').len() as int) == Err::<
                Seq<int>,
                Seq<char>,
            >(e@),
        },
{
    let pieces = split_text(list, ',');
    let ghost ps = views(pieces@);
    let mut v: Vec<usize> = Vec::new();
    let mut i: usize = 0;
    assert(ps.len() == pieces@.len());
    assert(counts(v@) =~= Seq::<int>::empty());
    while i < pieces.len()
        invariant
            i <= pieces@.len(),
            ps == views(pieces@),
            ps == split(list@, ','),
            ps.len() == pieces@.len(),
            listed_counts(ps, i as int) == Ok::<Seq<int>, Seq<char>>(counts(v@)),
        decreases pieces.len() - i,
    {
        assert(ps[i as int] == pieces@[i as int]@);
        match parse_number(pieces[i].as_str(), usize::MAX as u64) {
            Ok(n) => {
                let ghost was = counts(v@);
                v.push(n as usize);
                assert(counts(v@) =~= was.push(n as int));
            },
            Err(why) => {
                let mut e = owned("--cases: invalid count: ");
                e.append(why.as_str());
                proof {
                    lemma_counts_stop(ps, i + 1, ps.len() as int);
                }
                return Err(e);
            },
        }
        i += 1;
    }
    Ok(v)
}

proof fn lemma_counts_stop(pieces: Seq<Seq<char>>, i: int, n: int)
    requires
        0 <= i <= n,
    ensures
        listed_counts(pieces, i) is Err ==> listed_counts(pieces, n) == listed_counts(pieces, i),
    decreases n,
{
    if i < n {
        lemma_counts_stop(pieces, i, n - 1);
    }
}

/// Read the benchmark's command line, without the program's own name.
pub fn parse_bench_args(words: &[String]) -> (r: Result<BenchArgs, String>)
    ensures
        match r {
            Ok(a) => bench_from(bench_defaults(), views(words@), 0) == Ok::<BenchAsk, Seq<char>>(
                (BenchAsk {
                    suite: Some(a.suite@),
                    cases: counts(a.cases@),
                    instances: a.instances as int,
                }),
            ),
            Err(e) => bench_from(bench_defaults(), views(words@), 0) == Err::<BenchAsk, Seq<char>>(
                e@,
            ),
        },
{
    let ghost ws = views(words@);
    let mut suite: Option<String> = None;
    let mut cases: Vec<usize> = vec![100, 1000, 10000];
    let mut instances: usize = 20;
    let mut i: usize = 0;
    assert(counts(cases@) =~= seq![100, 1000, 10000]);
    while i < words.len()
        invariant
            i <= words@.len(),
            ws == views(words@),
            bench_from(bench_defaults(), ws, 0) == bench_from(
                BenchAsk {
                    suite: opt_text(suite),
                    cases: counts(cases@),
                    instances: instances as int,
                },
                ws,
                i as int,
            ),
        decreases words.len() - i,
    {
        let word = words[i].as_str();
        assert(ws[i as int] == word@);
        let more = words.len() - i >= 2;
        if more {
            assert(ws[i + 1] == words@[i + 1]@);
        }
        if same(word, "--cases") {
            if !more {
                return Err(owned("--cases needs a list"));
            }
            match parse_counts(words[i + 1].as_str()) {
                Ok(v) => {
                    cases = v;
                },
                Err(e) => return Err(e),
            }
            i += 2;
        } else if same(word, "--instances") {
            if !more {
                return Err(owned("--instances needs a number"));
            }
            match parse_number(words[i + 1].as_str(), usize::MAX as u64) {
                Ok(n) => {
                    instances = n as usize;
                },
                Err(why) => {
                    let mut e = owned("--instances: invalid number: ");
                    e.append(why.as_str());
                    return Err(e);
                },
            }
            i += 2;
        } else if has_prefix(word, "-") {
            let mut e = owned("unknown flag `");
            e.append(word);
            e.append("`");
            return Err(e);
        } else if suite.is_none() {
            suite = Some(owned(word));
            i += 1;
        } else {
            let mut e = owned("unexpected argument `");
            e.append(word);
            e.append("`");
            return Err(e);
        }
    }
    match suite {
        None => Err(owned(BENCH_USAGE)),
        Some(s) => Ok(BenchArgs { suite: s, cases, instances }),
    }
}

// ---------------------------------------------------------------------
// Laws
// ---------------------------------------------------------------------

/// A pair is cut at its first equals sign; without one it is no pair.
pub proof fn law_halves(s: Seq<char>)
    ensures
        halves(s) is None <==> !s.contains('='),
        match halves(s) {
            Some((a, b)) => !a.contains('=') && s == a + seq!['='] + b,
            None => true,
        },
{
    lemma_first_index(s, '=');
    let at = first_index(s, '=');
    if at < s.len() {
        let a = s.take(at);
        if a.contains('=') {
            let k = choose|k: int| 0 <= k < a.len() && a[k] == '=';
            assert(s[k] == '=');
        }
        assert(s =~= a + seq!['='] + s.skip(at + 1));
    }
}

/// The digits of a number: what follows its plus sign, if it has one.
pub open spec fn body_of(s: Seq<char>) -> Seq<char> {
    if s.len() > 0 && s[0] == '+' { s.skip(1) } else { s }
}

/// Is it made of digits?
pub open spec fn all_digits(s: Seq<char>) -> bool {
    forall|i: int| 0 <= i < s.len() ==> '0' <= #[trigger] s[i] <= '9'
}

proof fn lemma_value_step(s: Seq<char>, i: int)
    requires
        0 <= i < s.len(),
    ensures
        value_of(s.take(i + 1)) == value_of(s.take(i)) * 10 + (s[i] as int - '0' as int),
        value_of(s.take(0)) == 0,
{
    let f = |v: int, c: char| v * 10 + (c as int - '0' as int);
    assert(s.take(i + 1).drop_last() =~= s.take(i));
    assert(s.take(i + 1).last() == s[i]);
    assert(s.take(0).len() == 0);
    assert(value_of(s.take(i + 1)) == s.take(i + 1).fold_left(0, f));
    assert(value_of(s.take(i)) == s.take(i).fold_left(0, f));
}

proof fn lemma_value_grows(s: Seq<char>, i: int, j: int)
    requires
        0 <= i <= j <= s.len(),
        all_digits(s.take(j)),
    ensures
        0 <= value_of(s.take(i)) <= value_of(s.take(j)),
    decreases j,
{
    if j == 0 {
        assert(s.take(0).len() == 0);
    } else if i == j {
        assert(all_digits(s.take(j - 1))) by {
            assert forall|k: int| 0 <= k < j - 1 implies '0' <= #[trigger] s.take(j - 1)[k]
                <= '9' by {
                assert(s.take(j)[k] == s.take(j - 1)[k]);
            }
        }
        lemma_value_grows(s, j - 1, j - 1);
        lemma_value_step(s, j - 1);
        assert(s.take(j)[j - 1] == s[j - 1]);
    } else {
        assert(all_digits(s.take(j - 1))) by {
            assert forall|k: int| 0 <= k < j - 1 implies '0' <= #[trigger] s.take(j - 1)[k]
                <= '9' by {
                assert(s.take(j)[k] == s.take(j - 1)[k]);
            }
        }
        lemma_value_grows(s, i, j - 1);
        lemma_value_step(s, j - 1);
        assert(s.take(j)[j - 1] == s[j - 1]);
    }
}

proof fn lemma_digits_from(s: Seq<char>, from: int, i: int, max: int)
    requires
        0 <= from <= 1,
        from <= i <= s.len(),
        all_digits(s.skip(from).take(i - from)),
        value_of(s.skip(from).take(i - from)) <= max,
    ensures
        ({
            let t = s.skip(from);
            let r = digits_from(s, i, value_of(t.take(i - from)), max);
            &&& r is Ok <==> all_digits(t) && value_of(t) <= max
            &&& r is Ok ==> r->Ok_0 == value_of(t)
            &&& r is Err ==> exists|k: int|
                #![trigger t.take(k)]
                i - from <= k < t.len() && all_digits(t.take(k)) && value_of(t.take(k)) <= max && (
                if '0' <= t[k] <= '9' {
                    r->Err_0 == "number too large to fit in target type"@ && value_of(
                        t.take(k + 1),
                    ) > max
                } else {
                    r->Err_0 == "invalid digit found in string"@
                })
        }),
    decreases s.len() - i,
{
    let t = s.skip(from);
    let k = i - from;
    if i == s.len() {
        assert(t.take(k) =~= t);
    } else {
        assert(t[k] == s[i]);
        lemma_value_step(t, k);
        if !('0' <= s[i] && s[i] <= '9') {
            assert(!all_digits(t));
            assert(t.take(k).len() == k);
        } else {
            assert(all_digits(t.take(k + 1))) by {
                assert forall|x: int| 0 <= x < k + 1 implies '0' <= #[trigger] t.take(k + 1)[x]
                    <= '9' by {
                    if x < k {
                        assert(t.take(k)[x] == t.take(k + 1)[x]);
                    }
                }
            }
            if value_of(t.take(k + 1)) > max {
                if all_digits(t) {
                    assert(t.take(t.len() as int) =~= t);
                    lemma_value_grows(t, k + 1, t.len() as int);
                }
                assert(t.take(k).len() == k);
            } else {
                lemma_digits_from(s, from, i + 1, max);
            }
        }
    }
}

/// A number is read exactly where it is digits, maybe after a plus sign, that
/// stand for no more than the limit; what is read is what they stand for.
pub proof fn law_number(s: Seq<char>, max: int)
    requires
        max >= 0,
    ensures
        ({
            let t = body_of(s);
            &&& number(s, max) is Ok <==> t.len() > 0 && all_digits(t) && value_of(t) <= max
            &&& number(s, max) is Ok ==> number(s, max)->Ok_0 == value_of(t)
            &&& s.len() == 0 ==> number(s, max) == Err::<int, Seq<char>>(
                "cannot parse integer from empty string"@,
            )
            &&& t.len() > 0 && all_digits(t) && value_of(t) > max ==> number(s, max) == Err::<
                int,
                Seq<char>,
            >("number too large to fit in target type"@)
            &&& t.len() == 0 && s.len() > 0 ==> number(s, max) == Err::<int, Seq<char>>(
                "invalid digit found in string"@,
            )
            &&& t.len() > 0 && !('0' <= t[0] <= '9') ==> number(s, max) == Err::<int, Seq<char>>(
                "invalid digit found in string"@,
            )
        }),
{
    if s.len() > 0 && !(s.len() == 1 && s[0] == '+') {
        let from: int = if s[0] == '+' { 1 } else { 0 };
        let t = s.skip(from);
        assert(t =~= body_of(s));
        assert(t.take(0).len() == 0);
        assert(value_of(t.take(0)) == 0);
        lemma_digits_from(s, from, from, max);
        if number(s, max) is Err {
            let k = choose|k: int|
                #![trigger t.take(k)]
                0 <= k < t.len() && all_digits(t.take(k)) && value_of(t.take(k)) <= max && (
                if '0' <= t[k] <= '9' {
                    number(s, max)->Err_0 == "number too large to fit in target type"@ && value_of(
                        t.take(k + 1),
                    ) > max
                } else {
                    number(s, max)->Err_0 == "invalid digit found in string"@
                });
            if !('0' <= t[0] <= '9') && k > 0 {
                assert(t.take(k)[0] == t[0]);
            }
        }
    }
}

/// A number that is written is read back, where it is within the limit.
pub proof fn law_number_roundtrip(n: nat, max: int)
    requires
        n <= max,
    ensures
        number(decimal(n), max) == Ok::<int, Seq<char>>(n as int),
{
    law_decimal(n);
    law_number(decimal(n), max);
    assert('0' <= decimal(n)[0] <= '9');
    assert(body_of(decimal(n)) == decimal(n));
}

/// What follows a flag that takes a value.
pub open spec fn has_value(words: Seq<Seq<char>>, i: int, flag: Seq<char>) -> bool {
    0 <= i && i + 1 < words.len() && words[i] == flag
}

/// A flag with a text sets what it is for and nothing else; said again, it
/// sets it again. Only the list of missing features grows.
pub proof fn law_flags_with_texts(ask: RunnerAsk, words: Seq<Seq<char>>, i: int)
    ensures
        has_value(words, i, "--target"@) ==> asked_from(ask, words, i) == asked_from(
            RunnerAsk { target: words[i + 1], ..ask },
            words,
            i + 2,
        ),
        has_value(words, i, "--only"@) ==> asked_from(ask, words, i) == asked_from(
            RunnerAsk { only: Some(words[i + 1]), ..ask },
            words,
            i + 2,
        ),
        has_value(words, i, "--suite-artifact"@) ==> asked_from(ask, words, i) == asked_from(
            RunnerAsk { suite_artifact: Some(words[i + 1]), ..ask },
            words,
            i + 2,
        ),
        has_value(words, i, "--missing"@) ==> asked_from(ask, words, i) == asked_from(
            RunnerAsk {
                missing: ask.missing + split(words[i + 1], ',').filter(
                    |p: Seq<char>| p.len() > 0,
                ),
                ..ask
            },
            words,
            i + 2,
        ),
{
    lemma_flags_differ();
    if has_value(words, i, "--missing"@) {
        crate::inventory_laws::lemma_nonempty(split(words[i + 1], ','));
    }
}

/// A flag with a number sets what it is for and nothing else, where the number
/// can be read; at least one job runs. Otherwise the run is refused, with the
/// flag, what was given and why.
pub proof fn law_flags_with_numbers(ask: RunnerAsk, words: Seq<Seq<char>>, i: int)
    ensures
        forall|flag: Seq<char>|
            #![trigger has_value(words, i, flag)]
            has_value(words, i, flag) && (flag == "--jobs"@ || flag == "--cases-per-instance"@
                || flag == "--case-execution-budget"@ || flag == "--case-timeout"@) ==> {
                let max = if flag == "--jobs"@ || flag == "--cases-per-instance"@ {
                    usize::MAX as int
                } else {
                    u64::MAX as int
                };
                match number(words[i + 1], max) {
                    Err(why) => asked_from(ask, words, i) == Err::<InvocationView, Seq<char>>(
                        flag + ": invalid number `"@ + words[i + 1] + "`: "@ + why,
                    ),
                    Ok(n) => asked_from(ask, words, i) == asked_from(
                        if flag == "--jobs"@ {
                            RunnerAsk { jobs: if n == 0 { 1 } else { n }, ..ask }
                        } else if flag == "--cases-per-instance"@ {
                            RunnerAsk { cases_per_instance: n, ..ask }
                        } else if flag == "--case-execution-budget"@ {
                            RunnerAsk { case_execution_budget: n, ..ask }
                        } else {
                            RunnerAsk { case_timeout: n, ..ask }
                        },
                        words,
                        i + 2,
                    ),
                }
            },
{
    lemma_flags_differ();
    if i + 1 < words.len() && 0 <= i {
        law_number(words[i + 1], usize::MAX as int);
        law_number(words[i + 1], u64::MAX as int);
        lemma_value_grows(
            body_of(words[i + 1]),
            0,
            if all_digits(body_of(words[i + 1])) { body_of(words[i + 1]).len() as int } else { 0 },
        );
        let t = body_of(words[i + 1]);
        assert(t.take(t.len() as int) =~= t);
    }
}

/// A flag by itself sets what it is for and nothing else. Help and version end
/// the reading at once; any other flag is refused. The first word that is no
/// flag is the suite, a second is refused.
pub proof fn law_other_words(ask: RunnerAsk, words: Seq<Seq<char>>, i: int)
    requires
        0 <= i < words.len(),
    ensures
        words[i] == "--jsonl"@ ==> asked_from(ask, words, i) == asked_from(
            RunnerAsk { human: false, ..ask },
            words,
            i + 1,
        ),
        words[i] == "--enumerate"@ ==> asked_from(ask, words, i) == asked_from(
            RunnerAsk { enumerate: true, ..ask },
            words,
            i + 1,
        ),
        words[i] == "--help"@ || words[i] == "-h"@ ==> asked_from(ask, words, i) == Ok::<
            InvocationView,
            Seq<char>,
        >(InvocationView::Help),
        words[i] == "--version"@ || words[i] == "-V"@ ==> asked_from(ask, words, i) == Ok::<
            InvocationView,
            Seq<char>,
        >(InvocationView::Version),
        !starts_with(words[i], "-"@) && ask.suite is None ==> asked_from(ask, words, i)
            == asked_from(RunnerAsk { suite: Some(words[i]), ..ask }, words, i + 1),
        !starts_with(words[i], "-"@) && ask.suite is Some ==> asked_from(ask, words, i) == Err::<
            InvocationView,
            Seq<char>,
        >("unexpected argument `"@ + words[i] + "`\n"@ + USAGE@),
{
    lemma_flags_differ();
    reveal_strlit("-");
    if words[i].len() > 0 && words[i][0] == '-' {
        assert(words[i].subrange(0, 1) =~= "-"@);
    }
}

/// Where the words are over there is a run if a suite was named.
pub proof fn law_words_over(ask: RunnerAsk, words: Seq<Seq<char>>)
    ensures
        asked_from(ask, words, words.len() as int) == if ask.suite is Some {
            Ok::<InvocationView, Seq<char>>(InvocationView::Run(ask))
        } else {
            Err::<InvocationView, Seq<char>>(USAGE@)
        },
{
}

proof fn lemma_flags_differ()
    ensures
        "--missing"@.len() == 9 && "--missing"@[0] == '-' && "--missing"@[2] == 'm',
        "--suite-artifact"@.len() == 16 && "--suite-artifact"@[0] == '-' && "--suite-artifact"@[2] == 's',
        "--only"@.len() == 6 && "--only"@[0] == '-' && "--only"@[2] == 'o',
        "--enumerate"@.len() == 11 && "--enumerate"@[0] == '-' && "--enumerate"@[2] == 'e',
        "--target"@.len() == 8 && "--target"@[0] == '-' && "--target"@[2] == 't',
        "--jobs"@.len() == 6 && "--jobs"@[0] == '-' && "--jobs"@[2] == 'j',
        "--cases-per-instance"@.len() == 20 && "--cases-per-instance"@[0] == '-' && "--cases-per-instance"@[2] == 'c',
        "--case-execution-budget"@.len() == 23 && "--case-execution-budget"@[0] == '-' && "--case-execution-budget"@[2] == 'c',
        "--case-timeout"@.len() == 14 && "--case-timeout"@[0] == '-' && "--case-timeout"@[2] == 'c',
        "--jsonl"@.len() == 7 && "--jsonl"@[0] == '-' && "--jsonl"@[2] == 'j',
        "--help"@.len() == 6 && "--help"@[0] == '-' && "--help"@[2] == 'h',
        "--version"@.len() == 9 && "--version"@[0] == '-' && "--version"@[2] == 'v',
        "-h"@.len() == 2 && "-h"@[0] == '-' && "-h"@[1] == 'h',
        "-V"@.len() == 2 && "-V"@[0] == '-' && "-V"@[1] == 'V',
{
    reveal_strlit("--missing");
    reveal_strlit("--suite-artifact");
    reveal_strlit("--only");
    reveal_strlit("--enumerate");
    reveal_strlit("--target");
    reveal_strlit("--jobs");
    reveal_strlit("--cases-per-instance");
    reveal_strlit("--case-execution-budget");
    reveal_strlit("--case-timeout");
    reveal_strlit("--jsonl");
    reveal_strlit("--help");
    reveal_strlit("--version");
    reveal_strlit("-h");
    reveal_strlit("-V");
}

/// The pairs behind the two paths are read where every one is a pair, in
/// order; the first that is none is named.
pub proof fn law_env_pairs(words: Seq<Seq<char>>, n: int)
    requires
        2 <= n <= words.len(),
    ensures
        match env_pairs(words, n) {
            Ok(ps) => ps.len() == n - 2 && forall|i: int|
                0 <= i < n - 2 ==> halves(#[trigger] words[i + 2]) == Some(ps[i]),
            Err(e) => exists|k: int|
                2 <= k < n && halves(#[trigger] words[k]) is None && e == "bad env pair `"@
                    + words[k] + "` (want NAME=VAL)\n"@ + PREINIT_USAGE@ && forall|x: int|
                    2 <= x < k ==> halves(#[trigger] words[x]) is Some,
        },
    decreases n,
{
    if n > 2 {
        law_env_pairs(words, n - 1);
        match env_pairs(words, n - 1) {
            Err(e) => {},
            Ok(init) => {
                assert forall|x: int| 2 <= x < n - 1 implies halves(#[trigger] words[x]) is Some by {
                    assert(words[x] == words[(x - 2) + 2]);
                    assert(halves(words[(x - 2) + 2]) == Some(init[x - 2]));
                }
                if halves(words[n - 1]) is Some {
                    let ps = init.push(halves(words[n - 1])->0);
                    assert forall|i: int| 0 <= i < n - 2 implies halves(#[trigger] words[i + 2])
                        == Some(ps[i]) by {
                        if i < n - 3 {
                            assert(ps[i] == init[i]);
                        }
                    }
                } else {
                    let k = n - 1;
                    assert(halves(words[k]) is None);
                }
            },
        }
    }
}

/// A list of counts is read where every piece is a number, in order; of the
/// first that is none it is told why.
pub proof fn law_listed_counts(pieces: Seq<Seq<char>>, n: int)
    requires
        0 <= n <= pieces.len(),
    ensures
        match listed_counts(pieces, n) {
            Ok(cs) => cs.len() == n && forall|i: int|
                0 <= i < n ==> number(#[trigger] pieces[i], usize::MAX as int) == Ok::<
                    int,
                    Seq<char>,
                >(cs[i]),
            Err(e) => exists|k: int|
                0 <= k < n && number(#[trigger] pieces[k], usize::MAX as int) is Err && e
                    == "--cases: invalid count: "@ + number(pieces[k], usize::MAX as int)->Err_0
                    && forall|x: int|
                    0 <= x < k ==> number(#[trigger] pieces[x], usize::MAX as int) is Ok,
        },
    decreases n,
{
    if n > 0 {
        law_listed_counts(pieces, n - 1);
        match listed_counts(pieces, n - 1) {
            Err(e) => {},
            Ok(init) => {
                let k = n - 1;
                assert(number(pieces[k], usize::MAX as int) is Ok || number(
                    pieces[k],
                    usize::MAX as int,
                ) is Err);
            },
        }
    }
}

/// A word of the benchmark's command line sets what it is for and nothing
/// else; counts said again replace those said before.
pub proof fn law_bench_words(ask: BenchAsk, words: Seq<Seq<char>>, i: int)
    requires
        0 <= i < words.len(),
    ensures
        words[i] == "--instances"@ && i + 1 < words.len() ==> match number(
            words[i + 1],
            usize::MAX as int,
        ) {
            Ok(n) => bench_from(ask, words, i) == bench_from(
                BenchAsk { instances: n, ..ask },
                words,
                i + 2,
            ),
            Err(why) => bench_from(ask, words, i) == Err::<BenchAsk, Seq<char>>(
                "--instances: invalid number: "@ + why,
            ),
        },
        words[i] == "--cases"@ && i + 1 < words.len() ==> match listed_counts(
            split(words[i + 1], ','),
            split(words[i + 1], ',').len() as int,
        ) {
            Ok(cs) => bench_from(ask, words, i) == bench_from(
                BenchAsk { cases: cs, ..ask },
                words,
                i + 2,
            ),
            Err(e) => bench_from(ask, words, i) == Err::<BenchAsk, Seq<char>>(e),
        },
        !starts_with(words[i], "-"@) && ask.suite is None ==> bench_from(ask, words, i)
            == bench_from(BenchAsk { suite: Some(words[i]), ..ask }, words, i + 1),
        !starts_with(words[i], "-"@) && ask.suite is Some ==> bench_from(ask, words, i) is Err,
        starts_with(words[i], "-"@) && words[i] != "--instances"@ && words[i] != "--cases"@
            ==> bench_from(ask, words, i) == Err::<BenchAsk, Seq<char>>(
            "unknown flag `"@ + words[i] + "`"@,
        ),
        bench_from(ask, words, words.len() as int) == if ask.suite is Some {
            Ok::<BenchAsk, Seq<char>>(ask)
        } else {
            Err::<BenchAsk, Seq<char>>(BENCH_USAGE@)
        },
{
    reveal_strlit("-");
    reveal_strlit("--instances");
    reveal_strlit("--cases");
    if words[i].len() > 0 && words[i][0] == '-' {
        assert(words[i].subrange(0, 1) =~= "-"@);
    }
}

} // verus!
