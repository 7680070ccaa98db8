//! Running cycles by hand: what a side is, when to stop, and what is said.
use crate::command::remote::{parse_remote, remote_parts};
use crate::command::resolve::push_line;
use crate::text::{
    chars_of, debug_text, debugged, decimal, decimal_text, is_whitespace, optional, same_text,
    string_of, strings, whitespace,
};
use vstd::prelude::*;

verus! {

// ---------------------------------------------------------------------------
// Sides
// ---------------------------------------------------------------------------

/// The words of a text: its longest runs without whitespace, among the first
/// `n` characters. The last run is open: more may belong to it.
pub open spec fn words_in(s: Seq<char>, n: int) -> (Seq<Seq<char>>, Seq<char>)
    decreases n,
{
    if n <= 0 {
        (Seq::empty(), Seq::empty())
    } else {
        let (done, open) = words_in(s, n - 1);
        if whitespace(s[n - 1]) {
            if open.len() > 0 {
                (done.push(open), Seq::empty())
            } else {
                (done, open)
            }
        } else {
            (done, open.push(s[n - 1]))
        }
    }
}

/// The words of a text.
pub open spec fn words(s: Seq<char>) -> Seq<Seq<char>> {
    let (done, open) = words_in(s, s.len() as int);
    if open.len() > 0 {
        done.push(open)
    } else {
        done
    }
}

/// The words of a text.
pub fn split_words(s: &str) -> (r: Vec<String>)
    ensures
        strings(r@) == words(s@),
{
    let all = chars_of(s);
    let mut done: Vec<String> = Vec::new();
    let mut open: Vec<char> = Vec::new();
    let mut n: usize = 0;
    assert(strings(done@) =~= words_in(s@, 0).0);
    while n < all.len()
        invariant
            n <= all@.len(),
            all@ == s@,
            (strings(done@), open@) == words_in(s@, n as int),
        decreases all@.len() - n,
    {
        if is_whitespace(all[n]) {
            if open.len() > 0 {
                push_line(&mut done, string_of(open.as_slice()));
                open = Vec::new();
                assert(open@ =~= Seq::<char>::empty());
            }
        } else {
            open.push(all[n]);
        }
        n += 1;
    }
    if open.len() > 0 {
        push_line(&mut done, string_of(open.as_slice()));
    }
    done
}

/// How a side is reached.
#[derive(Debug)]
pub enum Reach {
    /// By a command that is run.
    Agent {
        /// The command, word by word.
        argv: Vec<String>,
    },
    /// By a shell on another host.
    Shell {
        /// The host.
        host: String,
        /// The root there.
        path: String,
    },
    /// Directly.
    Local,
    /// Not at all: the command has no word.
    NoCommand,
}

/// How a side is reached: by the agent command where one is given, else as
/// its root says.
pub fn reach(spec: &str, agent: Option<&str>) -> (r: Reach)
    ensures
        match agent {
            Some(command) => if words(command@).len() == 0 {
                r is NoCommand
            } else {
                r matches Reach::Agent { argv } && strings(argv@) == words(command@)
            },
            None => match remote_parts(spec@) {
                Some(parts) => r matches Reach::Shell { host, path } && (host@, path@) == parts,
                None => r is Local,
            },
        },
{
    if let Some(command) = agent {
        let argv = split_words(command);
        assert(strings(argv@).len() == argv@.len());
        if argv.len() == 0 {
            return Reach::NoCommand;
        }
        return Reach::Agent { argv };
    }
    match parse_remote(spec) {
        Some((host, path)) => Reach::Shell { host, path },
        None => Reach::Local,
    }
}

/// Whether a side is on this machine, where its root is resolved once.
pub fn is_local(spec: &str, agent: Option<&str>) -> (r: bool)
    ensures
        r == (agent is None && remote_parts(spec@) is None),
{
    agent.is_none() && parse_remote(spec).is_none()
}

/// What tells a side from others: what its root resolved to, or the root as it
/// was given.
pub fn identity(spec: &str, resolved: Option<&str>) -> (r: String)
    ensures
        r@ == (match resolved {
            Some(path) => path@,
            None => spec@,
        }),
{
    match resolved {
        Some(path) => path.to_owned(),
        None => spec.to_owned(),
    }
}

/// Why a side on this machine is not opened, if anything keeps it.
pub open spec fn unopened(side: Seq<char>, root: Seq<char>, present: bool) -> Option<Seq<char>> {
    if side == "alpha"@ && !present {
        Some("unable to resolve "@ + side + " root "@ + root)
    } else {
        None
    }
}

/// Why a side on this machine is not opened, given whether its root is there.
/// A beta root that is missing is created; a missing alpha root is refused,
/// since a mistyped source could otherwise empty the destination.
pub fn refused_root(side: &str, spec: &str, present: bool) -> (r: Option<String>)
    ensures
        optional(r) == unopened(side@, spec@, present),
{
    if !same_text(side, "alpha") || present {
        return None;
    }
    let mut words = "unable to resolve ".to_owned();
    words.append(side);
    words.append(" root ");
    words.append(spec);
    Some(words)
}

// ---------------------------------------------------------------------------
// Cycles
// ---------------------------------------------------------------------------

/// A path and what is wrong there.
#[derive(Debug)]
pub struct Problem {
    /// The path.
    pub path: String,
    /// What is wrong.
    pub message: String,
}

/// How a cycle went.
#[derive(Debug)]
pub struct CycleReport {
    /// How many changes were made to alpha.
    pub alpha_transitions: usize,
    /// How many changes were made to beta.
    pub beta_transitions: usize,
    /// Where the sides are in conflict.
    pub conflicts: Vec<String>,
    /// What could not be scanned on alpha.
    pub alpha_scan_problems: Vec<Problem>,
    /// What could not be scanned on beta.
    pub beta_scan_problems: Vec<Problem>,
    /// What could not be changed on alpha.
    pub alpha_transition_problems: Vec<Problem>,
    /// What could not be changed on beta.
    pub beta_transition_problems: Vec<Problem>,
    /// Whether content that was to be moved was gone.
    pub missing_staged_files: bool,
}

/// How many paths a cycle was blocked at.
pub open spec fn blocked_count(report: CycleReport) -> nat {
    report.alpha_scan_problems@.len() + report.beta_scan_problems@.len()
        + report.alpha_transition_problems@.len() + report.beta_transition_problems@.len()
}

/// What follows a cycle.
#[derive(Clone, Copy, Debug, PartialEq, Eq, Structural)]
pub enum Next {
    /// Another cycle, at once.
    Again,
    /// A failure: content was still missing after so many cycles.
    StillMissing {
        /// How many cycles ran.
        cycles: u32,
    },
    /// The end, with something left.
    Unsettled {
        /// How many conflicts remain.
        conflicts: usize,
        /// How many blocked paths remain.
        blocked: usize,
    },
    /// The end.
    Settled,
    /// A wait for the next change.
    Wait,
}

/// How many cycles in a row were missing content, after one more.
pub open spec fn follow_ups_after(before: u32, missing: bool) -> int {
    if missing {
        before + 1
    } else {
        0
    }
}

/// What follows a cycle. One that missed content is followed by another at
/// once, a few times; by itself a run ends after one, and says what is left.
pub open spec fn next_after(report: CycleReport, follow_ups: int, watch: bool, maximum: u32) -> Next {
    if report.missing_staged_files && follow_ups <= maximum {
        Next::Again
    } else if watch {
        Next::Wait
    } else if report.missing_staged_files {
        Next::StillMissing { cycles: follow_ups as u32 }
    } else if report.conflicts@.len() > 0 || blocked_count(report) > 0 {
        Next::Unsettled {
            conflicts: report.conflicts@.len() as usize,
            blocked: blocked_count(report) as usize,
        }
    } else {
        Next::Settled
    }
}

/// What follows a cycle, given how many in a row before it missed content.
pub fn after_cycle(report: &CycleReport, follow_ups: &mut u32, watch: bool, maximum: u32) -> (r:
    Next)
    requires
        *old(follow_ups) < u32::MAX,
        blocked_count(*report) <= usize::MAX,
    ensures
        *final(follow_ups) == follow_ups_after(*old(follow_ups), report.missing_staged_files),
        r == next_after(*report, *final(follow_ups) as int, watch, maximum),
{
    if report.missing_staged_files {
        *follow_ups = *follow_ups + 1;
        if *follow_ups <= maximum {
            return Next::Again;
        }
        if !watch {
            return Next::StillMissing { cycles: *follow_ups };
        }
    } else {
        *follow_ups = 0;
    }
    if watch {
        return Next::Wait;
    }
    let conflicts: usize = report.conflicts.len();
    let blocked: usize = report.alpha_scan_problems.len() + report.beta_scan_problems.len()
        + report.alpha_transition_problems.len() + report.beta_transition_problems.len();
    if conflicts > 0 || blocked > 0 {
        Next::Unsettled { conflicts, blocked }
    } else {
        Next::Settled
    }
}

/// How long a change is waited for, in seconds.
pub open spec fn waited(interval: u64) -> u64 {
    if interval < 1 {
        1
    } else {
        interval
    }
}

/// How long to wait for a change, in seconds.
pub fn wait_seconds(interval: u64) -> (r: u64)
    ensures
        r == waited(interval),
{
    if interval < 1 {
        1
    } else {
        interval
    }
}

// ---------------------------------------------------------------------------
// What is said
// ---------------------------------------------------------------------------

/// What is said of changes.
pub open spec fn changes_text(alpha: nat, beta: nat) -> Seq<char> {
    decimal_text(alpha) + " change(s) to alpha, "@ + decimal_text(beta) + " change(s) to beta"@
}

fn changes_words(alpha: usize, beta: usize) -> (r: String)
    ensures
        r@ == changes_text(alpha as nat, beta as nat),
{
    let mut r = decimal(alpha as u64);
    r.append(" change(s) to alpha, ");
    let more = decimal(beta as u64);
    r.append(more.as_str());
    r.append(" change(s) to beta");
    r
}

/// What is said of problems on a side.
pub open spec fn problem_lines(side: Seq<char>, problems: Seq<Problem>) -> Seq<Seq<char>> {
    Seq::new(
        problems.len(),
        |i: int|
            side + " problem at "@ + debugged(problems[i].path@) + ": "@ + problems[i].message@,
    )
}

/// What is said of a cycle as a result.
pub open spec fn result_lines(report: CycleReport) -> Seq<Seq<char>> {
    if report.alpha_transitions > 0 || report.beta_transitions > 0 {
        seq![
            "synchronized: "@ + changes_text(
                report.alpha_transitions as nat,
                report.beta_transitions as nat,
            ),
        ]
    } else {
        Seq::empty()
    }
}

/// What is said of a cycle as a complaint.
pub open spec fn complaint_lines(report: CycleReport) -> Seq<Seq<char>> {
    let conflicts = strings(report.conflicts@);
    Seq::new(
        conflicts.len(),
        |i: int| "conflict at "@ + debugged(conflicts[i]) + " (left unresolved)"@,
    ) + problem_lines("alpha"@, report.alpha_scan_problems@) + problem_lines(
        "alpha"@,
        report.alpha_transition_problems@,
    ) + problem_lines("beta"@, report.beta_scan_problems@) + problem_lines(
        "beta"@,
        report.beta_transition_problems@,
    )
}

fn push_problems(lines: &mut Vec<String>, side: &str, problems: &[Problem])
    ensures
        strings(final(lines)@) == strings(old(lines)@) + problem_lines(side@, problems@),
{
    let ghost start = strings(lines@);
    let ghost all = problem_lines(side@, problems@);
    let mut i: usize = 0;
    assert(start + all.take(0) =~= start);
    while i < problems.len()
        invariant
            i <= problems@.len(),
            all == problem_lines(side@, problems@),
            strings(lines@) == start + all.take(i as int),
        decreases problems@.len() - i,
    {
        let mut line = side.to_owned();
        line.append(" problem at ");
        let path = debug_text(problems[i].path.as_str());
        line.append(path.as_str());
        line.append(": ");
        line.append(problems[i].message.as_str());
        push_line(lines, line);
        assert(all.take(i + 1) =~= all.take(i as int).push(all[i as int]));
        assert(strings(lines@) =~= start + all.take(i + 1));
        i += 1;
    }
    assert(all.take(all.len() as int) =~= all);
}

/// What is said of a cycle: the result, and the complaints.
pub fn print_report(report: &CycleReport) -> (r: (Vec<String>, Vec<String>))
    ensures
        strings(r.0@) == result_lines(*report),
        strings(r.1@) == complaint_lines(*report),
{
    let mut results: Vec<String> = Vec::new();
    assert(strings(results@) =~= Seq::<Seq<char>>::empty());
    if report.alpha_transitions > 0 || report.beta_transitions > 0 {
        let mut line = "synchronized: ".to_owned();
        let words = changes_words(report.alpha_transitions, report.beta_transitions);
        line.append(words.as_str());
        push_line(&mut results, line);
    }
    assert(strings(results@) =~= result_lines(*report));
    let mut lines: Vec<String> = Vec::new();
    let ghost paths = strings(report.conflicts@);
    let ghost all = Seq::new(
        paths.len(),
        |i: int| "conflict at "@ + debugged(paths[i]) + " (left unresolved)"@,
    );
    let mut i: usize = 0;
    assert(strings(lines@) =~= all.take(0));
    while i < report.conflicts.len()
        invariant
            i <= report.conflicts@.len(),
            paths == strings(report.conflicts@),
            all == Seq::new(
                paths.len(),
                |i: int| "conflict at "@ + debugged(paths[i]) + " (left unresolved)"@,
            ),
            strings(lines@) == all.take(i as int),
        decreases report.conflicts@.len() - i,
    {
        let mut line = "conflict at ".to_owned();
        let path = debug_text(report.conflicts[i].as_str());
        line.append(path.as_str());
        line.append(" (left unresolved)");
        push_line(&mut lines, line);
        assert(all.take(i + 1) =~= all.take(i as int).push(all[i as int]));
        i += 1;
    }
    assert(all.take(all.len() as int) =~= all);
    push_problems(&mut lines, "alpha", report.alpha_scan_problems.as_slice());
    push_problems(&mut lines, "alpha", report.alpha_transition_problems.as_slice());
    push_problems(&mut lines, "beta", report.beta_scan_problems.as_slice());
    push_problems(&mut lines, "beta", report.beta_transition_problems.as_slice());
    (results, lines)
}

/// What is said where a run ends with something left.
pub fn unsettled_words(conflicts: usize, blocked: usize) -> (r: String)
    ensures
        r@ == decimal_text(conflicts as nat) + " conflict(s) and "@ + decimal_text(blocked as nat)
            + " blocked path(s) remain"@,
{
    let mut r = decimal(conflicts as u64);
    r.append(" conflict(s) and ");
    let more = decimal(blocked as u64);
    r.append(more.as_str());
    r.append(" blocked path(s) remain");
    r
}

/// What is said where content was still missing in the end.
pub fn missing_words(cycles: u32) -> (r: String)
    ensures
        r@ == "staged content was still missing after "@ + decimal_text(cycles as nat)
            + " cycles; source content is changing faster than it can be transferred"@,
{
    let mut r = "staged content was still missing after ".to_owned();
    let count = decimal(cycles as u64);
    r.append(count.as_str());
    r.append(" cycles; source content is changing faster than it can be transferred");
    r
}

// ---------------------------------------------------------------------------
// Every configured session
// ---------------------------------------------------------------------------

/// What a session's cycle came to.
#[derive(Debug)]
pub enum Outcome {
    /// It ran to its end.
    Ran {
        /// How many changes were made to alpha.
        alpha_transitions: usize,
        /// How many changes were made to beta.
        beta_transitions: usize,
        /// How many conflicts there are.
        conflicts: usize,
        /// How many paths are blocked.
        problems: usize,
    },
    /// It failed.
    Failed {
        /// Why.
        error: String,
    },
}

/// A session and what its cycle came to.
#[derive(Debug)]
pub struct SessionOutcome {
    /// What the session is called.
    pub display: String,
    /// What its cycle came to.
    pub outcome: Outcome,
}

/// What is said of a session's cycle.
pub open spec fn outcome_text(outcome: SessionOutcome) -> Seq<char> {
    match outcome.outcome {
        Outcome::Ran { alpha_transitions, beta_transitions, conflicts, problems } => {
            let first = changes_text(alpha_transitions as nat, beta_transitions as nat);
            let second = if conflicts > 0 {
                first + (", "@ + decimal_text(conflicts as nat) + " conflict(s)"@)
            } else {
                first
            };
            let third = if problems > 0 {
                second + (", "@ + decimal_text(problems as nat) + " blocked"@)
            } else {
                second
            };
            "["@ + outcome.display@ + "] synchronized: "@ + third
        },
        Outcome::Failed { error } => "["@ + outcome.display@ + "] failed: "@ + error@,
    }
}

/// What is said of a session's cycle.
pub fn outcome_line(outcome: &SessionOutcome) -> (r: String)
    ensures
        r@ == outcome_text(*outcome),
{
    let mut line = "[".to_owned();
    line.append(outcome.display.as_str());
    match &outcome.outcome {
        Outcome::Ran { alpha_transitions, beta_transitions, conflicts, problems } => {
            let mut summary = changes_words(*alpha_transitions, *beta_transitions);
            if *conflicts > 0 {
                let mut more = ", ".to_owned();
                let count = decimal(*conflicts as u64);
                more.append(count.as_str());
                more.append(" conflict(s)");
                summary.append(more.as_str());
            }
            if *problems > 0 {
                let mut more = ", ".to_owned();
                let count = decimal(*problems as u64);
                more.append(count.as_str());
                more.append(" blocked");
                summary.append(more.as_str());
            }
            line.append("] synchronized: ");
            line.append(summary.as_str());
        },
        Outcome::Failed { error } => {
            line.append("] failed: ");
            line.append(error.as_str());
        },
    }
    line
}

/// Whether a session failed.
pub open spec fn has_failed(outcome: SessionOutcome) -> bool {
    outcome.outcome is Failed
}

/// Whether a session ran and left something.
pub open spec fn has_left(outcome: SessionOutcome) -> bool {
    outcome.outcome matches Outcome::Ran { conflicts, problems, .. } && (conflicts > 0 || problems
        > 0)
}

/// How many of the first `n` sessions failed.
pub open spec fn failed_count(outcomes: Seq<SessionOutcome>, n: int) -> nat
    decreases n,
{
    if n <= 0 {
        0
    } else {
        failed_count(outcomes, n - 1) + if has_failed(outcomes[n - 1]) {
            1nat
        } else {
            0
        }
    }
}

/// How many of the first `n` sessions left something.
pub open spec fn left_count(outcomes: Seq<SessionOutcome>, n: int) -> nat
    decreases n,
{
    if n <= 0 {
        0
    } else {
        left_count(outcomes, n - 1) + if has_left(outcomes[n - 1]) {
            1nat
        } else {
            0
        }
    }
}

/// How a run of every session ends.
#[derive(Clone, Copy, Debug, PartialEq, Eq, Structural)]
pub enum RunEnd {
    /// So many sessions failed.
    Failed(usize),
    /// None failed, and so many left something.
    Unsettled(usize),
    /// All is done.
    Settled,
}

/// Whether a run of every session ends so.
pub open spec fn ends_run(r: RunEnd, outcomes: Seq<SessionOutcome>) -> bool {
    let n = outcomes.len() as int;
    if failed_count(outcomes, n) > 0 {
        r matches RunEnd::Failed(count) && count == failed_count(outcomes, n)
    } else if left_count(outcomes, n) > 0 {
        r matches RunEnd::Unsettled(count) && count == left_count(outcomes, n)
    } else {
        r is Settled
    }
}

/// How a run of every session ends: a failure counts for more than what was
/// left.
pub fn run_end(outcomes: &[SessionOutcome]) -> (r: RunEnd)
    ensures
        ends_run(r, outcomes@),
{
    let mut failures: usize = 0;
    let mut unsettled: usize = 0;
    let mut i: usize = 0;
    while i < outcomes.len()
        invariant
            i <= outcomes@.len(),
            failures == failed_count(outcomes@, i as int),
            unsettled == left_count(outcomes@, i as int),
            failures <= i,
            unsettled <= i,
        decreases outcomes@.len() - i,
    {
        match &outcomes[i].outcome {
            Outcome::Ran { conflicts, problems, .. } => {
                if *conflicts > 0 || *problems > 0 {
                    unsettled += 1;
                }
            },
            Outcome::Failed { .. } => {
                failures += 1;
            },
        }
        i += 1;
    }
    if failures > 0 {
        RunEnd::Failed(failures)
    } else if unsettled > 0 {
        RunEnd::Unsettled(unsettled)
    } else {
        RunEnd::Settled
    }
}

// ---------------------------------------------------------------------------
// Laws
// ---------------------------------------------------------------------------

/// A run that does not watch ends as settled exactly where nothing is left: no
/// conflict, nothing that could not be scanned or changed on either side, and
/// no content that was missing. Where something is left, the run says how much
/// of each.
pub proof fn law_a_run_is_settled_where_nothing_is_left(
    report: CycleReport,
    follow_ups: int,
    maximum: u32,
)
    requires
        report.alpha_scan_problems@.len() + report.beta_scan_problems@.len()
            + report.alpha_transition_problems@.len() + report.beta_transition_problems@.len()
            <= usize::MAX,
    ensures
        next_after(report, follow_ups, false, maximum) is Settled <==> {
            &&& !report.missing_staged_files
            &&& report.conflicts@.len() == 0
            &&& report.alpha_scan_problems@.len() == 0
            &&& report.beta_scan_problems@.len() == 0
            &&& report.alpha_transition_problems@.len() == 0
            &&& report.beta_transition_problems@.len() == 0
        },
        next_after(report, follow_ups, false, maximum) matches Next::Unsettled {
            conflicts,
            blocked,
        } ==> conflicts == report.conflicts@.len() && blocked == report.alpha_scan_problems@.len()
            + report.beta_scan_problems@.len() + report.alpha_transition_problems@.len()
            + report.beta_transition_problems@.len() && conflicts + blocked > 0,
        !report.missing_staged_files && (report.conflicts@.len() > 0
            || report.alpha_scan_problems@.len() > 0 || report.beta_scan_problems@.len() > 0
            || report.alpha_transition_problems@.len() > 0
            || report.beta_transition_problems@.len() > 0) ==> next_after(
            report,
            follow_ups,
            false,
            maximum,
        ) is Unsettled,
{
    assert(report.conflicts.len() == report.conflicts@.len());
}

/// A run that watches never ends by itself: it waits, or goes again at once.
/// A cycle is followed by another at once exactly where it missed content, for
/// `maximum` times in a row; a run that does not watch fails after that.
pub proof fn law_missing_content_is_tried_again(
    report: CycleReport,
    before: u32,
    watch: bool,
    maximum: u32,
)
    requires
        before < u32::MAX,
    ensures
        follow_ups_after(before, true) == before + 1,
        follow_ups_after(before, false) == 0,
        ({
            let missing = report.missing_staged_files;
            let next = next_after(report, follow_ups_after(before, missing), watch, maximum);
            &&& next is Again <==> missing && before < maximum
            &&& next is Wait <==> watch && !(missing && before < maximum)
            &&& next is StillMissing <==> !watch && missing && before >= maximum
            &&& next matches Next::StillMissing { cycles } ==> cycles == before + 1
        }),
{
}

/// Whitespace ends a word, wherever it stands: the words of a text are those
/// before it and those after it.
pub proof fn law_words_are_cut_at_whitespace(front: Seq<char>, c: char, back: Seq<char>)
    requires
        whitespace(c),
    ensures
        words(front.push(c) + back) == words(front) + words(back),
{
    let all = front.push(c) + back;
    lemma_words_front(front, all, front.len() as int);
    let n = (front.len() + 1) as int;
    assert(all[n - 1] == c);
    assert(words_in(all, n) == (words(front), Seq::<char>::empty()));
    lemma_words_back(all, n, back, back.len() as int);
    assert(words(all) =~= words(front) + words(back));
}

proof fn lemma_words_front(front: Seq<char>, all: Seq<char>, n: int)
    requires
        0 <= n <= front.len() <= all.len(),
        forall|i: int| 0 <= i < front.len() ==> front[i] == all[i],
    ensures
        words_in(front, n) == words_in(all, n),
    decreases n,
{
    if n > 0 {
        lemma_words_front(front, all, n - 1);
    }
}

proof fn lemma_words_back(all: Seq<char>, from: int, back: Seq<char>, n: int)
    requires
        0 <= from,
        0 <= n <= back.len(),
        all.len() == from + back.len(),
        forall|i: int| 0 <= i < back.len() ==> back[i] == all[from + i],
        words_in(all, from).1.len() == 0,
    ensures
        words_in(all, from + n).0 == words_in(all, from).0 + words_in(back, n).0,
        words_in(all, from + n).1 == words_in(back, n).1,
    decreases n,
{
    if n > 0 {
        lemma_words_back(all, from, back, n - 1);
        assert(all[from + n - 1] == back[n - 1]);
        assert(words_in(all, from + n).0 =~= words_in(all, from).0 + words_in(back, n).0);
    } else {
        assert(words_in(all, from).1 =~= Seq::<char>::empty());
        assert(words_in(all, from).0 + Seq::<Seq<char>>::empty() =~= words_in(all, from).0);
    }
}

/// A text without whitespace is one word, where it holds anything.
pub proof fn law_a_text_without_whitespace_is_one_word(s: Seq<char>)
    requires
        forall|i: int| 0 <= i < s.len() ==> !whitespace(#[trigger] s[i]),
    ensures
        words(s) == (if s.len() == 0 {
            Seq::<Seq<char>>::empty()
        } else {
            seq![s]
        }),
{
    lemma_one_word(s, s.len() as int);
    assert(s.take(s.len() as int) =~= s);
    assert(words(s) =~= if s.len() == 0 {
        Seq::<Seq<char>>::empty()
    } else {
        seq![s]
    });
}

proof fn lemma_one_word(s: Seq<char>, n: int)
    requires
        0 <= n <= s.len(),
        forall|i: int| 0 <= i < s.len() ==> !whitespace(#[trigger] s[i]),
    ensures
        words_in(s, n) == (Seq::<Seq<char>>::empty(), s.take(n)),
    decreases n,
{
    if n > 0 {
        lemma_one_word(s, n - 1);
        assert(s.take(n) =~= s.take(n - 1).push(s[n - 1]));
    } else {
        assert(s.take(0) =~= Seq::<char>::empty());
    }
}

/// A run of every session failed exactly where one of them did, and left
/// something exactly where one of them has a conflict or a blocked path. One
/// session more counts for one at most.
pub proof fn law_every_session_counts(outcomes: Seq<SessionOutcome>, n: int)
    requires
        0 <= n < outcomes.len(),
    ensures
        failed_count(outcomes, 0) == 0,
        left_count(outcomes, 0) == 0,
        match outcomes[n].outcome {
            Outcome::Failed { .. } => failed_count(outcomes, n + 1) == failed_count(outcomes, n) + 1
                && left_count(outcomes, n + 1) == left_count(outcomes, n),
            Outcome::Ran { conflicts, problems, .. } => failed_count(outcomes, n + 1)
                == failed_count(outcomes, n) && left_count(outcomes, n + 1) == left_count(
                outcomes,
                n,
            ) + if conflicts == 0 && problems == 0 {
                0int
            } else {
                1
            },
        },
{
}

/// Every conflict and everything that could not be scanned or changed is
/// complained of, each in a line of its own that names its path; a cycle that
/// changed something says so, and no other.
pub proof fn law_a_report_leaves_nothing_out(report: CycleReport, i: int)
    ensures
        result_lines(report).len() == (if report.alpha_transitions == 0 && report.beta_transitions
            == 0 {
            0int
        } else {
            1
        }),
        complaint_lines(report).len() == report.conflicts@.len()
            + report.alpha_scan_problems@.len() + report.alpha_transition_problems@.len()
            + report.beta_scan_problems@.len() + report.beta_transition_problems@.len(),
        0 <= i < report.conflicts@.len() ==> complaint_lines(report)[i] == "conflict at "@
            + debugged(report.conflicts@[i]@) + " (left unresolved)"@,
        0 <= i < report.alpha_scan_problems@.len() ==> complaint_lines(report).contains(
            "alpha problem at "@ + debugged(report.alpha_scan_problems@[i].path@) + ": "@
                + report.alpha_scan_problems@[i].message@,
        ),
        0 <= i < report.alpha_transition_problems@.len() ==> complaint_lines(report).contains(
            "alpha problem at "@ + debugged(report.alpha_transition_problems@[i].path@) + ": "@
                + report.alpha_transition_problems@[i].message@,
        ),
        0 <= i < report.beta_scan_problems@.len() ==> complaint_lines(report).contains(
            "beta problem at "@ + debugged(report.beta_scan_problems@[i].path@) + ": "@
                + report.beta_scan_problems@[i].message@,
        ),
        0 <= i < report.beta_transition_problems@.len() ==> complaint_lines(report).contains(
            "beta problem at "@ + debugged(report.beta_transition_problems@[i].path@) + ": "@
                + report.beta_transition_problems@[i].message@,
        ),
{
    reveal_strlit("alpha problem at ");
    reveal_strlit("beta problem at ");
    reveal_strlit(" problem at ");
    reveal_strlit("alpha");
    reveal_strlit("beta");
    assert("alpha"@ + " problem at "@ =~= "alpha problem at "@);
    assert("beta"@ + " problem at "@ =~= "beta problem at "@);
    let all = complaint_lines(report);
    let a = report.conflicts@.len() as int;
    let b = a + report.alpha_scan_problems@.len();
    let c = b + report.alpha_transition_problems@.len();
    let d = c + report.beta_scan_problems@.len();
    if 0 <= i < report.alpha_scan_problems@.len() {
        assert(all[a + i] == problem_lines("alpha"@, report.alpha_scan_problems@)[i]);
        assert(all.contains(all[a + i]));
    }
    if 0 <= i < report.alpha_transition_problems@.len() {
        assert(all[b + i] == problem_lines("alpha"@, report.alpha_transition_problems@)[i]);
        assert(all.contains(all[b + i]));
    }
    if 0 <= i < report.beta_scan_problems@.len() {
        assert(all[c + i] == problem_lines("beta"@, report.beta_scan_problems@)[i]);
        assert(all.contains(all[c + i]));
    }
    if 0 <= i < report.beta_transition_problems@.len() {
        assert(all[d + i] == problem_lines("beta"@, report.beta_transition_problems@)[i]);
        assert(all.contains(all[d + i]));
    }
}

/// A change is waited for as long as was asked, but for a second at least.
pub proof fn law_a_change_is_waited_for(interval: u64)
    ensures
        waited(interval) >= 1,
        interval >= 1 ==> waited(interval) == interval,
        waited(0) == 1,
{
}

proof fn lemma_counted(outcomes: Seq<SessionOutcome>, n: int)
    requires
        0 <= n <= outcomes.len(),
    ensures
        failed_count(outcomes, n) > 0 <==> exists|i: int|
            0 <= i < n && (#[trigger] outcomes[i]).outcome is Failed,
        left_count(outcomes, n) > 0 <==> exists|i: int|
            0 <= i < n && has_left(#[trigger] outcomes[i]),
    decreases n,
{
    if n > 0 {
        lemma_counted(outcomes, n - 1);
        assert(has_failed(outcomes[n - 1]) == (outcomes[n - 1].outcome is Failed));
    }
}

/// A run of every session is a failure where one of them failed. Otherwise it
/// is unsettled where one of them left a conflict or a problem, and settled
/// where none did.
pub proof fn law_one_failure_fails_a_run(r: RunEnd, outcomes: Seq<SessionOutcome>)
    requires
        ends_run(r, outcomes),
    ensures
        r is Failed <==> exists|i: int|
            0 <= i < outcomes.len() && (#[trigger] outcomes[i]).outcome is Failed,
        r is Settled <==> forall|i: int|
            0 <= i < outcomes.len() ==> ((#[trigger] outcomes[i]).outcome matches Outcome::Ran {
                conflicts,
                problems,
                ..
            } && conflicts == 0 && problems == 0),
{
    let n = outcomes.len() as int;
    lemma_counted(outcomes, n);
    if r is Settled {
        assert forall|i: int| 0 <= i < outcomes.len() implies ((
        #[trigger] outcomes[i]).outcome matches Outcome::Ran { conflicts, problems, .. }
            && conflicts == 0 && problems == 0) by {
            assert(!(outcomes[i].outcome is Failed));
            assert(!has_left(outcomes[i]));
        }
    }
}

/// A root that is missing is refused on alpha, whose loss would empty the other
/// side, and on no other.
pub proof fn law_a_missing_source_is_refused(side: Seq<char>, root: Seq<char>, present: bool)
    ensures
        unopened(side, root, true) is None,
        side != "alpha"@ ==> unopened(side, root, present) is None,
        unopened("alpha"@, root, false) == Some(
            "unable to resolve "@ + "alpha"@ + " root "@ + root,
        ),
{
}

} // verus!
