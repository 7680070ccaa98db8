//! The status of sessions: how their last cycles ended, and what they are
//! doing now.
use crate::command::blocked::{after_last, after_last_of};
use crate::command::format::{
    age_text, bytes_text, duration_text, format_age_at, format_bytes, format_duration,
    format_estimate, rounded_estimate, seconds_before, thousands, thousands_text,
};
use crate::command::resolve::{path_lines, push_line};
use crate::plan::{failed_state, is_failed, SessionPlan, SessionStatus};
use crate::progress::{Phase, ProgressSnapshot, SideSnapshot};
use crate::service::ServiceState;
use crate::text::{
    chars_of, decimal, decimal_text, display_safe, optional, same_text, shown_text, string_of,
    strings,
};
use vstd::prelude::*;

verus! {

/// How long a session has to be at work before a status line says so, in
/// seconds: a cycle that is quick about it says nothing.
pub const SLOW_PHASE_SECONDS: u64 = 5;

/// What a running supervisor reports of a session.
#[derive(Clone, Copy, Debug)]
pub struct Reported {
    /// Its progress.
    pub progress: ProgressSnapshot,
    /// For how long the session has been at work.
    pub working_seconds: u64,
}

// ---------------------------------------------------------------------------
// A session at work
// ---------------------------------------------------------------------------

/// Whether an estimate can be rounded up.
pub open spec fn roundable(left: Option<u64>) -> bool {
    left matches Some(left) ==> rounded_estimate(left as nat) <= u64::MAX
}

/// Whether what is reported can be shown.
pub open spec fn showable(progress: ProgressSnapshot) -> bool {
    &&& roundable(progress.remaining_seconds)
    &&& roundable(progress.alpha.remaining_seconds)
    &&& roundable(progress.beta.remaining_seconds)
}

/// What is said of the time left.
pub open spec fn left_text(left: Option<u64>) -> Seq<char> {
    match left {
        Some(left) => if left > 0 {
            ", about "@ + duration_text(rounded_estimate(left as nat)) + " left"@
        } else {
            Seq::empty()
        },
        None => Seq::empty(),
    }
}

fn left_words(left: Option<u64>) -> (r: String)
    requires
        roundable(left),
    ensures
        r@ == left_text(left),
{
    match left {
        Some(left) if left > 0 => {
            let mut r = ", about ".to_owned();
            let words = format_estimate(left);
            r.append(words.as_str());
            r.append(" left");
            r
        },
        _ => String::new(),
    }
}

/// How much of a total is done, in percent; never all of it.
pub open spec fn percent(done: int, total: int) -> int {
    let hundredfold = if done * 100 > u64::MAX {
        u64::MAX as int
    } else {
        done * 100
    };
    let p = hundredfold / (if total < 1 {
        1
    } else {
        total
    });
    if p > 99 {
        99
    } else {
        p
    }
}

/// What is said of a side that scans.
pub open spec fn side_text(name: Seq<char>, side: SideSnapshot) -> Seq<char> {
    let lead = "      "@ + name + ": "@;
    let what = if side.entries == 0 {
        "scanning for "@ + duration_text(side.seconds as nat)
    } else {
        match side.expected {
            None => thousands_text(side.entries as nat) + " entries so far"@,
            Some(expected) => thousands_text(side.entries as nat) + " of ~"@ + thousands_text(
                expected as nat,
            ) + " entries ("@ + decimal_text(percent(side.entries as int, expected as int) as nat)
                + "%)"@,
        }
    };
    lead + what + left_text(side.remaining_seconds)
}

fn side_line(name: &str, side: &SideSnapshot) -> (r: String)
    requires
        roundable(side.remaining_seconds),
    ensures
        r@ == side_text(name@, *side),
{
    let mut line = "      ".to_owned();
    line.append(name);
    line.append(": ");
    let mut what: String;
    if side.entries == 0 {
        what = "scanning for ".to_owned();
        let duration = format_duration(side.seconds);
        what.append(duration.as_str());
    } else {
        what = thousands(side.entries);
        match side.expected {
            None => {
                what.append(" entries so far");
            },
            Some(expected) => {
                what.append(" of ~");
                let total = thousands(expected);
                what.append(total.as_str());
                what.append(" entries (");
                let hundredfold: u64 = if side.entries > u64::MAX / 100 {
                    u64::MAX
                } else {
                    side.entries * 100
                };
                let p: u64 = hundredfold / (if expected < 1 {
                    1
                } else {
                    expected
                });
                let p: u64 = if p > 99 {
                    99
                } else {
                    p
                };
                let p = decimal(p);
                what.append(p.as_str());
                what.append("%)");
            },
        }
    }
    line.append(what.as_str());
    let left = left_words(side.remaining_seconds);
    line.append(left.as_str());
    line
}

/// What is said of a session at work.
pub open spec fn working_lines(progress: ProgressSnapshot) -> Seq<Seq<char>> {
    let headline = "    status: "@ + progress.phase.text() + ", "@ + duration_text(
        progress.seconds as nat,
    ) + " elapsed"@ + left_text(progress.remaining_seconds);
    let detail: Seq<Seq<char>> = match progress.phase {
        Phase::Scanning => (if progress.alpha.active {
            seq![side_text("alpha"@, progress.alpha)]
        } else {
            Seq::empty()
        }) + (if progress.beta.active {
            seq![side_text("beta"@, progress.beta)]
        } else {
            Seq::empty()
        }),
        Phase::Staging => {
            let files = "      "@ + thousands_text(progress.staged as nat) + " of "@
                + thousands_text(progress.staged_total as nat) + " files"@;
            seq![
                if progress.staged_bytes_total > 0 {
                    files + ", "@ + bytes_text(progress.staged_bytes as nat) + " of "@ + bytes_text(
                        progress.staged_bytes_total as nat,
                    )
                } else {
                    files
                },
            ]
        },
        Phase::Applying => seq![
            "      "@ + thousands_text(progress.applied as nat) + " of "@ + thousands_text(
                progress.applied_total as nat,
            ) + " changes"@,
        ],
        _ => Seq::empty(),
    };
    seq![headline] + detail
}

/// Says what a session is at work on.
pub fn render_working(progress: &ProgressSnapshot, lines: &mut Vec<String>)
    requires
        showable(*progress),
    ensures
        strings(final(lines)@) == strings(old(lines)@) + working_lines(*progress),
{
    let ghost start = strings(lines@);
    let mut line = "    status: ".to_owned();
    line.append(progress.phase.label());
    line.append(", ");
    let duration = format_duration(progress.seconds);
    line.append(duration.as_str());
    line.append(" elapsed");
    let left = left_words(progress.remaining_seconds);
    line.append(left.as_str());
    push_line(lines, line);
    match progress.phase {
        Phase::Scanning => {
            if progress.alpha.active {
                push_line(lines, side_line("alpha", &progress.alpha));
            }
            if progress.beta.active {
                push_line(lines, side_line("beta", &progress.beta));
            }
        },
        Phase::Staging => {
            let mut line = "      ".to_owned();
            let done = thousands(progress.staged);
            line.append(done.as_str());
            line.append(" of ");
            let total = thousands(progress.staged_total);
            line.append(total.as_str());
            line.append(" files");
            if progress.staged_bytes_total > 0 {
                line.append(", ");
                let done = format_bytes(progress.staged_bytes);
                line.append(done.as_str());
                line.append(" of ");
                let total = format_bytes(progress.staged_bytes_total);
                line.append(total.as_str());
            }
            push_line(lines, line);
        },
        Phase::Applying => {
            let mut line = "      ".to_owned();
            let done = thousands(progress.applied);
            line.append(done.as_str());
            line.append(" of ");
            let total = thousands(progress.applied_total);
            line.append(total.as_str());
            line.append(" changes");
            push_line(lines, line);
        },
        _ => {},
    }
    assert(strings(lines@) =~= start + working_lines(*progress));
}

// ---------------------------------------------------------------------------
// A session
// ---------------------------------------------------------------------------

/// What of the progress is worth a status line: all work where the display is
/// live, work that has gone on for long enough elsewhere.
pub open spec fn worth_saying(reported: Option<Reported>, live: bool) -> Option<ProgressSnapshot> {
    match reported {
        Some(reported) => if reported.progress.phase != Phase::Waiting && (live
            || reported.working_seconds >= SLOW_PHASE_SECONDS) {
            Some(reported.progress)
        } else {
            None
        },
        None => None,
    }
}

/// What a session's record comes to, in words.
pub open spec fn label_text(status: SessionStatus) -> Seq<char> {
    let conflicts = status.conflicts@.len();
    let blocked = status.blocked@.len();
    let a = thousands_text(conflicts) + " conflicts"@;
    let b = thousands_text(blocked) + " blocked"@;
    if failed_state(status.state@) || (conflicts == 0 && blocked == 0) {
        status.state@
    } else if blocked == 0 {
        a
    } else if conflicts == 0 {
        b
    } else {
        a + ", "@ + b
    }
}

fn label_words(status: &SessionStatus) -> (r: String)
    ensures
        r@ == label_text(*status),
{
    let conflicts: usize = status.conflicts.len();
    let blocked: usize = status.blocked.len();
    if is_failed(status.state.as_str()) || (conflicts == 0 && blocked == 0) {
        return status.state.clone();
    }
    let mut a = thousands(conflicts as u64);
    a.append(" conflicts");
    let mut b = thousands(blocked as u64);
    b.append(" blocked");
    if blocked == 0 {
        a
    } else if conflicts == 0 {
        b
    } else {
        a.append(", ");
        a.append(b.as_str());
        a
    }
}

/// How many cycles a session has run, in words.
pub open spec fn cycles_text(cycles: nat) -> Seq<char> {
    if cycles == 0 {
        "never run"@
    } else if cycles == 1 {
        "1 cycle"@
    } else {
        decimal_text(cycles) + " cycles"@
    }
}

/// The line for a session that is not at work.
pub open spec fn rest_text(status: SessionStatus, now: u64) -> Seq<char> {
    let label = label_text(status);
    let failed = failed_state(status.state@);
    let tail = ", "@ + cycles_text(status.cycles as nat) + ", "@ + age_text(
        seconds_before(now, status.updated_at),
    );
    if label == "synchronized"@ {
        "    status: "@ + label + tail
    } else if failed {
        "    status: "@ + "\x1b[31m"@ + label + "\x1b[0m"@ + tail
    } else {
        "    status: "@ + "\x1b[33m"@ + label + "\x1b[0m"@ + tail
    }
}

fn rest_line(status: &SessionStatus, now: u64) -> (r: String)
    ensures
        r@ == rest_text(*status, now),
{
    let label = label_words(status);
    let mut tail = ", ".to_owned();
    if status.cycles == 0 {
        tail.append("never run");
    } else if status.cycles == 1 {
        tail.append("1 cycle");
    } else {
        let mut count = decimal(status.cycles);
        count.append(" cycles");
        tail.append(count.as_str());
    }
    tail.append(", ");
    let age = format_age_at(status.updated_at, now);
    tail.append(age.as_str());
    let mut line = "    status: ".to_owned();
    if same_text(label.as_str(), "synchronized") {
        line.append(label.as_str());
    } else {
        if is_failed(status.state.as_str()) {
            line.append("\x1b[31m");
        } else {
            line.append("\x1b[33m");
        }
        line.append(label.as_str());
        line.append("\x1b[0m");
    }
    line.append(tail.as_str());
    line
}

/// What is said of a session's conflicts.
pub open spec fn status_conflict_lines(conflicts: Seq<Seq<char>>, expand: bool) -> Seq<Seq<char>> {
    if conflicts.len() == 0 {
        Seq::empty()
    } else if conflicts.len() == 1 {
        seq!["    conflicts: 1, "@ + shown_text(conflicts[0])]
    } else if !expand {
        seq![
            "    conflicts: "@ + decimal_text(conflicts.len()) + ", first "@ + shown_text(
                conflicts[0],
            ),
        ]
    } else {
        seq!["    conflicts: "@ + decimal_text(conflicts.len())] + path_lines("      "@, conflicts)
    }
}

/// What is said of a session's blocked entries.
pub open spec fn status_blocked_lines(blocked: Seq<Seq<char>>) -> Seq<Seq<char>> {
    if blocked.len() == 0 {
        Seq::empty()
    } else if blocked.len() == 1 {
        seq!["    blocked: 1, "@ + shown_text(blocked[0])]
    } else {
        seq![
            "    blocked: "@ + decimal_text(blocked.len()) + ", first "@ + shown_text(blocked[0]),
        ]
    }
}

/// What is said of a session's last error: only what the wrapping comes down
/// to.
pub open spec fn status_error_lines(error: Option<Seq<char>>, working: bool) -> Seq<Seq<char>> {
    match error {
        Some(error) => {
            let detail = shown_text(after_last(error, ": "@));
            if working {
                seq!["    "@ + "last error"@ + ": "@ + detail]
            } else {
                seq!["    "@ + "error"@ + ": "@ + detail]
            }
        },
        None => Seq::empty(),
    }
}

/// What is said of a session.
pub open spec fn entry_lines(
    destination: Seq<char>,
    mode: Seq<char>,
    status: Option<SessionStatus>,
    reported: Option<Reported>,
    live: bool,
    expand_conflicts: bool,
    now: u64,
) -> Seq<Seq<char>> {
    let working = worth_saying(reported, live);
    let first = seq!["  "@ + destination];
    let line = match (working, status) {
        (Some(progress), _) => working_lines(progress),
        (None, Some(status)) => seq![rest_text(status, now)],
        (None, None) => seq!["    status: \x1b[2mnever run\x1b[0m"@],
    };
    let head = first + line + seq!["    mode: "@ + mode];
    match status {
        None => head,
        Some(status) => head + status_conflict_lines(strings(status.conflicts@), expand_conflicts)
            + status_blocked_lines(strings(status.blocked@)) + status_error_lines(
            optional(status.error),
            working is Some,
        ),
    }
}

fn push_status_conflicts(lines: &mut Vec<String>, conflicts: &[String], expand: bool)
    ensures
        strings(final(lines)@) == strings(old(lines)@) + status_conflict_lines(
            strings(conflicts@),
            expand,
        ),
{
    let ghost start = strings(lines@);
    let ghost all = strings(conflicts@);
    if conflicts.len() == 1 {
        let mut line = "    conflicts: 1, ".to_owned();
        let shown = display_safe(conflicts[0].as_str());
        line.append(shown.as_str());
        push_line(lines, line);
    } else if conflicts.len() > 1 {
        let mut line = "    conflicts: ".to_owned();
        let count = decimal(conflicts.len() as u64);
        line.append(count.as_str());
        if !expand {
            line.append(", first ");
            let shown = display_safe(conflicts[0].as_str());
            line.append(shown.as_str());
            push_line(lines, line);
        } else {
            let ghost head = line@;
            push_line(lines, line);
            let ghost rest = path_lines("      "@, all);
            let ghost base = start.push(head);
            let mut i: usize = 0;
            assert(base + rest.take(0) =~= base);
            while i < conflicts.len()
                invariant
                    i <= conflicts@.len(),
                    all == strings(conflicts@),
                    rest == path_lines("      "@, all),
                    strings(lines@) == base + rest.take(i as int),
                decreases conflicts@.len() - i,
            {
                let mut line = "      ".to_owned();
                let shown = display_safe(conflicts[i].as_str());
                line.append(shown.as_str());
                push_line(lines, line);
                assert(rest.take(i + 1) =~= rest.take(i as int).push(rest[i as int]));
                assert(strings(lines@) =~= base + rest.take(i + 1));
                i += 1;
            }
            assert(rest.take(rest.len() as int) =~= rest);
        }
    }
    assert(strings(lines@) =~= start + status_conflict_lines(all, expand));
}

fn push_status_blocked(lines: &mut Vec<String>, blocked: &[String])
    ensures
        strings(final(lines)@) == strings(old(lines)@) + status_blocked_lines(strings(blocked@)),
{
    let ghost start = strings(lines@);
    let ghost all = strings(blocked@);
    if blocked.len() == 1 {
        let mut line = "    blocked: 1, ".to_owned();
        let shown = display_safe(blocked[0].as_str());
        line.append(shown.as_str());
        push_line(lines, line);
    } else if blocked.len() > 1 {
        let mut line = "    blocked: ".to_owned();
        let count = decimal(blocked.len() as u64);
        line.append(count.as_str());
        line.append(", first ");
        let shown = display_safe(blocked[0].as_str());
        line.append(shown.as_str());
        push_line(lines, line);
    }
    assert(strings(lines@) =~= start + status_blocked_lines(all));
}

fn push_status_error(lines: &mut Vec<String>, error: &Option<String>, working: bool)
    ensures
        strings(final(lines)@) == strings(old(lines)@) + status_error_lines(
            optional(*error),
            working,
        ),
{
    let ghost start = strings(lines@);
    if let Some(error) = error {
        let mark = chars_of(": ");
        proof {
            reveal_strlit(": ");
        }
        let detail = after_last_of(chars_of(error.as_str()).as_slice(), mark.as_slice());
        let detail = string_of(detail.as_slice());
        let shown = display_safe(detail.as_str());
        let mut line = "    ".to_owned();
        if working {
            line.append("last error");
        } else {
            line.append("error");
        }
        line.append(": ");
        line.append(shown.as_str());
        push_line(lines, line);
    }
    assert(strings(lines@) =~= start + status_error_lines(optional(*error), working));
}

proof fn lemma_joins(
    start: Seq<Seq<char>>,
    a: Seq<Seq<char>>,
    b: Seq<Seq<char>>,
    c: Seq<Seq<char>>,
    d: Seq<Seq<char>>,
)
    ensures
        start + a + b + c + d == start + (a + b + c + d),
{
    assert(start + a + b + c + d =~= start + (a + b + c + d));
}

/// Says how a session stands: what it is at work on, where that is worth a
/// line, or how its last cycle ended.
pub fn render_status_entry(
    destination: &str,
    mode: &str,
    status: Option<&SessionStatus>,
    reported: Option<&Reported>,
    live: bool,
    expand_conflicts: bool,
    now: u64,
    lines: &mut Vec<String>,
)
    requires
        reported matches Some(r) ==> showable(r.progress),
    ensures
        strings(final(lines)@) == strings(old(lines)@) + entry_lines(
            destination@,
            mode@,
            (match status {
                Some(status) => Some(*status),
                None => None,
            }),
            (match reported {
                Some(reported) => Some(*reported),
                None => None,
            }),
            live,
            expand_conflicts,
            now,
        ),
{
    let ghost start = strings(lines@);
    let mut line = "  ".to_owned();
    line.append(destination);
    let ghost first = line@;
    push_line(lines, line);
    let working: Option<&ProgressSnapshot> = match reported {
        Some(reported) => if reported.progress.phase.is_working() && (live
            || reported.working_seconds >= SLOW_PHASE_SECONDS) {
            Some(&reported.progress)
        } else {
            None
        },
        None => None,
    };
    let ghost before = strings(lines@);
    match working {
        Some(progress) => {
            render_working(progress, lines);
        },
        None => match status {
            Some(status) => {
                push_line(lines, rest_line(status, now));
            },
            None => {
                push_line(lines, "    status: \x1b[2mnever run\x1b[0m".to_owned());
            },
        },
    }
    let mut line = "    mode: ".to_owned();
    line.append(mode);
    let ghost last = line@;
    push_line(lines, line);
    let ghost middle: Seq<Seq<char>> = match (working, status) {
        (Some(progress), _) => working_lines(*progress),
        (None, Some(status)) => seq![rest_text(*status, now)],
        (None, None) => seq!["    status: \x1b[2mnever run\x1b[0m"@],
    };
    let ghost head = seq![first] + middle + seq![last];
    assert(strings(lines@) =~= start + head);
    if let Some(status) = status {
        push_status_conflicts(lines, status.conflicts.as_slice(), expand_conflicts);
        push_status_blocked(lines, status.blocked.as_slice());
        push_status_error(lines, &status.error, working.is_some());
        proof {
            lemma_joins(
                start,
                head,
                status_conflict_lines(strings(status.conflicts@), expand_conflicts),
                status_blocked_lines(strings(status.blocked@)),
                status_error_lines(optional(status.error), working is Some),
            );
        }
    }
}

// ---------------------------------------------------------------------------
// A group
// ---------------------------------------------------------------------------

/// Whether nothing of a session is worth a line of its own.
pub open spec fn quiet(status: Option<SessionStatus>, reported: Option<Reported>) -> bool {
    &&& status matches Some(s) && s.state@ == "synchronized"@ && s.conflicts@.len() == 0
        && s.blocked@.len() == 0 && s.error is None && s.cycles > 0
    &&& reported matches Some(r) ==> r.progress.phase != Phase::Paused && (r.progress.phase
        != Phase::Waiting ==> r.working_seconds < SLOW_PHASE_SECONDS)
}

/// When the newest of the records from `from` up to `n` was made.
pub open spec fn newest(statuses: Seq<Option<SessionStatus>>, from: int, n: int) -> u64
    decreases n - from,
{
    if n <= from {
        0
    } else {
        let before = newest(statuses, from, n - 1);
        match statuses[n - 1] {
            Some(status) => if status.updated_at > before {
                status.updated_at
            } else {
                before
            },
            None => before,
        }
    }
}

/// What the last of the sessions from `from` up to `n` that is at work is
/// doing.
pub open spec fn doing(reported: Seq<Option<Reported>>, from: int, n: int) -> Option<Phase>
    decreases n - from,
{
    if n <= from {
        None
    } else {
        match reported[n - 1] {
            Some(r) => if r.progress.phase != Phase::Waiting {
                Some(r.progress.phase)
            } else {
                doing(reported, from, n - 1)
            },
            None => doing(reported, from, n - 1),
        }
    }
}

/// The one line for a group of which nothing is worth a line of its own.
pub open spec fn collapsed(
    statuses: Seq<Option<SessionStatus>>,
    reported: Seq<Option<Reported>>,
    from: int,
    to: int,
    live: bool,
    now: u64,
) -> Option<Seq<char>> {
    if forall|k: int| from <= k < to ==> quiet(#[trigger] statuses[k], reported[k]) {
        let line = "✓ "@ + decimal_text((to - from) as nat) + " synchronized · last cycle "@
            + age_text(seconds_before(now, newest(statuses, from, to)));
        match doing(reported, from, to) {
            Some(phase) => if live {
                Some(line + " · \x1b[2m"@ + phase.text() + "\x1b[0m"@)
            } else {
                Some(line)
            },
            None => Some(line),
        }
    } else {
        None
    }
}

fn is_quiet(status: &Option<SessionStatus>, reported: &Option<Reported>) -> (r: bool)
    ensures
        r == quiet(*status, *reported),
{
    let fine = match status {
        Some(s) => same_text(s.state.as_str(), "synchronized") && s.conflicts.len() == 0
            && s.blocked.len() == 0 && s.error.is_none() && s.cycles > 0,
        None => false,
    };
    fine && match reported {
        Some(r) => match r.progress.phase {
            Phase::Paused => false,
            Phase::Waiting => true,
            _ => r.working_seconds < SLOW_PHASE_SECONDS,
        },
        None => true,
    }
}

/// The one line for a group of which nothing is worth a line of its own.
pub fn collapsed_group(
    statuses: &[Option<SessionStatus>],
    reported: &[Option<Reported>],
    from: usize,
    to: usize,
    live: bool,
    now: u64,
) -> (r: Option<String>)
    requires
        from <= to <= statuses@.len(),
        statuses@.len() == reported@.len(),
    ensures
        optional(r) == collapsed(statuses@, reported@, from as int, to as int, live, now),
{
    let mut latest: u64 = 0;
    let mut phase: Option<Phase> = None;
    let mut k: usize = from;
    while k < to
        invariant
            from <= k <= to,
            to <= statuses@.len(),
            statuses@.len() == reported@.len(),
            latest == newest(statuses@, from as int, k as int),
            phase == doing(reported@, from as int, k as int),
            forall|j: int| from <= j < k ==> quiet(#[trigger] statuses@[j], reported@[j]),
        decreases to - k,
    {
        if !is_quiet(&statuses[k], &reported[k]) {
            assert(!quiet(statuses@[k as int], reported@[k as int]));
            return None;
        }
        if let Some(status) = &statuses[k] {
            if status.updated_at > latest {
                latest = status.updated_at;
            }
        }
        if let Some(r) = &reported[k] {
            if r.progress.phase.is_working() {
                phase = Some(r.progress.phase);
            }
        }
        k += 1;
    }
    let mut line = "✓ ".to_owned();
    let count = decimal((to - from) as u64);
    line.append(count.as_str());
    line.append(" synchronized · last cycle ");
    let age = format_age_at(latest, now);
    line.append(age.as_str());
    if live {
        if let Some(phase) = phase {
            line.append(" · \x1b[2m");
            line.append(phase.label());
            line.append("\x1b[0m");
        }
    }
    Some(line)
}

// ---------------------------------------------------------------------------
// All sessions
// ---------------------------------------------------------------------------

/// What decides how sessions are shown.
#[derive(Clone, Copy, Debug)]
pub struct StatusOptions {
    /// Every conflict is named.
    pub expand_conflicts: bool,
    /// Every session has lines of its own.
    pub expand: bool,
    /// The display is repainted.
    pub live: bool,
}

/// What a supervisor's socket answered.
pub struct Supervisor {
    /// Why the supervisor that runs cannot be spoken to, if it cannot.
    pub mismatch: Option<String>,
    /// Whether one runs.
    pub running: bool,
    /// What the login service reports; `None` where that is not known.
    pub service: Option<ServiceState>,
    /// Why the configuration was refused, if it was.
    pub notice: Option<String>,
}

/// What to do where no supervisor runs.
pub open spec fn remedy_text(service: Option<ServiceState>) -> Seq<char> {
    match service {
        Some(ServiceState::NotInstalled) =>
            "run `autobahn watch` here, or `autobahn install` for a login service"@,
        Some(ServiceState::Stopped) =>
            "the login service is installed but stopped; run `autobahn start`"@,
        Some(ServiceState::Running) => "the login service reports running, but is not answering"@,
        None => "run `autobahn watch`"@,
    }
}

/// What is said of the supervisor, before the sessions.
pub open spec fn supervisor_lines(supervisor: Supervisor) -> Seq<Seq<char>> {
    let first = match supervisor.mismatch {
        Some(mismatch) => seq![
            "\x1b[33ma supervisor of another build is running\x1b[0m; what follows is the state last recorded, not what is happening now\n"@
                + mismatch@ + "\n"@,
        ],
        None => if !supervisor.running {
            seq![
                "\x1b[33mno supervisor is running\x1b[0m; what follows is the state last recorded, not what is happening now\n"@
                    + remedy_text(supervisor.service) + "\n"@,
            ]
        } else {
            Seq::empty()
        },
    };
    match supervisor.notice {
        Some(notice) => if supervisor.running {
            first.push(
                "\x1b[33mthe configuration was refused\x1b[0m; the sessions run on under the last one that loaded\n"@
                    + shown_text(notice@) + "\n"@,
            )
        } else {
            first
        },
        None => first,
    }
}

fn push_supervisor(lines: &mut Vec<String>, supervisor: &Supervisor)
    ensures
        strings(final(lines)@) == strings(old(lines)@) + supervisor_lines(*supervisor),
{
    let ghost start = strings(lines@);
    if let Some(mismatch) = &supervisor.mismatch {
        let mut line =
            "\x1b[33ma supervisor of another build is running\x1b[0m; what follows is the state last recorded, not what is happening now\n".to_owned();
        line.append(mismatch.as_str());
        line.append("\n");
        push_line(lines, line);
    } else if !supervisor.running {
        let mut line =
            "\x1b[33mno supervisor is running\x1b[0m; what follows is the state last recorded, not what is happening now\n".to_owned();
        match supervisor.service {
            Some(ServiceState::NotInstalled) => {
                line.append("run `autobahn watch` here, or `autobahn install` for a login service");
            },
            Some(ServiceState::Stopped) => {
                line.append("the login service is installed but stopped; run `autobahn start`");
            },
            Some(ServiceState::Running) => {
                line.append("the login service reports running, but is not answering");
            },
            None => {
                line.append("run `autobahn watch`");
            },
        }
        line.append("\n");
        push_line(lines, line);
    }
    if supervisor.running {
        if let Some(notice) = &supervisor.notice {
            let mut line =
                "\x1b[33mthe configuration was refused\x1b[0m; the sessions run on under the last one that loaded\n".to_owned();
            let shown = display_safe(notice.as_str());
            line.append(shown.as_str());
            line.append("\n");
            push_line(lines, line);
        }
    }
    assert(strings(lines@) =~= start + supervisor_lines(*supervisor));
}

/// Where the run of sessions of one group that begins at `from` ends.
pub open spec fn run_end(plans: Seq<SessionPlan>, from: int, to: int) -> int
    decreases plans.len() - to,
{
    if to < plans.len() && plans[to].group@ == plans[from].group@ {
        run_end(plans, from, to + 1)
    } else {
        to
    }
}

/// The role a group's first session has, with its term.
pub open spec fn role_text(status: Option<SessionStatus>) -> Seq<char> {
    match status {
        Some(status) => if status.role@.len() > 0 {
            "  "@ + shown_text(status.role@) + " (term "@ + decimal_text(status.term as nat) + ")"@
        } else {
            Seq::empty()
        },
        None => Seq::empty(),
    }
}

/// The sessions to show.
pub struct Rows<'a> {
    /// Their plans.
    pub plans: &'a [SessionPlan],
    /// Their records.
    pub statuses: &'a [Option<SessionStatus>],
    /// What is reported of them.
    pub reported: &'a [Option<Reported>],
}

impl<'a> Rows<'a> {
    /// Whether there is one of each for every session, and all of it can be
    /// shown.
    pub open spec fn well_formed(&self) -> bool {
        &&& self.plans@.len() == self.statuses@.len()
        &&& self.plans@.len() == self.reported@.len()
        &&& forall|k: int|
            0 <= k < self.reported@.len() ==> ((#[trigger] self.reported@[k]) matches Some(r)
                ==> showable(r.progress))
    }
}

/// What is said of the sessions from `from` up to `n`, each on its own.
pub open spec fn own_lines(rows: Rows, options: StatusOptions, now: u64, from: int, n: int) -> Seq<
    Seq<char>,
>
    decreases n - from,
{
    if n <= from {
        Seq::empty()
    } else {
        own_lines(rows, options, now, from, n - 1) + entry_lines(
            rows.plans@[n - 1].beta_spec@,
            rows.plans@[n - 1].mode.text(),
            rows.statuses@[n - 1],
            rows.reported@[n - 1],
            options.live,
            options.expand_conflicts,
            now,
        )
    }
}

/// What is said of a group.
pub open spec fn run_lines(rows: Rows, options: StatusOptions, now: u64, from: int, to: int) -> Seq<
    Seq<char>,
> {
    let plan = rows.plans@[from];
    let heading = "\x1b[1m"@ + plan.alpha_spec@ + "\x1b[0m \x1b[2m"@ + plan.group@ + role_text(
        rows.statuses@[from],
    ) + "\x1b[0m"@;
    let one = collapsed(rows.statuses@, rows.reported@, from, to, options.live, now);
    if !options.expand && one is Some {
        seq![heading + "  "@ + one->0]
    } else {
        seq![heading] + own_lines(rows, options, now, from, to)
    }
}

/// What is said of the sessions from `from` on, group by group.
pub open spec fn rows_lines(rows: Rows, options: StatusOptions, now: u64, from: int) -> Seq<
    Seq<char>,
>
    decreases rows.plans@.len() - from,
{
    if from < 0 || from >= rows.plans@.len() {
        Seq::empty()
    } else {
        let to = run_end(rows.plans@, from, from + 1);
        let blank: Seq<Seq<char>> = if from > 0 {
            seq![Seq::empty()]
        } else {
            Seq::empty()
        };
        if from < to <= rows.plans@.len() {
            blank + run_lines(rows, options, now, from, to) + rows_lines(rows, options, now, to)
        } else {
            Seq::empty()
        }
    }
}

fn find_run_end(plans: &[SessionPlan], from: usize) -> (to: usize)
    requires
        from < plans@.len(),
    ensures
        to == run_end(plans@, from as int, from + 1),
        from < to <= plans@.len(),
{
    let count: usize = plans.len();
    let mut to: usize = from + 1;
    while to < count && same_text(plans[to].group.as_str(), plans[from].group.as_str())
        invariant
            from < to <= plans@.len(),
            count == plans@.len(),
            run_end(plans@, from as int, from + 1) == run_end(plans@, from as int, to as int),
        decreases plans@.len() - to,
    {
        to += 1;
    }
    to
}

fn push_run(
    lines: &mut Vec<String>,
    rows: &Rows,
    options: &StatusOptions,
    now: u64,
    from: usize,
    to: usize,
)
    requires
        rows.well_formed(),
        from < to <= rows.plans@.len(),
    ensures
        strings(final(lines)@) == strings(old(lines)@) + run_lines(
            *rows,
            *options,
            now,
            from as int,
            to as int,
        ),
{
    let ghost start = strings(lines@);
    let plan = &rows.plans[from];
    let mut heading = "\x1b[1m".to_owned();
    heading.append(plan.alpha_spec.as_str());
    heading.append("\x1b[0m \x1b[2m");
    heading.append(plan.group.as_str());
    let mut role = String::new();
    if let Some(status) = &rows.statuses[from] {
        if !status.role.as_str().is_empty() {
            role = "  ".to_owned();
            let shown = display_safe(status.role.as_str());
            role.append(shown.as_str());
            role.append(" (term ");
            let term = decimal(status.term);
            role.append(term.as_str());
            role.append(")");
        }
    }
    assert(role@ =~= role_text(rows.statuses@[from as int]));
    heading.append(role.as_str());
    heading.append("\x1b[0m");
    if !options.expand {
        if let Some(line) = collapsed_group(
            rows.statuses,
            rows.reported,
            from,
            to,
            options.live,
            now,
        ) {
            heading.append("  ");
            heading.append(line.as_str());
            push_line(lines, heading);
            assert(strings(lines@) =~= start + run_lines(
                *rows,
                *options,
                now,
                from as int,
                to as int,
            ));
            return ;
        }
    }
    let ghost head = heading@;
    push_line(lines, heading);
    let ghost base = start.push(head);
    let mut k: usize = from;
    assert(base + own_lines(*rows, *options, now, from as int, from as int) =~= base);
    while k < to
        invariant
            rows.well_formed(),
            from <= k <= to,
            to <= rows.plans@.len(),
            strings(lines@) == base + own_lines(*rows, *options, now, from as int, k as int),
        decreases to - k,
    {
        let plan = &rows.plans[k];
        let status: Option<&SessionStatus> = match &rows.statuses[k] {
            Some(status) => Some(status),
            None => None,
        };
        let reported: Option<&Reported> = match &rows.reported[k] {
            Some(reported) => Some(reported),
            None => None,
        };
        assert(reported matches Some(r) ==> showable(r.progress)) by {
            assert(rows.reported@[k as int] matches Some(r) ==> showable(r.progress));
        }
        render_status_entry(
            plan.beta_spec.as_str(),
            plan.mode.name(),
            status,
            reported,
            options.live,
            options.expand_conflicts,
            now,
            lines,
        );
        proof {
            let before = own_lines(*rows, *options, now, from as int, k as int);
            let more = entry_lines(
                rows.plans@[k as int].beta_spec@,
                rows.plans@[k as int].mode.text(),
                rows.statuses@[k as int],
                rows.reported@[k as int],
                options.live,
                options.expand_conflicts,
                now,
            );
            lemma_joins(base, before, more, Seq::empty(), Seq::empty());
            lemma_empties(base + before + more);
            lemma_empties(before + more);
        }
        k += 1;
    }
    proof {
        let own = own_lines(*rows, *options, now, from as int, to as int);
        assert(base + own =~= start + (seq![head] + own));
    }
}

proof fn lemma_empties(a: Seq<Seq<char>>)
    ensures
        a + Seq::<Seq<char>>::empty() + Seq::<Seq<char>>::empty() == a,
{
    assert(a + Seq::<Seq<char>>::empty() =~= a);
}

/// Says how sessions stand, group by group: a group of which nothing is worth
/// a line of its own takes one line.
pub fn render_status(supervisor: &Supervisor, rows: &Rows, options: &StatusOptions, now: u64) -> (r:
    Vec<String>)
    requires
        rows.well_formed(),
    ensures
        strings(r@) == supervisor_lines(*supervisor) + rows_lines(*rows, *options, now, 0),
{
    let mut lines: Vec<String> = Vec::new();
    assert(strings(lines@) =~= Seq::<Seq<char>>::empty());
    push_supervisor(&mut lines, supervisor);
    let ghost intro = supervisor_lines(*supervisor);
    assert(strings(lines@) =~= intro);
    let mut from: usize = 0;
    while from < rows.plans.len()
        invariant
            rows.well_formed(),
            from <= rows.plans@.len(),
            strings(lines@) + rows_lines(*rows, *options, now, from as int) == intro + rows_lines(
                *rows,
                *options,
                now,
                0,
            ),
        decreases rows.plans@.len() - from,
    {
        let ghost before = strings(lines@);
        let ghost rest = rows_lines(*rows, *options, now, from as int);
        let to = find_run_end(rows.plans, from);
        if from > 0 {
            push_line(&mut lines, String::new());
        }
        let ghost blank: Seq<Seq<char>> = if from > 0 {
            seq![Seq::empty()]
        } else {
            Seq::empty()
        };
        assert(strings(lines@) =~= before + blank);
        push_run(&mut lines, rows, options, now, from, to);
        proof {
            let run = run_lines(*rows, *options, now, from as int, to as int);
            let next = rows_lines(*rows, *options, now, to as int);
            assert(rest == blank + run + next);
            assert(before + blank + run + next =~= before + (blank + run + next));
        }
        from = to;
    }
    assert(strings(lines@) + rows_lines(*rows, *options, now, from as int) =~= strings(lines@));
    lines
}

// ---------------------------------------------------------------------------
// What was last recorded
// ---------------------------------------------------------------------------

/// A session as it was last recorded, without its plan.
#[derive(Debug)]
pub struct Recorded {
    /// The group.
    pub group: String,
    /// What the destination is called.
    pub host: String,
    /// The beta root.
    pub beta: String,
    /// The state, in a word.
    pub state: String,
    /// What went wrong, if anything did.
    pub error: Option<String>,
}

/// Whether another session than that at `i` has its group and host.
pub open spec fn shares_name(sessions: Seq<Recorded>, i: int) -> bool {
    exists|k: int|
        0 <= k < sessions.len() && k != i && (#[trigger] sessions[k]).group@ == sessions[i].group@
            && sessions[k].host@ == sessions[i].host@
}

/// What a session is called: group and host, and the beta root where those do
/// not tell it from another.
pub open spec fn recorded_name(sessions: Seq<Recorded>, i: int) -> Seq<char> {
    let name = sessions[i].group@ + "@"@ + sessions[i].host@;
    if shares_name(sessions, i) {
        name + " ("@ + sessions[i].beta@ + ")"@
    } else {
        name
    }
}

/// What is said of a session as it was last recorded.
pub open spec fn recorded_text(sessions: Seq<Recorded>, i: int) -> Seq<char> {
    let line = "  "@ + shown_text(recorded_name(sessions, i)) + "  "@ + sessions[i].state@;
    match sessions[i].error {
        Some(error) => line + ": "@ + shown_text(error@),
        None => line,
    }
}

fn has_namesake(sessions: &[Recorded], i: usize) -> (r: bool)
    requires
        i < sessions@.len(),
    ensures
        r == shares_name(sessions@, i as int),
{
    let mut k: usize = 0;
    while k < sessions.len()
        invariant
            k <= sessions@.len(),
            i < sessions@.len(),
            forall|j: int|
                0 <= j < k && j != i ==> !((#[trigger] sessions@[j]).group@
                    == sessions@[i as int].group@ && sessions@[j].host@
                    == sessions@[i as int].host@),
        decreases sessions@.len() - k,
    {
        if k != i && same_text(sessions[k].group.as_str(), sessions[i].group.as_str())
            && same_text(sessions[k].host.as_str(), sessions[i].host.as_str()) {
            return true;
        }
        k += 1;
    }
    false
}

/// Says how sessions were last recorded, where the configuration does not
/// load.
pub fn show_recorded(sessions: &[Recorded], error: &str) -> (r: Vec<String>)
    ensures
        strings(r@) == seq![
            "\x1b[33mthe configuration does not load\x1b[0m, so what follows is every session's state as last recorded\n"@
                + shown_text(error@) + "\n"@,
        ] + (if sessions@.len() == 0 {
            seq!["no session has recorded a state"@]
        } else {
            Seq::new(sessions@.len(), |i: int| recorded_text(sessions@, i))
        }),
{
    let mut lines: Vec<String> = Vec::new();
    assert(strings(lines@) =~= Seq::<Seq<char>>::empty());
    let mut line =
        "\x1b[33mthe configuration does not load\x1b[0m, so what follows is every session's state as last recorded\n".to_owned();
    let shown = display_safe(error);
    line.append(shown.as_str());
    line.append("\n");
    let ghost head = seq![line@];
    push_line(&mut lines, line);
    assert(strings(lines@) =~= head);
    if sessions.len() == 0 {
        push_line(&mut lines, "no session has recorded a state".to_owned());
        assert(strings(lines@) =~= head + seq!["no session has recorded a state"@]);
        return lines;
    }
    let ghost all = Seq::new(sessions@.len(), |i: int| recorded_text(sessions@, i));
    let mut i: usize = 0;
    assert(head + all.take(0) =~= head);
    while i < sessions.len()
        invariant
            i <= sessions@.len(),
            all == Seq::new(sessions@.len(), |i: int| recorded_text(sessions@, i)),
            strings(lines@) == head + all.take(i as int),
        decreases sessions@.len() - i,
    {
        let mut name = sessions[i].group.clone();
        name.append("@");
        name.append(sessions[i].host.as_str());
        if has_namesake(sessions, i) {
            name.append(" (");
            name.append(sessions[i].beta.as_str());
            name.append(")");
        }
        let mut line = "  ".to_owned();
        let shown = display_safe(name.as_str());
        line.append(shown.as_str());
        line.append("  ");
        line.append(sessions[i].state.as_str());
        if let Some(error) = &sessions[i].error {
            line.append(": ");
            let shown = display_safe(error.as_str());
            line.append(shown.as_str());
        }
        push_line(&mut lines, line);
        assert(all.take(i + 1) =~= all.take(i as int).push(all[i as int]));
        assert(strings(lines@) =~= head + all.take(i + 1));
        i += 1;
    }
    assert(all.take(all.len() as int) =~= all);
    lines
}

// ---------------------------------------------------------------------------
// How status is shown
// ---------------------------------------------------------------------------

/// How status is shown, or why it is not.
#[derive(Clone, Copy, Debug, PartialEq, Eq, Structural)]
pub enum StatusView {
    /// There is nothing to show.
    Empty,
    /// As one document.
    Document,
    /// Repainted.
    Live,
    /// As text.
    Text,
    /// Not at all: a document is not repainted.
    LiveDocument,
    /// Not at all: the output that would be repainted is not a terminal.
    NoTerminal,
}

/// How status is shown.
pub open spec fn shown_as(
    no_plans: bool,
    selective: bool,
    live: bool,
    json: bool,
    terminal: bool,
) -> StatusView {
    if no_plans && !selective {
        if json {
            StatusView::Document
        } else {
            StatusView::Empty
        }
    } else if live {
        if json {
            StatusView::LiveDocument
        } else if !terminal {
            StatusView::NoTerminal
        } else {
            StatusView::Live
        }
    } else if json {
        StatusView::Document
    } else {
        StatusView::Text
    }
}

/// How status is shown. With nothing configured and nothing selected there is
/// nothing to show; a live display needs a terminal and no document.
pub fn status_view(no_plans: bool, selective: bool, live: bool, json: bool, terminal: bool) -> (r:
    StatusView)
    ensures
        r == shown_as(no_plans, selective, live, json, terminal),
{
    if no_plans && !selective {
        if json {
            StatusView::Document
        } else {
            StatusView::Empty
        }
    } else if live {
        if json {
            StatusView::LiveDocument
        } else if !terminal {
            StatusView::NoTerminal
        } else {
            StatusView::Live
        }
    } else if json {
        StatusView::Document
    } else {
        StatusView::Text
    }
}

// ---------------------------------------------------------------------------
// Laws
// ---------------------------------------------------------------------------

/// A share is told in whole percent, rounded down, and never as all.
pub proof fn law_a_share_is_rounded_down(done: int, total: int)
    requires
        0 <= done,
        done * 100 <= u64::MAX,
        0 < total,
    ensures
        0 <= percent(done, total) <= 99,
        done >= total ==> percent(done, total) == 99,
        percent(done, total) * total <= done * 100,
        done * 100 < 99 * total ==> done * 100 < (percent(done, total) + 1) * total,
{
    let p = (done * 100) / total;
    assert(p * total <= done * 100 && done * 100 < (p + 1) * total && p >= 0) by (nonlinear_arith)
        requires
            p == (done * 100) / total,
            total > 0,
            done >= 0,
    ;
    assert(p > 99 ==> 99 * total <= p * total) by (nonlinear_arith)
        requires
            total > 0,
    ;
    assert(done >= total ==> p >= 100) by (nonlinear_arith)
        requires
            p == (done * 100) / total,
            total > 0,
            done >= 0,
    ;
    assert(p > 99 ==> done * 100 >= 100 * total) by (nonlinear_arith)
        requires
            p * total <= done * 100,
            total > 0,
    ;
}

/// What a session is doing is said where it does anything, and either the
/// status is live or it has been at it for five seconds.
pub proof fn law_work_is_said_once_it_takes_a_while(reported: Reported, live: bool)
    ensures
        worth_saying(None, live) is None,
        worth_saying(Some(reported), live) == (if reported.progress.phase == Phase::Waiting {
            None
        } else if live || reported.working_seconds >= 5 {
            Some(reported.progress)
        } else {
            None::<ProgressSnapshot>
        }),
{
}

/// A session is quiet exactly where it has run and is synchronized, with no
/// conflict, nothing blocked and no error, and is neither paused nor at work
/// for five seconds.
pub proof fn law_a_quiet_session_needs_nothing(
    status: SessionStatus,
    reported: Option<Reported>,
)
    ensures
        !quiet(None, reported),
        quiet(Some(status), reported) <==> {
            &&& status.state@ == "synchronized"@
            &&& status.conflicts@.len() == 0
            &&& status.blocked@.len() == 0
            &&& status.error is None
            &&& status.cycles >= 1
            &&& reported is None || (reported->0.progress.phase != Phase::Paused && (
            reported->0.progress.phase == Phase::Waiting || reported->0.working_seconds < 5))
        },
{
}

/// A group is told in one line only where every session of it is quiet.
pub proof fn law_only_a_quiet_group_is_collapsed(
    statuses: Seq<Option<SessionStatus>>,
    reported: Seq<Option<Reported>>,
    from: int,
    to: int,
    live: bool,
    now: u64,
    k: int,
)
    requires
        from <= k < to,
    ensures
        collapsed(statuses, reported, from, to, live, now) is Some ==> quiet(
            statuses[k],
            reported[k],
        ),
        (forall|i: int| from <= i < to ==> quiet(#[trigger] statuses[i], reported[i]))
            ==> collapsed(statuses, reported, from, to, live, now) is Some,
{
    assert(statuses[k] == statuses[k]);
}

/// The last cycle of a group is the newest of its sessions'.
pub proof fn law_the_newest_record_is_told(
    statuses: Seq<Option<SessionStatus>>,
    from: int,
    n: int,
)
    ensures
        forall|k: int|
            from <= k < n && (#[trigger] statuses[k]) is Some ==> statuses[k]->0.updated_at
                <= newest(statuses, from, n),
        newest(statuses, from, n) == 0 || exists|k: int|
            from <= k < n && (#[trigger] statuses[k]) is Some && statuses[k]->0.updated_at
                == newest(statuses, from, n),
    decreases n - from,
{
    if n > from {
        law_the_newest_record_is_told(statuses, from, n - 1);
        if newest(statuses, from, n) != newest(statuses, from, n - 1) {
            assert(statuses[n - 1] is Some);
        }
    }
}

/// What a group is doing is what the last of its sessions is that does
/// anything.
pub proof fn law_a_group_does_what_a_session_does(
    reported: Seq<Option<Reported>>,
    from: int,
    n: int,
)
    ensures
        doing(reported, from, n) is None <==> forall|k: int|
            from <= k < n ==> ((#[trigger] reported[k]) matches Some(r) ==> r.progress.phase
                == Phase::Waiting),
        doing(reported, from, n) matches Some(phase) ==> phase != Phase::Waiting && exists|k: int|
            from <= k < n && (#[trigger] reported[k]) is Some && reported[k]->0.progress.phase
                == phase,
    decreases n - from,
{
    if n > from {
        law_a_group_does_what_a_session_does(reported, from, n - 1);
        if doing(reported, from, n) != doing(reported, from, n - 1) {
            assert(reported[n - 1] is Some);
        }
    }
}

/// The sessions of a group that stand together are told together: a run goes
/// on as long as the group is the same.
pub proof fn law_a_run_is_of_one_group(plans: Seq<SessionPlan>, from: int, to: int)
    requires
        0 <= from < to <= plans.len(),
        forall|k: int| from <= k < to ==> (#[trigger] plans[k]).group@ == plans[from].group@,
    ensures
        to <= run_end(plans, from, to) <= plans.len(),
        forall|k: int|
            from <= k < run_end(plans, from, to) ==> (#[trigger] plans[k]).group@
                == plans[from].group@,
        run_end(plans, from, to) < plans.len() ==> plans[run_end(plans, from, to)].group@
            != plans[from].group@,
    decreases plans.len() - to,
{
    if to < plans.len() && plans[to].group@ == plans[from].group@ {
        law_a_run_is_of_one_group(plans, from, to + 1);
    }
}

/// How a session is labelled: by its state where it has failed or where nothing
/// is left, and otherwise by what is left.
pub proof fn law_a_session_is_labelled_by_what_is_left(status: SessionStatus)
    ensures
        failed_state(status.state@) ==> label_text(status) == status.state@,
        status.conflicts@.len() == 0 && status.blocked@.len() == 0 ==> label_text(status)
            == status.state@,
        !failed_state(status.state@) && status.conflicts@.len() > 0 && status.blocked@.len() == 0
            ==> label_text(status) == thousands_text(status.conflicts@.len()) + " conflicts"@,
        !failed_state(status.state@) && status.conflicts@.len() == 0 && status.blocked@.len() > 0
            ==> label_text(status) == thousands_text(status.blocked@.len()) + " blocked"@,
        !failed_state(status.state@) && status.conflicts@.len() > 0 && status.blocked@.len() > 0
            ==> label_text(status) == thousands_text(status.conflicts@.len()) + " conflicts"@
            + ", "@ + (thousands_text(status.blocked@.len()) + " blocked"@),
{
}

/// Conflicts, blocked paths and errors are told of exactly where there are any.
pub proof fn law_what_is_left_is_told_of(
    list: Seq<Seq<char>>,
    expand: bool,
    error: Option<Seq<char>>,
    working: bool,
)
    ensures
        status_conflict_lines(list, expand).len() == (if list.len() == 0 {
            0int
        } else if list.len() == 1 || !expand {
            1
        } else {
            1 + list.len() as int
        }),
        status_blocked_lines(list).len() == (if list.len() == 0 {
            0int
        } else {
            1
        }),
        status_error_lines(error, working).len() == (if error is Some {
            1int
        } else {
            0
        }),
{
}

/// An estimate is told exactly where there is one that is not nothing.
pub proof fn law_an_estimate_is_told_where_there_is_one(left: u64)
    ensures
        left_text(None).len() == 0,
        left_text(Some(0u64)).len() == 0,
        left > 0 ==> left_text(Some(left)) == ", about "@ + duration_text(
            rounded_estimate(left as nat),
        ) + " left"@,
{
}

/// Where no supervisor runs, or one of another build, that is said first; where
/// one runs that refused the configuration, that is.
pub proof fn law_a_missing_supervisor_is_told_of(supervisor: Supervisor)
    ensures
        supervisor_lines(supervisor).len() == (if supervisor.mismatch is Some
            || !supervisor.running {
            1int
        } else {
            0
        }) + (if supervisor.notice is Some && supervisor.running {
            1int
        } else {
            0
        }),
{
}

/// Status is shown once unless a live display is asked for, which a document
/// and the want of a terminal refuse. Where nothing is configured and nothing
/// was selected, that is said, or an empty document given.
pub proof fn law_a_live_display_needs_a_terminal(
    no_plans: bool,
    selective: bool,
    live: bool,
    json: bool,
    terminal: bool,
)
    ensures
        ({
            let view = shown_as(no_plans, selective, live, json, terminal);
            let nothing = no_plans && !selective;
            &&& view == StatusView::Empty <==> nothing && !json
            &&& view == StatusView::Document <==> json && (nothing || !live)
            &&& view == StatusView::Live <==> !nothing && live && !json && terminal
            &&& view == StatusView::LiveDocument <==> !nothing && live && json
            &&& view == StatusView::NoTerminal <==> !nothing && live && !json && !terminal
            &&& view == StatusView::Text <==> !nothing && !live && !json
        }),
{
}

} // verus!
