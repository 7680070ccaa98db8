//! What needs someone: conflicts, blocked paths and failed sessions, with
//! what to do about each.
use crate::command::blocked::{
    blocked_fix, blocked_parts, blocked_path, clustered, clusters, counted, entry_parts, entry_path,
    fixes_for, pasteable, pasted, picks, roll_up, rolled, PathFilter,
};
use crate::command::format::{age_text, format_age_at, format_size, seconds_before, size_text};
use crate::command::resolve::{conflicts_text, conflicts_words, push_line};
use crate::command::scope::{covers, is_covered};
use crate::command::select::text_option;
use crate::plan::{
    failed_state, is_failed, ConflictDetail, ConflictSide, SessionPlan, SessionStatus,
    Unsynchronizable,
};
use crate::text::{
    chars_of, debug_text, debugged, decimal, decimal_text, display_safe, has_prefix, holds_text,
    same_text, segments, shown_text, split, str_starts_with, string_of, strings, texts,
};
use vstd::prelude::*;
use vstd::slice::slice_subrange;

verus! {

// ---------------------------------------------------------------------------
// What is kept
// ---------------------------------------------------------------------------

/// Whether a path is looked at: in the scope, where there is one, and picked
/// by the filter, where there is one.
pub open spec fn kept(scope: Option<Seq<char>>, filter: Option<PathFilter>, path: Seq<char>) -> bool {
    (scope matches Some(folder) ==> covers(folder, path)) && (filter matches Some(f) ==> picks(
        f.pattern(),
        path,
    ))
}

/// Whether a filter, where there is one, is well formed.
pub open spec fn filter_ok(filter: Option<PathFilter>) -> bool {
    filter matches Some(f) ==> f.well_formed()
}

/// Whether a path is looked at.
pub fn is_kept(scope: Option<&str>, filter: &Option<PathFilter>, path: &str) -> (r: bool)
    requires
        filter_ok(*filter),
    ensures
        r == kept(text_option(scope), *filter, path@),
{
    let inside = match scope {
        Some(folder) => is_covered(folder, path),
        None => true,
    };
    inside && match filter {
        Some(filter) => filter.matches(path),
        None => true,
    }
}

/// What of a blocked entry is looked at: its path, or all of it where it
/// names no side.
pub open spec fn entry_subject(entry: Seq<char>) -> Seq<char> {
    match entry_path(entry) {
        Some(path) => path,
        None => entry,
    }
}

/// Whether a blocked entry is looked at.
pub fn is_entry_kept(scope: Option<&str>, filter: &Option<PathFilter>, entry: &str) -> (r: bool)
    requires
        filter_ok(*filter),
    ensures
        r == kept(text_option(scope), *filter, entry_subject(entry@)),
{
    match blocked_path(entry) {
        Some(path) => is_kept(scope, filter, path.as_str()),
        None => is_kept(scope, filter, entry),
    }
}

/// The conflicts that are looked at.
pub open spec fn kept_paths(
    paths: Seq<Seq<char>>,
    scope: Option<Seq<char>>,
    filter: Option<PathFilter>,
) -> Seq<Seq<char>> {
    paths.filter(|path: Seq<char>| kept(scope, filter, path))
}

/// The blocked entries that are looked at.
pub open spec fn kept_entries(
    entries: Seq<Seq<char>>,
    scope: Option<Seq<char>>,
    filter: Option<PathFilter>,
) -> Seq<Seq<char>> {
    entries.filter(|entry: Seq<char>| kept(scope, filter, entry_subject(entry)))
}

/// The conflicts that are looked at.
pub fn keep_paths(paths: &[String], scope: Option<&str>, filter: &Option<PathFilter>) -> (r: Vec<
    String,
>)
    requires
        filter_ok(*filter),
    ensures
        strings(r@) == kept_paths(strings(paths@), text_option(scope), *filter),
{
    let ghost all = strings(paths@);
    let ghost test = |path: Seq<char>| kept(text_option(scope), *filter, path);
    let mut r: Vec<String> = Vec::new();
    let mut i: usize = 0;
    proof {
        reveal(Seq::filter);
        assert(strings(r@) =~= all.take(0).filter(test));
    }
    while i < paths.len()
        invariant
            i <= paths@.len(),
            all == strings(paths@),
            filter_ok(*filter),
            test == (|path: Seq<char>| kept(text_option(scope), *filter, path)),
            strings(r@) == all.take(i as int).filter(test),
        decreases paths@.len() - i,
    {
        proof {
            reveal(Seq::filter);
            assert(all.take(i + 1).drop_last() =~= all.take(i as int));
            assert(all.take(i + 1).last() == paths@[i as int]@);
        }
        if is_kept(scope, filter, paths[i].as_str()) {
            push_line(&mut r, paths[i].clone());
        }
        i += 1;
    }
    assert(all.take(all.len() as int) =~= all);
    r
}

/// The blocked entries that are looked at.
pub fn keep_entries(entries: &[String], scope: Option<&str>, filter: &Option<PathFilter>) -> (r:
    Vec<String>)
    requires
        filter_ok(*filter),
    ensures
        strings(r@) == kept_entries(strings(entries@), text_option(scope), *filter),
{
    let ghost all = strings(entries@);
    let ghost test = |entry: Seq<char>| kept(text_option(scope), *filter, entry_subject(entry));
    let mut r: Vec<String> = Vec::new();
    let mut i: usize = 0;
    proof {
        reveal(Seq::filter);
        assert(strings(r@) =~= all.take(0).filter(test));
    }
    while i < entries.len()
        invariant
            i <= entries@.len(),
            all == strings(entries@),
            filter_ok(*filter),
            test == (|entry: Seq<char>| kept(text_option(scope), *filter, entry_subject(entry))),
            strings(r@) == all.take(i as int).filter(test),
        decreases entries@.len() - i,
    {
        proof {
            reveal(Seq::filter);
            assert(all.take(i + 1).drop_last() =~= all.take(i as int));
            assert(all.take(i + 1).last() == entries@[i as int]@);
        }
        if is_entry_kept(scope, filter, entries[i].as_str()) {
            push_line(&mut r, entries[i].clone());
        }
        i += 1;
    }
    assert(all.take(all.len() as int) =~= all);
    r
}

/// Whether a session has anything that needs someone.
pub open spec fn needs_someone(conflicts: nat, blocked: nat, state: Seq<char>) -> bool {
    conflicts > 0 || blocked > 0 || failed_state(state)
}

/// Whether a session has anything that needs someone, given how many
/// conflicts and blocked entries of it are looked at.
pub fn stays(conflicts: usize, blocked: usize, state: &str) -> (r: bool)
    ensures
        r == needs_someone(conflicts as nat, blocked as nat, state@),
{
    conflicts > 0 || blocked > 0 || is_failed(state)
}

// ---------------------------------------------------------------------------
// Conflicts, side by side
// ---------------------------------------------------------------------------

/// What one side of a conflict holds, in words.
pub open spec fn side_words(side: ConflictSide, now: u64) -> Seq<char> {
    if !side.present {
        "absent"@
    } else if side.kind@ == "file"@ {
        size_text(side.size as nat) + ", modified "@ + age_text(
            seconds_before(
                now,
                if side.mtime_seconds > 0 {
                    side.mtime_seconds as u64
                } else {
                    0
                },
            ),
        )
    } else {
        side.kind@
    }
}

/// What one side of a conflict holds, in words.
pub fn describe_side(side: &ConflictSide, now: u64) -> (r: String)
    ensures
        r@ == side_words(*side, now),
{
    if !side.present {
        return "absent".to_owned();
    }
    if same_text(side.kind.as_str(), "file") {
        let mut r = format_size(side.size);
        r.append(", modified ");
        let modified: u64 = if side.mtime_seconds > 0 {
            side.mtime_seconds as u64
        } else {
            0
        };
        let age = format_age_at(modified, now);
        r.append(age.as_str());
        r
    } else {
        side.kind.clone()
    }
}

/// A text with spaces after it, up to a width.
pub open spec fn padded(s: Seq<char>, width: nat) -> Seq<char>
    decreases width - s.len(),
{
    if s.len() >= width {
        s
    } else {
        padded(s.push(' '), width)
    }
}

fn pad(s: &str, width: usize) -> (r: String)
    ensures
        r@ == padded(s@, width as nat),
{
    let mut r = s.to_owned();
    let mut n: usize = s.unicode_len();
    while n < width
        invariant
            n == r@.len(),
            padded(s@, width as nat) == padded(r@, width as nat),
        decreases width - n,
    {
        r.push(' ');
        n += 1;
    }
    r
}

/// What is said of content on a side that synchronization cannot carry.
pub open spec fn held_lines(blocking: Option<Unsynchronizable>, name: Seq<char>) -> Seq<Seq<char>> {
    match blocking {
        None => Seq::empty(),
        Some(blocking) => {
            let count = if blocking.entries == 1 {
                "1 entry"@
            } else {
                decimal_text(blocking.entries as nat) + " entries"@
            };
            seq![
                "        "@ + name + " holds "@ + count
                    + " synchronization cannot carry, so neither side is overwritten"@,
                "          "@ + shown_text(blocking.example@) + " — "@ + shown_text(
                    blocking.reason@,
                ),
            ]
        },
    }
}

fn push_held(lines: &mut Vec<String>, blocking: &Option<Unsynchronizable>, name: &str)
    ensures
        strings(final(lines)@) == strings(old(lines)@) + held_lines(*blocking, name@),
{
    let ghost start = strings(lines@);
    if let Some(blocking) = blocking {
        let mut line = "        ".to_owned();
        line.append(name);
        line.append(" holds ");
        if blocking.entries == 1 {
            line.append("1 entry");
        } else {
            let mut count = decimal(blocking.entries);
            count.append(" entries");
            line.append(count.as_str());
        }
        line.append(" synchronization cannot carry, so neither side is overwritten");
        push_line(lines, line);
        let mut line = "          ".to_owned();
        let example = display_safe(blocking.example.as_str());
        line.append(example.as_str());
        line.append(" — ");
        let reason = display_safe(blocking.reason.as_str());
        line.append(reason.as_str());
        push_line(lines, line);
    }
    assert(strings(lines@) =~= start + held_lines(*blocking, name@));
}

/// The first detail recorded for a path among those from `from` on.
pub open spec fn detail_of(details: Seq<ConflictDetail>, path: Seq<char>, from: int) -> Option<int>
    decreases details.len() - from,
{
    if from < 0 || from >= details.len() {
        None
    } else if details[from].path@ == path {
        Some(from)
    } else {
        detail_of(details, path, from + 1)
    }
}

/// What is said of one conflict.
pub open spec fn conflict_lines(
    details: Seq<ConflictDetail>,
    path: Seq<char>,
    host: Seq<char>,
    now: u64,
) -> Seq<Seq<char>> {
    let first = seq!["      "@ + shown_text(path)];
    match detail_of(details, path, 0) {
        None => first,
        Some(i) => first + seq![
            "        alpha  "@ + side_words(details[i].alpha, now),
            "        "@ + padded(host, 6) + " "@ + side_words(details[i].beta, now),
        ] + held_lines(details[i].alpha.unsynchronizable, "alpha"@) + held_lines(
            details[i].beta.unsynchronizable,
            host,
        ),
    }
}

fn find_detail(details: &[ConflictDetail], path: &str) -> (r: Option<usize>)
    ensures
        match r {
            Some(i) => detail_of(details@, path@, 0) == Some(i as int) && i < details@.len(),
            None => detail_of(details@, path@, 0) is None,
        },
{
    let mut i: usize = 0;
    while i < details.len()
        invariant
            i <= details@.len(),
            detail_of(details@, path@, 0) == detail_of(details@, path@, i as int),
        decreases details@.len() - i,
    {
        if same_text(details[i].path.as_str(), path) {
            return Some(i);
        }
        i += 1;
    }
    None
}

fn push_conflict(
    lines: &mut Vec<String>,
    details: &[ConflictDetail],
    path: &str,
    host: &str,
    now: u64,
)
    ensures
        strings(final(lines)@) == strings(old(lines)@) + conflict_lines(
            details@,
            path@,
            host@,
            now,
        ),
{
    let ghost start = strings(lines@);
    let mut line = "      ".to_owned();
    let shown = display_safe(path);
    line.append(shown.as_str());
    push_line(lines, line);
    if let Some(i) = find_detail(details, path) {
        let mut line = "        alpha  ".to_owned();
        let words = describe_side(&details[i].alpha, now);
        line.append(words.as_str());
        push_line(lines, line);
        let mut line = "        ".to_owned();
        let name = pad(host, 6);
        line.append(name.as_str());
        line.append(" ");
        let words = describe_side(&details[i].beta, now);
        line.append(words.as_str());
        push_line(lines, line);
        push_held(lines, &details[i].alpha.unsynchronizable, "alpha");
        push_held(lines, &details[i].beta.unsynchronizable, host);
    }
    assert(strings(lines@) =~= start + conflict_lines(details@, path@, host@, now));
}

/// What is said of the first `n` conflicts.
pub open spec fn all_conflict_lines(
    details: Seq<ConflictDetail>,
    paths: Seq<Seq<char>>,
    host: Seq<char>,
    now: u64,
    n: int,
) -> Seq<Seq<char>>
    decreases n,
{
    if n <= 0 {
        Seq::empty()
    } else {
        all_conflict_lines(details, paths, host, now, n - 1) + conflict_lines(
            details,
            paths[n - 1],
            host,
            now,
        )
    }
}

/// Where conflicts are resolved: the scope, the one path, or a blank to fill.
pub open spec fn resolve_where(scope: Option<Seq<char>>, selected: Seq<Seq<char>>) -> Seq<char> {
    match scope {
        Some(scope) => pasted(scope),
        None => if selected.len() == 1 {
            pasted(selected[0])
        } else {
            "<path>"@
        },
    }
}

/// The command that resolves conflicts.
pub open spec fn resolve_line(
    scope: Option<Seq<char>>,
    selected: Seq<Seq<char>>,
    plan: SessionPlan,
) -> Seq<char> {
    "      fix: autobahn resolve "@ + pasted(plan.group@) + " "@ + resolve_where(scope, selected)
        + " --keep alpha|"@ + plan.host@ + "|both"@
}

fn push_conflicts(
    lines: &mut Vec<String>,
    status: &SessionStatus,
    selected: &[String],
    scope: Option<&str>,
    plan: &SessionPlan,
    now: u64,
)
    ensures
        strings(final(lines)@) == strings(old(lines)@) + all_conflict_lines(
            status.conflict_details@,
            strings(selected@),
            plan.host@,
            now,
            selected@.len() as int,
        ) + (if selected@.len() > 0 {
            seq![resolve_line(text_option(scope), strings(selected@), *plan)]
        } else {
            Seq::empty()
        }),
{
    let ghost start = strings(lines@);
    let ghost paths = strings(selected@);
    let mut i: usize = 0;
    assert(start + all_conflict_lines(status.conflict_details@, paths, plan.host@, now, 0)
        =~= start);
    while i < selected.len()
        invariant
            i <= selected@.len(),
            paths == strings(selected@),
            strings(lines@) == start + all_conflict_lines(
                status.conflict_details@,
                paths,
                plan.host@,
                now,
                i as int,
            ),
        decreases selected@.len() - i,
    {
        let ghost before = strings(lines@);
        push_conflict(
            lines,
            status.conflict_details.as_slice(),
            selected[i].as_str(),
            plan.host.as_str(),
            now,
        );
        proof {
            let d = status.conflict_details@;
            let more = conflict_lines(d, paths[i as int], plan.host@, now);
            assert(strings(lines@) =~= start + (all_conflict_lines(
                d,
                paths,
                plan.host@,
                now,
                i as int,
            ) + more));
        }
        i += 1;
    }
    if selected.len() > 0 {
        let place = match scope {
            Some(scope) => pasteable(scope),
            None => if selected.len() == 1 {
                pasteable(selected[0].as_str())
            } else {
                "<path>".to_owned()
            },
        };
        let mut line = "      fix: autobahn resolve ".to_owned();
        let group = pasteable(plan.group.as_str());
        line.append(group.as_str());
        line.append(" ");
        line.append(place.as_str());
        line.append(" --keep alpha|");
        line.append(plan.host.as_str());
        line.append("|both");
        push_line(lines, line);
    }
    assert(strings(lines@) =~= start + all_conflict_lines(
        status.conflict_details@,
        paths,
        plan.host@,
        now,
        selected@.len() as int,
    ) + (if selected@.len() > 0 {
        seq![resolve_line(text_option(scope), paths, *plan)]
    } else {
        Seq::empty()
    }));
}

// ---------------------------------------------------------------------------
// Conflicts, rolled up
// ---------------------------------------------------------------------------

/// What is said of one group of conflicts: a group of one that is a conflict
/// itself is named without a count.
pub open spec fn rolled_line(group: (Seq<char>, int), selected: Seq<Seq<char>>) -> Seq<char> {
    let shown = "    "@ + shown_text(group.0);
    if group.1 == 1 && selected.contains(group.0) {
        shown
    } else {
        shown + " — "@ + conflicts_text(group.1 as nat)
    }
}

/// What is said of conflicts by their first `depth` segments below the scope.
pub open spec fn rolled_lines(
    selected: Seq<Seq<char>>,
    depth: nat,
    below: nat,
    group: Seq<char>,
) -> Seq<Seq<char>> {
    let groups = rolled(selected, depth + below);
    Seq::new(groups.len(), |i: int| rolled_line(groups[i], selected)).push(
        "    → `autobahn conflicts "@ + group + " --depth "@ + decimal_text(depth + 1)
            + "` opens the next level"@,
    )
}

fn push_rolled(lines: &mut Vec<String>, selected: &[String], depth: usize, below: usize, group: &str)
    requires
        depth + below <= usize::MAX,
        depth < usize::MAX,
    ensures
        strings(final(lines)@) == strings(old(lines)@) + rolled_lines(
            strings(selected@),
            depth as nat,
            below as nat,
            group@,
        ),
{
    let ghost start = strings(lines@);
    let groups = roll_up(selected, depth + below);
    let ghost all = rolled(strings(selected@), (depth + below) as nat);
    let ghost words = Seq::new(all.len(), |i: int| rolled_line(all[i], strings(selected@)));
    let mut i: usize = 0;
    assert(start + words.take(0) =~= start);
    while i < groups.len()
        invariant
            i <= groups@.len(),
            counted(groups@) == all,
            words == Seq::new(all.len(), |i: int| rolled_line(all[i], strings(selected@))),
            strings(lines@) == start + words.take(i as int),
        decreases groups@.len() - i,
    {
        assert(all[i as int] == (groups@[i as int].name@, groups@[i as int].count as int));
        let mut line = "    ".to_owned();
        let shown = display_safe(groups[i].name.as_str());
        line.append(shown.as_str());
        if !(groups[i].count == 1 && holds_text(selected, groups[i].name.as_str())) {
            line.append(" — ");
            let count = conflicts_words(groups[i].count);
            line.append(count.as_str());
        }
        push_line(lines, line);
        assert(words.take(i + 1) =~= words.take(i as int).push(words[i as int]));
        assert(strings(lines@) =~= start + words.take(i + 1));
        i += 1;
    }
    assert(words.take(words.len() as int) =~= words);
    let mut line = "    → `autobahn conflicts ".to_owned();
    line.append(group);
    line.append(" --depth ");
    let next = decimal((depth + 1) as u64);
    line.append(next.as_str());
    line.append("` opens the next level");
    push_line(lines, line);
    assert(strings(lines@) =~= start + rolled_lines(
        strings(selected@),
        depth as nat,
        below as nat,
        group@,
    ));
}

// ---------------------------------------------------------------------------
// Blocked paths, by cause
// ---------------------------------------------------------------------------

/// Blocked paths with one cause on one side.
struct Cause {
    side: String,
    cause: String,
    paths: Vec<String>,
}

/// Blocked paths with one cause on one side.
#[verifier::ext_equal]
pub struct CauseView {
    /// The side.
    pub side: Seq<char>,
    /// The cause.
    pub cause: Seq<char>,
    /// The paths.
    pub paths: Seq<Seq<char>>,
}

spec fn cause_views(causes: Seq<Cause>) -> Seq<CauseView> {
    Seq::new(
        causes.len(),
        |i: int|
            CauseView {
                side: causes[i].side@,
                cause: causes[i].cause@,
                paths: strings(causes[i].paths@),
            },
    )
}

/// Where a cause on a side stands among the first `n`, or `n`.
pub open spec fn cause_index(
    causes: Seq<CauseView>,
    side: Seq<char>,
    cause: Seq<char>,
    n: int,
) -> int
    decreases n,
{
    if n <= 0 {
        0
    } else if cause_index(causes, side, cause, n - 1) < n - 1 {
        cause_index(causes, side, cause, n - 1)
    } else if causes[n - 1].side == side && causes[n - 1].cause == cause {
        n - 1
    } else {
        n
    }
}

/// Causes with one more path.
pub open spec fn with_blocked(
    causes: Seq<CauseView>,
    parts: (Seq<char>, Seq<char>, Seq<char>),
) -> Seq<CauseView> {
    let i = cause_index(causes, parts.0, parts.2, causes.len() as int);
    if i < causes.len() {
        causes.update(
            i,
            CauseView { side: parts.0, cause: parts.2, paths: causes[i].paths.push(parts.1) },
        )
    } else {
        causes.push(CauseView { side: parts.0, cause: parts.2, paths: seq![parts.1] })
    }
}

/// Blocked entries by side and cause, in the order they came.
pub open spec fn by_cause(entries: Seq<Seq<char>>) -> Seq<CauseView>
    decreases entries.len(),
{
    if entries.len() == 0 {
        Seq::empty()
    } else {
        with_blocked(by_cause(entries.drop_last()), entry_parts(entries.last()))
    }
}

fn find_cause(causes: &Vec<Cause>, side: &str, cause: &str) -> (i: usize)
    ensures
        i == cause_index(cause_views(causes@), side@, cause@, causes@.len() as int),
        i <= causes@.len(),
        i < causes@.len() ==> causes@[i as int].side@ == side@ && causes@[i as int].cause@ == cause@,
{
    let mut found: usize = 0;
    let mut n: usize = 0;
    while n < causes.len()
        invariant
            n <= causes@.len(),
            found <= n,
            found == cause_index(cause_views(causes@), side@, cause@, n as int),
            found < n ==> causes@[found as int].side@ == side@ && causes@[found as int].cause@
                == cause@,
        decreases causes@.len() - n,
    {
        if found == n && !(same_text(causes[n].side.as_str(), side) && same_text(
            causes[n].cause.as_str(),
            cause,
        )) {
            found = n + 1;
        }
        n += 1;
    }
    found
}

fn gather_causes(entries: &[String]) -> (r: Vec<Cause>)
    ensures
        cause_views(r@) == by_cause(strings(entries@)),
{
    let ghost all = strings(entries@);
    let mut r: Vec<Cause> = Vec::new();
    let mut i: usize = 0;
    assert(cause_views(r@) =~= by_cause(all.take(0)));
    while i < entries.len()
        invariant
            i <= entries@.len(),
            all == strings(entries@),
            cause_views(r@) == by_cause(all.take(i as int)),
        decreases entries@.len() - i,
    {
        assert(all.take(i + 1).drop_last() =~= all.take(i as int));
        assert(all.take(i + 1).last() == entries@[i as int]@);
        let (side, path, cause) = blocked_parts(entries[i].as_str());
        let ghost parts = (side@, path@, cause@);
        let ghost before = cause_views(r@);
        let at = find_cause(&r, side.as_str(), cause.as_str());
        if at < r.len() {
            let mut paths = crate::text::copy_strings(r[at].paths.as_slice());
            let ghost so_far = strings(paths@);
            push_line(&mut paths, path);
            r.set(at, Cause { side, cause, paths });
            assert(cause_views(r@) =~= with_blocked(before, parts));
        } else {
            let mut paths: Vec<String> = Vec::new();
            paths.push(path);
            assert(strings(paths@) =~= seq![parts.1]);
            r.push(Cause { side, cause, paths });
            assert(cause_views(r@) =~= with_blocked(before, parts));
        }
        i += 1;
    }
    assert(all.take(all.len() as int) =~= all);
    r
}

/// The first of some paths from `from` on that starts with a text, or the
/// text itself.
pub open spec fn member_of(paths: Seq<Seq<char>>, prefix: Seq<char>, from: int) -> Seq<char>
    decreases paths.len() - from,
{
    if from < 0 || from >= paths.len() {
        prefix
    } else if has_prefix(paths[from], prefix) {
        paths[from]
    } else {
        member_of(paths, prefix, from + 1)
    }
}

/// What is said of one cluster of blocked paths.
pub open spec fn cluster_line(cluster: (Seq<char>, int), paths: Seq<Seq<char>>) -> Seq<char> {
    if cluster.1 == 1 {
        "      "@ + shown_text(member_of(paths, cluster.0, 0))
    } else if cluster.0.len() == 0 {
        "      "@ + decimal_text(cluster.1 as nat) + " paths"@
    } else {
        "      "@ + decimal_text(cluster.1 as nat) + " under "@ + shown_text(cluster.0) + "/"@
    }
}

/// The ways to fix a cluster of blocked paths, each on a line.
pub open spec fn fix_lines(fixes: Seq<Seq<char>>) -> Seq<Seq<char>> {
    Seq::new(
        fixes.len(),
        |i: int|
            if i == 0 {
                "        fix: "@ + fixes[i]
            } else {
                "             "@ + fixes[i]
            },
    )
}

/// What is said of the first `n` clusters of a cause.
pub open spec fn cluster_lines(cause: CauseView, plan: SessionPlan, n: int) -> Seq<Seq<char>>
    decreases n,
{
    if n <= 0 {
        Seq::empty()
    } else {
        let cluster = clustered(cause.paths)[n - 1];
        cluster_lines(cause, plan, n - 1).push(cluster_line(cluster, cause.paths)) + fix_lines(
            fixes_for(cause.side, cause.cause, cluster.0, plan),
        )
    }
}

/// A number of blocked paths, in words.
pub open spec fn blocked_text(n: nat) -> Seq<char> {
    if n == 1 {
        "1 blocked"@
    } else {
        decimal_text(n) + " blocked"@
    }
}

/// What is said of one cause.
pub open spec fn cause_lines(cause: CauseView, plan: SessionPlan) -> Seq<Seq<char>> {
    seq![
        "\n    \x1b[33m"@ + blocked_text(cause.paths.len()) + " on "@ + shown_text(cause.side)
            + "\x1b[0m \x1b[2m— "@ + shown_text(cause.cause) + "\x1b[0m"@,
    ] + cluster_lines(cause, plan, clustered(cause.paths).len() as int)
}

/// What is said of the first `n` causes.
pub open spec fn all_cause_lines(causes: Seq<CauseView>, plan: SessionPlan, n: int) -> Seq<Seq<char>>
    decreases n,
{
    if n <= 0 {
        Seq::empty()
    } else {
        all_cause_lines(causes, plan, n - 1) + cause_lines(causes[n - 1], plan)
    }
}

fn find_member(paths: &[String], prefix: &str) -> (r: String)
    ensures
        r@ == member_of(strings(paths@), prefix@, 0),
{
    let mut i: usize = 0;
    while i < paths.len()
        invariant
            i <= paths@.len(),
            member_of(strings(paths@), prefix@, 0) == member_of(strings(paths@), prefix@, i as int),
        decreases paths@.len() - i,
    {
        if str_starts_with(paths[i].as_str(), prefix) {
            return paths[i].clone();
        }
        i += 1;
    }
    prefix.to_owned()
}

fn push_fixes(lines: &mut Vec<String>, fixes: &[String])
    ensures
        strings(final(lines)@) == strings(old(lines)@) + fix_lines(strings(fixes@)),
{
    let ghost start = strings(lines@);
    let ghost all = fix_lines(strings(fixes@));
    let mut i: usize = 0;
    assert(start + all.take(0) =~= start);
    while i < fixes.len()
        invariant
            i <= fixes@.len(),
            all == fix_lines(strings(fixes@)),
            strings(lines@) == start + all.take(i as int),
        decreases fixes@.len() - i,
    {
        let mut line = if i == 0 {
            "        fix: ".to_owned()
        } else {
            "             ".to_owned()
        };
        line.append(fixes[i].as_str());
        push_line(lines, line);
        assert(all.take(i + 1) =~= all.take(i as int).push(all[i as int]));
        assert(strings(lines@) =~= start + all.take(i + 1));
        i += 1;
    }
    assert(all.take(all.len() as int) =~= all);
}

fn push_cause(lines: &mut Vec<String>, cause: &Cause, plan: &SessionPlan)
    ensures
        strings(final(lines)@) == strings(old(lines)@) + cause_lines(
            CauseView {
                side: cause.side@,
                cause: cause.cause@,
                paths: strings(cause.paths@),
            },
            *plan,
        ),
{
    let ghost start = strings(lines@);
    let ghost view = CauseView {
        side: cause.side@,
        cause: cause.cause@,
        paths: strings(cause.paths@),
    };
    let mut line = "\n    \x1b[33m".to_owned();
    if cause.paths.len() == 1 {
        line.append("1 blocked");
    } else {
        let mut count = decimal(cause.paths.len() as u64);
        count.append(" blocked");
        line.append(count.as_str());
    }
    line.append(" on ");
    let side = display_safe(cause.side.as_str());
    line.append(side.as_str());
    line.append("\x1b[0m \x1b[2m— ");
    let what = display_safe(cause.cause.as_str());
    line.append(what.as_str());
    line.append("\x1b[0m");
    let ghost heading = line@;
    push_line(lines, line);
    let groups = clusters(cause.paths.as_slice());
    let ghost all = clustered(view.paths);
    let mut i: usize = 0;
    assert(strings(lines@) =~= start + (seq![heading] + cluster_lines(view, *plan, 0)));
    while i < groups.len()
        invariant
            i <= groups@.len(),
            counted(groups@) == all,
            all == clustered(view.paths),
            view == (CauseView {
                side: cause.side@,
                cause: cause.cause@,
                paths: strings(cause.paths@),
            }),
            strings(lines@) == start + (seq![heading] + cluster_lines(view, *plan, i as int)),
        decreases groups@.len() - i,
    {
        assert(all[i as int] == (groups@[i as int].name@, groups@[i as int].count as int));
        let ghost before = strings(lines@);
        let name = &groups[i].name;
        let mut line = "      ".to_owned();
        if groups[i].count == 1 {
            let member = find_member(cause.paths.as_slice(), name.as_str());
            let shown = display_safe(member.as_str());
            line.append(shown.as_str());
        } else {
            let count = decimal(groups[i].count as u64);
            line.append(count.as_str());
            if name.as_str().is_empty() {
                line.append(" paths");
            } else {
                line.append(" under ");
                let shown = display_safe(name.as_str());
                line.append(shown.as_str());
                line.append("/");
            }
        }
        assert(line@ == cluster_line(all[i as int], view.paths));
        push_line(lines, line);
        let fixes = blocked_fix(
            cause.side.as_str(),
            cause.cause.as_str(),
            name.as_str(),
            plan,
        );
        push_fixes(lines, fixes.as_slice());
        proof {
            let next = cluster_lines(view, *plan, i + 1);
            assert(strings(lines@) =~= start + (seq![heading] + next));
        }
        i += 1;
    }
    assert(strings(lines@) =~= start + cause_lines(view, *plan));
}

fn push_causes(lines: &mut Vec<String>, entries: &[String], plan: &SessionPlan)
    ensures
        ({
            let causes = by_cause(strings(entries@));
            strings(final(lines)@) == strings(old(lines)@) + all_cause_lines(
                causes,
                *plan,
                causes.len() as int,
            )
        }),
{
    let ghost start = strings(lines@);
    let causes = gather_causes(entries);
    let ghost all = by_cause(strings(entries@));
    let mut i: usize = 0;
    assert(strings(lines@) =~= start + all_cause_lines(all, *plan, 0));
    while i < causes.len()
        invariant
            i <= causes@.len(),
            cause_views(causes@) == all,
            strings(lines@) == start + all_cause_lines(all, *plan, i as int),
        decreases causes@.len() - i,
    {
        push_cause(lines, &causes[i], plan);
        proof {
            let more = cause_lines(all[i as int], *plan);
            assert(strings(lines@) =~= start + (all_cause_lines(all, *plan, i as int) + more));
        }
        i += 1;
    }
}

// ---------------------------------------------------------------------------
// A session
// ---------------------------------------------------------------------------

/// A text without a repeated lead.
pub open spec fn without_lead(s: Seq<char>, lead: Seq<char>) -> Seq<char>
    decreases s.len(),
{
    if lead.len() > 0 && has_prefix(s, lead) {
        without_lead(s.skip(lead.len() as int), lead)
    } else {
        s
    }
}

fn drop_lead(s: &str, lead: &str) -> (r: String)
    requires
        lead@.len() > 0,
    ensures
        r@ == without_lead(s@, lead@),
{
    let all = chars_of(s);
    let mark = chars_of(lead);
    let mut from: usize = 0;
    assert(s@.skip(0) =~= s@);
    loop
        invariant
            from <= all@.len(),
            all@ == s@,
            mark@ == lead@,
            lead@.len() > 0,
            without_lead(s@, lead@) == without_lead(s@.skip(from as int), lead@),
        decreases all@.len() - from,
    {
        let rest = slice_subrange(all.as_slice(), from, all.len());
        assert(rest@ =~= s@.skip(from as int));
        if !crate::text::starts_with(rest, mark.as_slice()) {
            return string_of(rest);
        }
        assert(rest@.skip(lead@.len() as int) =~= s@.skip(from + lead@.len()));
        from = from + mark.len();
    }
}

/// What is said of a session that failed.
pub open spec fn failure_lines(status: SessionStatus) -> Seq<Seq<char>> {
    if !failed_state(status.state@) {
        Seq::empty()
    } else {
        let first = seq!["\n    \x1b[31m"@ + status.state@ + "\x1b[0m"@];
        let second = match status.error {
            Some(error) => first.push("      "@ + shown_text(without_lead(error@, "halted: "@))),
            None => first,
        };
        if status.state@ == "halted"@ {
            second.push("      fix: make the two sides agree, then it resumes"@)
        } else {
            second
        }
    }
}

/// How many segments a scope has.
pub open spec fn scope_depth(scope: Option<Seq<char>>) -> nat {
    match scope {
        Some(scope) => segments(scope, '/').len(),
        None => 0,
    }
}

/// What is said of a session's conflicts and blocked entries.
pub open spec fn body_lines(
    plan: SessionPlan,
    status: SessionStatus,
    selected: Seq<Seq<char>>,
    blocked: Seq<Seq<char>>,
    scope: Option<Seq<char>>,
    depth: Option<usize>,
    now: u64,
) -> Seq<Seq<char>> {
    match depth {
        Some(depth) => rolled_lines(selected, depth as nat, scope_depth(scope), plan.group@),
        None => all_conflict_lines(
            status.conflict_details@,
            selected,
            plan.host@,
            now,
            selected.len() as int,
        ) + (if selected.len() > 0 {
            seq![resolve_line(scope, selected, plan)]
        } else {
            Seq::empty()
        }) + all_cause_lines(by_cause(blocked), plan, by_cause(blocked).len() as int),
    }
}

/// What is said of a session below its group.
pub open spec fn session_lines(
    plan: SessionPlan,
    status: SessionStatus,
    scope: Option<Seq<char>>,
    filter: Option<PathFilter>,
    depth: Option<usize>,
    now: u64,
) -> Seq<Seq<char>> {
    let selected = kept_paths(strings(status.conflicts@), scope, filter);
    let blocked = kept_entries(strings(status.blocked@), scope, filter);
    let opening = seq!["  "@ + plan.beta_spec@] + failure_lines(status);
    let heading = if selected.len() > 0 {
        opening.push("\n    \x1b[33m"@ + conflicts_text(selected.len()) + "\x1b[0m"@)
    } else {
        opening
    };
    if selected.len() == 0 && blocked.len() == 0 {
        opening
    } else {
        heading + body_lines(plan, status, selected, blocked, scope, depth, now)
    }
}

/// Whether a session is shown.
pub open spec fn shows(
    status: SessionStatus,
    scope: Option<Seq<char>>,
    filter: Option<PathFilter>,
) -> bool {
    needs_someone(
        kept_paths(strings(status.conflicts@), scope, filter).len(),
        kept_entries(strings(status.blocked@), scope, filter).len(),
        status.state@,
    )
}

fn push_failure(lines: &mut Vec<String>, status: &SessionStatus)
    ensures
        strings(final(lines)@) == strings(old(lines)@) + failure_lines(*status),
{
    let ghost start = strings(lines@);
    if is_failed(status.state.as_str()) {
        let mut line = "\n    \x1b[31m".to_owned();
        line.append(status.state.as_str());
        line.append("\x1b[0m");
        push_line(lines, line);
        if let Some(error) = &status.error {
            proof {
                reveal_strlit("halted: ");
            }
            let detail = drop_lead(error.as_str(), "halted: ");
            let shown = display_safe(detail.as_str());
            let mut line = "      ".to_owned();
            line.append(shown.as_str());
            push_line(lines, line);
        }
        if same_text(status.state.as_str(), "halted") {
            push_line(
                lines,
                "      fix: make the two sides agree, then it resumes".to_owned(),
            );
        }
    }
    assert(strings(lines@) =~= start + failure_lines(*status));
}

fn push_body(
    lines: &mut Vec<String>,
    plan: &SessionPlan,
    status: &SessionStatus,
    selected: &[String],
    blocked: &[String],
    scope: Option<&str>,
    depth: Option<usize>,
    now: u64,
)
    requires
        depth matches Some(d) ==> d + scope_depth(text_option(scope)) < usize::MAX,
    ensures
        strings(final(lines)@) == strings(old(lines)@) + body_lines(
            *plan,
            *status,
            strings(selected@),
            strings(blocked@),
            text_option(scope),
            depth,
            now,
        ),
{
    if let Some(depth) = depth {
        let below: usize = match scope {
            Some(scope) => {
                let parts = split(chars_of(scope).as_slice(), '/');
                assert(texts(parts@).len() == parts@.len());
                parts.len()
            },
            None => 0,
        };
        push_rolled(lines, selected, depth, below, plan.group.as_str());
    } else {
        let ghost start = strings(lines@);
        push_conflicts(lines, status, selected, scope, plan, now);
        let ghost middle = strings(lines@);
        push_causes(lines, blocked, plan);
        proof {
            let causes = by_cause(strings(blocked@));
            let a = all_conflict_lines(
                status.conflict_details@,
                strings(selected@),
                plan.host@,
                now,
                selected@.len() as int,
            );
            let b = if selected@.len() > 0 {
                seq![resolve_line(text_option(scope), strings(selected@), *plan)]
            } else {
                Seq::empty()
            };
            let c = all_cause_lines(causes, *plan, causes.len() as int);
            lemma_three(start, a, b, c);
        }
    }
}

proof fn lemma_three(start: Seq<Seq<char>>, a: Seq<Seq<char>>, b: Seq<Seq<char>>, c: Seq<Seq<char>>)
    ensures
        start + a + b + c == start + (a + b + c),
{
    assert(start + a + b + c =~= start + (a + b + c));
}

fn push_session(
    lines: &mut Vec<String>,
    plan: &SessionPlan,
    status: &SessionStatus,
    scope: Option<&str>,
    filter: &Option<PathFilter>,
    depth: Option<usize>,
    now: u64,
)
    requires
        filter_ok(*filter),
        depth matches Some(d) ==> d + scope_depth(text_option(scope)) < usize::MAX,
    ensures
        strings(final(lines)@) == strings(old(lines)@) + session_lines(
            *plan,
            *status,
            text_option(scope),
            *filter,
            depth,
            now,
        ),
{
    let ghost start = strings(lines@);
    let selected = keep_paths(status.conflicts.as_slice(), scope, filter);
    let blocked = keep_entries(status.blocked.as_slice(), scope, filter);
    let ghost opening = seq!["  "@ + plan.beta_spec@] + failure_lines(*status);
    assert(strings(selected@).len() == selected@.len() && strings(blocked@).len()
        == blocked@.len());
    let mut line = "  ".to_owned();
    line.append(plan.beta_spec.as_str());
    push_line(lines, line);
    push_failure(lines, status);
    assert(strings(lines@) =~= start + opening);
    if selected.len() == 0 && blocked.len() == 0 {
        return ;
    }
    let ghost heading = if selected@.len() > 0 {
        opening.push("\n    \x1b[33m"@ + conflicts_text(selected@.len()) + "\x1b[0m"@)
    } else {
        opening
    };
    if selected.len() > 0 {
        let mut line = "\n    \x1b[33m".to_owned();
        let count = conflicts_words(selected.len());
        line.append(count.as_str());
        line.append("\x1b[0m");
        push_line(lines, line);
    }
    assert(strings(lines@) =~= start + heading);
    push_body(lines, plan, status, selected.as_slice(), blocked.as_slice(), scope, depth, now);
    proof {
        let body = body_lines(
            *plan,
            *status,
            strings(selected@),
            strings(blocked@),
            text_option(scope),
            depth,
            now,
        );
        lemma_three(start, heading, Seq::empty(), body);
        assert(heading + Seq::<Seq<char>>::empty() =~= heading);
        assert(start + heading + Seq::<Seq<char>>::empty() =~= start + heading);
    }
}

// ---------------------------------------------------------------------------
// All sessions
// ---------------------------------------------------------------------------

/// What decides what is said of issues.
pub struct IssueOptions {
    /// The path to look below, if any.
    pub scope: Option<String>,
    /// What picks paths, if anything.
    pub filter: Option<PathFilter>,
    /// The pattern that picks paths, as it was given.
    pub pattern: Option<String>,
    /// How many segments to show below the scope, where paths are rolled up.
    pub depth: Option<usize>,
}

impl IssueOptions {
    /// Whether the filter is well formed, and the depth one to count with.
    pub open spec fn well_formed(&self) -> bool {
        filter_ok(self.filter) && (self.depth matches Some(d) ==> d + scope_depth(
            crate::text::optional(self.scope),
        ) < usize::MAX)
    }
}

/// Whether the session at `i` is shown.
pub open spec fn shown_at(
    statuses: Seq<Option<SessionStatus>>,
    options: IssueOptions,
    i: int,
) -> bool {
    statuses[i] matches Some(status) && shows(
        status,
        crate::text::optional(options.scope),
        options.filter,
    )
}

/// The group of the last session shown among the first `n`.
pub open spec fn last_group(
    plans: Seq<SessionPlan>,
    statuses: Seq<Option<SessionStatus>>,
    options: IssueOptions,
    n: int,
) -> Option<Seq<char>>
    decreases n,
{
    if n <= 0 {
        None
    } else if shown_at(statuses, options, n - 1) {
        Some(plans[n - 1].group@)
    } else {
        last_group(plans, statuses, options, n - 1)
    }
}

/// What is said where a group begins.
pub open spec fn group_lines(plan: SessionPlan, last: Option<Seq<char>>) -> Seq<Seq<char>> {
    let heading = "\x1b[1m"@ + plan.alpha_spec@ + "\x1b[0m \x1b[2m"@ + plan.group@ + "\x1b[0m"@;
    if last == Some(plan.group@) {
        Seq::empty()
    } else if last is Some {
        seq![Seq::empty(), heading]
    } else {
        seq![heading]
    }
}

/// What is said of the first `n` sessions.
pub open spec fn issue_lines(
    plans: Seq<SessionPlan>,
    statuses: Seq<Option<SessionStatus>>,
    options: IssueOptions,
    now: u64,
    n: int,
) -> Seq<Seq<char>>
    decreases n,
{
    if n <= 0 {
        Seq::empty()
    } else {
        let front = issue_lines(plans, statuses, options, now, n - 1);
        if shown_at(statuses, options, n - 1) {
            front + group_lines(plans[n - 1], last_group(plans, statuses, options, n - 1))
                + session_lines(
                plans[n - 1],
                statuses[n - 1]->0,
                crate::text::optional(options.scope),
                options.filter,
                options.depth,
                now,
            )
        } else {
            front
        }
    }
}

/// What is said where nothing needs anyone.
pub open spec fn nothing_line(options: IssueOptions) -> Seq<char> {
    match (options.scope, options.pattern) {
        (Some(scope), _) => "nothing needs you under "@ + shown_text(scope@),
        (None, Some(pattern)) => "nothing needs you matching "@ + debugged(pattern@),
        (None, None) => "nothing needs you"@,
    }
}

/// Why issues are not shown.
#[derive(Clone, Copy, Debug, PartialEq, Eq)]
pub enum IssuesError {
    /// The depth counts path segments, so it starts at one.
    NoDepth,
    /// The depth is for reading, and a report for programs has none.
    DepthWithJson,
}

/// Whether issues can be reported the way they were asked for.
pub open spec fn depth_checked(depth: Option<usize>, json: bool) -> Result<(), IssuesError> {
    match depth {
        Some(depth) => if depth == 0 {
            Err(IssuesError::NoDepth)
        } else if json {
            Err(IssuesError::DepthWithJson)
        } else {
            Ok(())
        },
        None => Ok(()),
    }
}

/// Whether issues can be reported the way they were asked for.
pub fn check_depth(depth: Option<usize>, json: bool) -> (r: Result<(), IssuesError>)
    ensures
        r == depth_checked(depth, json),
{
    match depth {
        Some(depth) => if depth == 0 {
            Err(IssuesError::NoDepth)
        } else if json {
            Err(IssuesError::DepthWithJson)
        } else {
            Ok(())
        },
        None => Ok(()),
    }
}

/// What needs someone in the sessions, session by session, with what to do
/// about it. A session without a record is passed over.
pub fn issues(
    plans: &[SessionPlan],
    statuses: &[Option<SessionStatus>],
    options: &IssueOptions,
    now: u64,
) -> (r: Result<Vec<String>, IssuesError>)
    requires
        plans@.len() == statuses@.len(),
        options.well_formed(),
    ensures
        r is Err <==> options.depth == Some(0usize),
        r matches Err(error) ==> error == IssuesError::NoDepth,
        r matches Ok(lines) ==> strings(lines@) == (if last_group(
            plans@,
            statuses@,
            *options,
            plans@.len() as int,
        ) is Some {
            issue_lines(plans@, statuses@, *options, now, plans@.len() as int)
        } else {
            seq![nothing_line(*options)]
        }),
{
    if let Some(0) = options.depth {
        return Err(IssuesError::NoDepth);
    }
    let scope: Option<&str> = match &options.scope {
        Some(scope) => Some(scope.as_str()),
        None => None,
    };
    let mut lines: Vec<String> = Vec::new();
    let mut last: Option<usize> = None;
    let mut i: usize = 0;
    assert(strings(lines@) =~= issue_lines(plans@, statuses@, *options, now, 0));
    while i < plans.len()
        invariant
            i <= plans@.len(),
            plans@.len() == statuses@.len(),
            options.well_formed(),
            text_option(scope) == crate::text::optional(options.scope),
            strings(lines@) == issue_lines(plans@, statuses@, *options, now, i as int),
            match last {
                Some(k) => k < plans@.len() && last_group(plans@, statuses@, *options, i as int)
                    == Some(plans@[k as int].group@),
                None => last_group(plans@, statuses@, *options, i as int) is None,
            },
        decreases plans@.len() - i,
    {
        if let Some(status) = &statuses[i] {
            let selected = keep_paths(status.conflicts.as_slice(), scope, &options.filter);
            let blocked = keep_entries(status.blocked.as_slice(), scope, &options.filter);
            assert(strings(selected@).len() == selected@.len() && strings(blocked@).len()
                == blocked@.len());
            if stays(selected.len(), blocked.len(), status.state.as_str()) {
                assert(shown_at(statuses@, *options, i as int));
                let ghost before = strings(lines@);
                let ghost group = last_group(plans@, statuses@, *options, i as int);
                let plan = &plans[i];
                let fresh = match last {
                    Some(k) => !same_text(plans[k].group.as_str(), plan.group.as_str()),
                    None => true,
                };
                if fresh {
                    if last.is_some() {
                        push_line(&mut lines, String::new());
                    }
                    let mut line = "\x1b[1m".to_owned();
                    line.append(plan.alpha_spec.as_str());
                    line.append("\x1b[0m \x1b[2m");
                    line.append(plan.group.as_str());
                    line.append("\x1b[0m");
                    push_line(&mut lines, line);
                }
                assert(strings(lines@) =~= before + group_lines(*plan, group));
                push_session(
                    &mut lines,
                    plan,
                    status,
                    scope,
                    &options.filter,
                    options.depth,
                    now,
                );
                last = Some(i);
            }
        }
        i += 1;
    }
    if last.is_none() {
        let line = match (&options.scope, &options.pattern) {
            (Some(scope), _) => {
                let mut line = "nothing needs you under ".to_owned();
                let shown = display_safe(scope.as_str());
                line.append(shown.as_str());
                line
            },
            (None, Some(pattern)) => {
                let mut line = "nothing needs you matching ".to_owned();
                let quoted = debug_text(pattern.as_str());
                line.append(quoted.as_str());
                line
            },
            (None, None) => "nothing needs you".to_owned(),
        };
        let mut lines: Vec<String> = Vec::new();
        assert(strings(lines@) =~= Seq::<Seq<char>>::empty());
        push_line(&mut lines, line);
        assert(strings(lines@) =~= seq![nothing_line(*options)]);
        return Ok(lines);
    }
    Ok(lines)
}

// ---------------------------------------------------------------------------
// Laws
// ---------------------------------------------------------------------------

/// What a list keeps: exactly those of its paths that lie in the scope, where
/// there is one, and that the filter picks, where there is one. A blocked
/// entry is kept by the path it names.
pub proof fn law_what_is_kept_is_in_scope_and_picked(
    paths: Seq<Seq<char>>,
    scope: Option<Seq<char>>,
    filter: Option<PathFilter>,
    path: Seq<char>,
)
    ensures
        kept_paths(paths, scope, filter).contains(path) <==> paths.contains(path) && (scope is None
            || covers(scope->0, path)) && (filter is None || picks(filter->0.pattern(), path)),
        entry_path(path) matches Some(subject) ==> (kept_entries(paths, scope, filter).contains(path)
            <==> paths.contains(path) && (scope is None || covers(scope->0, subject)) && (
        filter is None || picks(filter->0.pattern(), subject))),
        kept_paths(paths, None, None) == paths,
        kept_entries(paths, None, None) == paths,
{
    lemma_filtered(paths, |p: Seq<char>| kept(scope, filter, p), path);
    lemma_filtered(paths, |p: Seq<char>| kept(scope, filter, entry_subject(p)), path);
    lemma_unfiltered(paths, |p: Seq<char>| kept(None, None, p));
    lemma_unfiltered(paths, |p: Seq<char>| kept(None, None, entry_subject(p)));
}

proof fn lemma_filtered<A>(list: Seq<A>, test: spec_fn(A) -> bool, a: A)
    ensures
        list.filter(test).contains(a) <==> list.contains(a) && test(a),
    decreases list.len(),
{
    reveal(Seq::filter);
    if list.len() > 0 {
        let front = list.drop_last();
        lemma_filtered(front, test, a);
        crate::text::lemma_pushed(front, list.last(), a);
        assert(front.push(list.last()) =~= list);
        crate::text::lemma_pushed(front.filter(test), list.last(), a);
    }
}

proof fn lemma_unfiltered<A>(list: Seq<A>, test: spec_fn(A) -> bool)
    requires
        forall|a: A| #[trigger] test(a),
    ensures
        list.filter(test) == list,
    decreases list.len(),
{
    reveal(Seq::filter);
    if list.len() > 0 {
        lemma_unfiltered(list.drop_last(), test);
        assert(list.drop_last().push(list.last()) =~= list);
    } else {
        assert(list =~= Seq::<A>::empty());
    }
}

/// A session is listed exactly where a conflict or a blocked entry of it is
/// kept, or it has failed. Where none is, it is said that nothing needs anyone.
pub proof fn law_a_session_is_listed_where_it_needs_someone(
    plans: Seq<SessionPlan>,
    statuses: Seq<Option<SessionStatus>>,
    options: IssueOptions,
    n: int,
    i: int,
)
    requires
        0 <= i < n <= statuses.len(),
    ensures
        shown_at(statuses, options, i) <==> statuses[i] is Some && ({
            let status = statuses[i]->0;
            let scope = crate::text::optional(options.scope);
            ||| kept_paths(strings(status.conflicts@), scope, options.filter).len() > 0
            ||| kept_entries(strings(status.blocked@), scope, options.filter).len() > 0
            ||| status.state@ == "halted"@
            ||| status.state@ == "unreachable"@
            ||| status.state@ == "errored"@
        }),
        last_group(plans, statuses, options, n) is None <==> forall|k: int|
            0 <= k < n ==> !#[trigger] shown_at(statuses, options, k),
{
    lemma_last_group(plans, statuses, options, n);
}

proof fn lemma_last_group(
    plans: Seq<SessionPlan>,
    statuses: Seq<Option<SessionStatus>>,
    options: IssueOptions,
    n: int,
)
    requires
        0 <= n <= statuses.len(),
    ensures
        last_group(plans, statuses, options, n) is None <==> forall|k: int|
            0 <= k < n ==> !#[trigger] shown_at(statuses, options, k),
    decreases n,
{
    if n > 0 {
        lemma_last_group(plans, statuses, options, n - 1);
    }
}

/// A failed session says so, with its error; another says nothing of a failure.
pub proof fn law_a_failure_is_said(status: SessionStatus)
    ensures
        status.state@ == "halted"@ || status.state@ == "unreachable"@ || status.state@
            == "errored"@ <==> failure_lines(status).len() > 0,
        failure_lines(status).len() > 0 && status.error is Some ==> failure_lines(status).len()
            >= 2,
{
}

/// Where a side of a conflict has nothing, that is said; a file is told by its
/// size and age, and anything else by what it is.
pub proof fn law_a_side_is_told_by_what_it_holds(side: ConflictSide, now: u64)
    ensures
        !side.present ==> side_words(side, now) == "absent"@,
        side.present && side.kind@ != "file"@ ==> side_words(side, now) == side.kind@,
        side.present && side.kind@ == "file"@ && 0 < side.mtime_seconds <= now ==> side_words(
            side,
            now,
        ) == size_text(side.size as nat) + ", modified "@ + age_text(
            (now - side.mtime_seconds) as nat,
        ),
{
}

/// Every blocked entry is told of under its side and its cause.
pub proof fn law_every_blocked_entry_has_its_cause(entries: Seq<Seq<char>>, i: int)
    requires
        0 <= i < entries.len(),
    ensures
        exists|k: int|
            0 <= k < by_cause(entries).len() && (#[trigger] by_cause(entries)[k]).side
                == entry_parts(entries[i]).0 && by_cause(entries)[k].cause == entry_parts(
                entries[i],
            ).2 && by_cause(entries)[k].paths.contains(entry_parts(entries[i]).1),
    decreases entries.len(),
{
    let front = entries.drop_last();
    let before = by_cause(front);
    let last = entry_parts(entries.last());
    let all = by_cause(entries);
    lemma_cause_index(before, last.0, last.2, before.len() as int);
    let at = cause_index(before, last.0, last.2, before.len() as int);
    let parts = entry_parts(entries[i]);
    if i < entries.len() - 1 {
        law_every_blocked_entry_has_its_cause(front, i);
        assert(front[i] == entries[i]);
        let k = choose|k: int|
            0 <= k < before.len() && (#[trigger] before[k]).side == parts.0 && before[k].cause
                == parts.2 && before[k].paths.contains(parts.1);
        if k == at {
            crate::text::lemma_pushed(before[k].paths, last.1, parts.1);
        }
        assert(all[k].side == parts.0 && all[k].cause == parts.2 && all[k].paths.contains(parts.1));
    } else {
        if at < before.len() {
            crate::text::lemma_pushed(before[at].paths, last.1, parts.1);
            assert(all[at].paths.contains(parts.1));
        } else {
            assert(all[at].paths[0] == parts.1);
            assert(all[at].paths.contains(parts.1));
        }
    }
}

proof fn lemma_cause_index(causes: Seq<CauseView>, side: Seq<char>, cause: Seq<char>, n: int)
    requires
        0 <= n <= causes.len(),
    ensures
        0 <= cause_index(causes, side, cause, n) <= n,
        cause_index(causes, side, cause, n) < n ==> causes[cause_index(
            causes,
            side,
            cause,
            n,
        )].side == side && causes[cause_index(causes, side, cause, n)].cause == cause,
    decreases n,
{
    if n > 0 {
        lemma_cause_index(causes, side, cause, n - 1);
    }
}

/// What is told of a conflict is what was recorded for its path.
pub proof fn law_a_conflict_is_told_by_its_own_detail(
    details: Seq<ConflictDetail>,
    path: Seq<char>,
)
    ensures
        match detail_of(details, path, 0) {
            Some(i) => 0 <= i < details.len() && details[i].path@ == path,
            None => forall|i: int| 0 <= i < details.len() ==> (#[trigger] details[i]).path@ != path,
        },
{
    lemma_detail(details, path, 0);
}

proof fn lemma_detail(details: Seq<ConflictDetail>, path: Seq<char>, from: int)
    requires
        0 <= from,
    ensures
        match detail_of(details, path, from) {
            Some(i) => from <= i < details.len() && details[i].path@ == path,
            None => forall|i: int|
                from <= i < details.len() ==> (#[trigger] details[i]).path@ != path,
        },
    decreases details.len() - from,
{
    if from < details.len() && details[from].path@ != path {
        lemma_detail(details, path, from + 1);
    }
}

/// A depth is of one at least, and is of no use in a document; without one
/// there is nothing to refuse.
pub proof fn law_a_depth_is_refused_where_it_says_nothing(depth: usize, json: bool)
    ensures
        depth_checked(None, json) is Ok,
        depth_checked(Some(0), json) == Err::<(), IssuesError>(IssuesError::NoDepth),
        depth > 0 ==> (depth_checked(Some(depth), json) is Ok <==> !json),
        depth > 0 && json ==> depth_checked(Some(depth), json) == Err::<(), IssuesError>(
            IssuesError::DepthWithJson,
        ),
{
}

/// A session needs someone where it has a conflict, a blocked entry, or a
/// failure.
pub proof fn law_what_needs_someone(conflicts: nat, blocked: nat, state: Seq<char>)
    ensures
        needs_someone(conflicts, blocked, state) <==> conflicts + blocked > 0 || failed_state(
            state,
        ),
{
}

} // verus!
