//! What a resolution reports once it has run.
use crate::command::resolve::{all_well_formed, push_line, Loser, PathPlan, Winner};
use crate::order::{before, lemma_slot_is, precedes, slot, sort_texts, sorted};
use crate::text::{
    decimal, decimal_text, display_safe, has_prefix, holds_text, same_text, shown_text, strings,
};
use vstd::prelude::*;

verus! {

/// A path and what is said of it.
#[derive(Debug)]
pub struct Noted {
    /// The path.
    pub path: String,
    /// What is said.
    pub text: String,
}

/// The paths and texts of notes.
pub open spec fn noted(notes: Seq<Noted>) -> Seq<(Seq<char>, Seq<char>)> {
    Seq::new(notes.len(), |i: int| (notes[i].path@, notes[i].text@))
}

/// The paths of notes.
pub open spec fn noted_paths(notes: Seq<(Seq<char>, Seq<char>)>) -> Seq<Seq<char>> {
    Seq::new(notes.len(), |i: int| notes[i].0)
}

/// Notes with one more in its place, unless its path has one already.
pub open spec fn with_note(
    notes: Seq<(Seq<char>, Seq<char>)>,
    path: Seq<char>,
    text: Seq<char>,
) -> Seq<(Seq<char>, Seq<char>)> {
    let i = slot(noted_paths(notes), path);
    if i < notes.len() && notes[i].0 == path {
        notes
    } else {
        notes.insert(i, (path, text))
    }
}

/// Notes why a path is not settled; the first reason for a path stands.
pub fn note(notes: &mut Vec<Noted>, path: &str, text: String)
    ensures
        noted(final(notes)@) == with_note(noted(old(notes)@), path@, text@),
{
    let ghost all = noted(notes@);
    let mut i: usize = 0;
    while i < notes.len() && precedes(notes[i].path.as_str(), path)
        invariant
            i <= notes@.len(),
            all == noted(notes@),
            forall|k: int| 0 <= k < i ==> before(#[trigger] noted_paths(all)[k], path@),
        decreases notes@.len() - i,
    {
        i += 1;
    }
    proof {
        lemma_slot_is(noted_paths(all), path@, i as int);
    }
    if i < notes.len() && same_text(notes[i].path.as_str(), path) {
        return;
    }
    let ghost added = (path@, text@);
    notes.insert(i, Noted { path: path.to_owned(), text });
    assert(noted(notes@) =~= all.insert(i as int, added));
}

/// The paths of notes.
pub fn note_paths(notes: &[Noted]) -> (r: Vec<String>)
    ensures
        strings(r@) == noted_paths(noted(notes@)),
{
    let mut r: Vec<String> = Vec::new();
    let mut i: usize = 0;
    while i < notes.len()
        invariant
            i <= notes@.len(),
            r@.len() == i,
            forall|k: int| 0 <= k < i ==> (#[trigger] r@[k])@ == notes@[k].path@,
        decreases notes@.len() - i,
    {
        r.push(notes[i].path.clone());
        i += 1;
    }
    assert(strings(r@) =~= noted_paths(noted(notes@)));
    r
}

/// How many removals settled their path: nothing that synchronization knows of
/// is left there. Each result is `None` where the path is gone, and otherwise
/// how many entries are left below it.
pub open spec fn settled_count(results: Seq<Option<usize>>) -> nat
    decreases results.len(),
{
    if results.len() == 0 {
        0
    } else {
        settled_count(results.drop_last()) + (match results.last() {
            None => 1nat,
            Some(left) => if left == 0 {
                1
            } else {
                0
            },
        })
    }
}

/// How many removals settled their path.
pub fn count_settled(results: &[Option<usize>]) -> (r: usize)
    ensures
        r == settled_count(results@),
        r <= results@.len(),
{
    let mut count: usize = 0;
    let mut i: usize = 0;
    while i < results.len()
        invariant
            i <= results@.len(),
            count <= i,
            count == settled_count(results@.take(i as int)),
        decreases results@.len() - i,
    {
        assert(results@.take(i + 1).drop_last() =~= results@.take(i as int));
        let settled = match results[i] {
            None => true,
            Some(left) => left == 0,
        };
        if settled {
            count += 1;
        }
        i += 1;
    }
    assert(results@.take(results@.len() as int) =~= results@);
    count
}

/// The paths of the first `n` of a loser's plans that agree with the winner.
pub open spec fn agreed_in(loser: Loser, n: int) -> Seq<Seq<char>>
    decreases n,
{
    if n <= 0 {
        Seq::empty()
    } else if loser.plans@[n - 1] is Agreed {
        agreed_in(loser, n - 1).push(loser.paths@[n - 1]@)
    } else {
        agreed_in(loser, n - 1)
    }
}

/// The paths that agree with the winner on some losing side.
pub open spec fn agreed_anywhere(losers: Seq<Loser>) -> Seq<Seq<char>>
    decreases losers.len(),
{
    if losers.len() == 0 {
        Seq::empty()
    } else {
        agreed_anywhere(losers.drop_last()) + agreed_in(
            losers.last(),
            losers.last().paths@.len() as int,
        )
    }
}

/// The paths that agree with the winner on some losing side, each once, in
/// order.
pub fn agreed_paths(losers: &[Loser]) -> (r: Vec<String>)
    requires
        all_well_formed(losers@),
    ensures
        strings(r@) == sorted(agreed_anywhere(losers@)),
{
    let mut r: Vec<String> = Vec::new();
    let mut i: usize = 0;
    assert(strings(r@) =~= agreed_anywhere(losers@.take(0)));
    while i < losers.len()
        invariant
            i <= losers@.len(),
            all_well_formed(losers@),
            strings(r@) == agreed_anywhere(losers@.take(i as int)),
        decreases losers@.len() - i,
    {
        let ghost start = strings(r@);
        let loser = &losers[i];
        assert(loser.well_formed());
        assert(losers@.take(i + 1).drop_last() =~= losers@.take(i as int));
        let mut k: usize = 0;
        assert(start + agreed_in(*loser, 0) =~= start);
        while k < loser.paths.len()
            invariant
                k <= loser.paths@.len(),
                loser.well_formed(),
                strings(r@) == start + agreed_in(*loser, k as int),
            decreases loser.paths@.len() - k,
        {
            let agreed = match &loser.plans[k] {
                PathPlan::Agreed => true,
                _ => false,
            };
            if agreed {
                push_line(&mut r, loser.paths[k].clone());
                assert(strings(r@) =~= start + agreed_in(*loser, k + 1));
            }
            k += 1;
        }
        i += 1;
    }
    assert(losers@.take(losers@.len() as int) =~= losers@);
    sort_texts(r.as_slice())
}

/// The paths of the first `n` that agree on every side: they were acted on
/// nowhere and blocked nowhere.
pub open spec fn untouched(
    agreed: Seq<Seq<char>>,
    acted: Seq<Seq<char>>,
    blocked: Seq<Seq<char>>,
    n: int,
) -> Seq<Seq<char>>
    decreases n,
{
    if n <= 0 {
        Seq::empty()
    } else if acted.contains(agreed[n - 1]) || blocked.contains(agreed[n - 1]) {
        untouched(agreed, acted, blocked, n - 1)
    } else {
        untouched(agreed, acted, blocked, n - 1).push(
            "  "@ + shown_text(agreed[n - 1]) + ": already the same on every side"@,
        )
    }
}

/// The lines on paths that are not settled.
pub open spec fn unsafe_lines(notes: Seq<(Seq<char>, Seq<char>)>) -> Seq<Seq<char>> {
    Seq::new(
        notes.len(),
        |i: int| "  "@ + shown_text(notes[i].0) + ": not settled — "@ + notes[i].1 + "."@,
    )
}

/// The lines on a path that is blocked on a side.
pub open spec fn blocked_lines_of(
    path: Seq<char>,
    side: Seq<char>,
    example: Seq<char>,
    reason: Seq<char>,
) -> Seq<Seq<char>> {
    let shown = shown_text(path);
    seq![
        "  "@ + shown + ": not settled — "@ + side + " holds "@ + shown_text(example) + " ("@
            + shown_text(reason) + "),"@,
        "    which cannot be deleted on your behalf. Either:"@,
        "      · ignore "@ + shown + " in this group, so it stops being compared, or"@,
        "      · `--keep both`, which moves the version aside instead of deleting it, or"@,
        "      · delete it on "@ + side + " by hand."@,
    ]
}

/// The lines on the blocked paths among the first `n` of a loser.
pub open spec fn blocked_lines(loser: Loser, n: int) -> Seq<Seq<char>>
    decreases n,
{
    if n <= 0 {
        Seq::empty()
    } else {
        let front = blocked_lines(loser, n - 1);
        match loser.plans@[n - 1] {
            PathPlan::Blocked { example, reason } => front + blocked_lines_of(
                loser.paths@[n - 1]@,
                loser.side@,
                example@,
                reason@,
            ),
            _ => front,
        }
    }
}

/// The lines on the blocked paths of losers.
pub open spec fn all_blocked_lines(losers: Seq<Loser>) -> Seq<Seq<char>>
    decreases losers.len(),
{
    if losers.len() == 0 {
        Seq::empty()
    } else {
        all_blocked_lines(losers.drop_last()) + blocked_lines(
            losers.last(),
            losers.last().paths@.len() as int,
        )
    }
}

/// The lines on removals that were refused.
pub open spec fn refused_lines(refused: Seq<(Seq<char>, Seq<char>)>) -> Seq<Seq<char>> {
    Seq::new(
        refused.len(),
        |i: int|
            "  left alone: "@ + shown_text(refused[i].0) + " — "@ + shown_text(refused[i].1),
    ) + (if refused.len() == 0 {
        Seq::empty()
    } else {
        seq![
            decimal_text(refused.len())
                + " path(s) changed while this ran and were not touched. Run the command again to settle them."@,
        ]
    })
}

/// The line on how much was settled.
pub open spec fn settled_line(settled: nat, total: nat, both: bool) -> Seq<char> {
    "settled "@ + decimal_text(settled) + " of "@ + decimal_text(total) + (if both {
        " (both versions kept)"@
    } else {
        " (one version kept)"@
    })
}

/// The line on what happens next.
pub open spec fn next_lines(settled: nat, supervised: bool) -> Seq<Seq<char>> {
    if settled == 0 {
        Seq::empty()
    } else if supervised {
        seq!["copying the kept version across now"@]
    } else {
        seq![
            "the supervisor is not running, so the kept version has not moved yet. Start it with `autobahn start`, or run `autobahn sync` once."@,
        ]
    }
}

/// Everything a resolution reports.
pub open spec fn report_lines(
    settled: nat,
    total: nat,
    both: bool,
    losers: Seq<Loser>,
    acted: Seq<Seq<char>>,
    blocked: Seq<Seq<char>>,
    notes: Seq<(Seq<char>, Seq<char>)>,
    refused: Seq<(Seq<char>, Seq<char>)>,
    supervised: bool,
) -> Seq<Seq<char>> {
    let agreed = sorted(agreed_anywhere(losers));
    seq![settled_line(settled, total, both)] + untouched(
        agreed,
        acted,
        blocked,
        agreed.len() as int,
    ) + unsafe_lines(notes) + all_blocked_lines(losers) + refused_lines(refused) + next_lines(
        settled,
        supervised,
    )
}

/// Appends the lines on the blocked paths of losers.
fn push_blocked(lines: &mut Vec<String>, losers: &[Loser])
    requires
        all_well_formed(losers@),
    ensures
        strings(final(lines)@) == strings(old(lines)@) + all_blocked_lines(losers@),
{
    let ghost base = strings(lines@);
    let mut i: usize = 0;
    assert(base + all_blocked_lines(losers@.take(0)) =~= base);
    while i < losers.len()
        invariant
            i <= losers@.len(),
            all_well_formed(losers@),
            strings(lines@) == base + all_blocked_lines(losers@.take(i as int)),
        decreases losers@.len() - i,
    {
        let loser = &losers[i];
        assert(loser.well_formed());
        assert(losers@.take(i + 1).drop_last() =~= losers@.take(i as int));
        let ghost start = strings(lines@);
        let mut k: usize = 0;
        assert(start + blocked_lines(*loser, 0) =~= start);
        while k < loser.paths.len()
            invariant
                k <= loser.paths@.len(),
                loser.well_formed(),
                strings(lines@) == start + blocked_lines(*loser, k as int),
            decreases loser.paths@.len() - k,
        {
            match &loser.plans[k] {
                PathPlan::Blocked { example, reason } => {
                    let ghost so_far = strings(lines@);
                    let shown = display_safe(loser.paths[k].as_str());
                    let mut line = "  ".to_owned();
                    line.append(shown.as_str());
                    line.append(": not settled — ");
                    line.append(loser.side.as_str());
                    line.append(" holds ");
                    let text = display_safe(example.as_str());
                    line.append(text.as_str());
                    line.append(" (");
                    let text = display_safe(reason.as_str());
                    line.append(text.as_str());
                    line.append("),");
                    push_line(lines, line);
                    push_line(
                        lines,
                        "    which cannot be deleted on your behalf. Either:".to_owned(),
                    );
                    let mut line = "      · ignore ".to_owned();
                    line.append(shown.as_str());
                    line.append(" in this group, so it stops being compared, or");
                    push_line(lines, line);
                    push_line(
                        lines,
                        "      · `--keep both`, which moves the version aside instead of deleting it, or".to_owned(),
                    );
                    let mut line = "      · delete it on ".to_owned();
                    line.append(loser.side.as_str());
                    line.append(" by hand.");
                    push_line(lines, line);
                    assert(strings(lines@) =~= so_far + blocked_lines_of(
                        loser.paths@[k as int]@,
                        loser.side@,
                        example@,
                        reason@,
                    ));
                    assert(strings(lines@) =~= start + blocked_lines(*loser, k + 1));
                },
                _ => {},
            }
            k += 1;
        }
        assert(strings(lines@) =~= base + all_blocked_lines(losers@.take(i + 1)));
        i += 1;
    }
    assert(losers@.take(losers@.len() as int) =~= losers@);
}

/// What a resolution reports: how much was settled, always, and then every
/// path that was not, with the reason.
pub fn report(
    settled: u64,
    total: usize,
    winner: Winner,
    losers: &[Loser],
    acted: &[String],
    blocked: &[String],
    notes: &[Noted],
    refused: &[Noted],
    supervised: bool,
) -> (r: Vec<String>)
    requires
        all_well_formed(losers@),
    ensures
        strings(r@) == report_lines(
            settled as nat,
            total as nat,
            winner == Winner::Both,
            losers@,
            strings(acted@),
            strings(blocked@),
            noted(notes@),
            noted(refused@),
            supervised,
        ),
{
    let mut lines: Vec<String> = Vec::new();
    assert(strings(lines@) =~= Seq::<Seq<char>>::empty());
    let mut line = "settled ".to_owned();
    let number = decimal(settled);
    line.append(number.as_str());
    line.append(" of ");
    let number = decimal(total as u64);
    line.append(number.as_str());
    if winner == Winner::Both {
        line.append(" (both versions kept)");
    } else {
        line.append(" (one version kept)");
    }
    push_line(&mut lines, line);
    let ghost first = seq![settled_line(settled as nat, total as nat, winner == Winner::Both)];
    assert(strings(lines@) =~= first);
    let agreed = agreed_paths(losers);
    let ghost same = strings(agreed@);
    let mut i: usize = 0;
    assert(same.len() == agreed@.len());
    assert(first + untouched(same, strings(acted@), strings(blocked@), 0) =~= first);
    while i < agreed.len()
        invariant
            i <= agreed@.len(),
            same == strings(agreed@),
            strings(lines@) == first + untouched(
                same,
                strings(acted@),
                strings(blocked@),
                i as int,
            ),
        decreases agreed@.len() - i,
    {
        if !holds_text(acted, agreed[i].as_str()) && !holds_text(blocked, agreed[i].as_str()) {
            let mut line = "  ".to_owned();
            let shown = display_safe(agreed[i].as_str());
            line.append(shown.as_str());
            line.append(": already the same on every side");
            push_line(&mut lines, line);
            assert(strings(lines@) =~= first + untouched(
                same,
                strings(acted@),
                strings(blocked@),
                i + 1,
            ));
        }
        i += 1;
    }
    let ghost second = strings(lines@);
    let ghost reasons = unsafe_lines(noted(notes@));
    let mut k: usize = 0;
    assert(second + reasons.take(0) =~= second);
    while k < notes.len()
        invariant
            k <= notes@.len(),
            reasons == unsafe_lines(noted(notes@)),
            strings(lines@) == second + reasons.take(k as int),
        decreases notes@.len() - k,
    {
        let mut line = "  ".to_owned();
        let shown = display_safe(notes[k].path.as_str());
        line.append(shown.as_str());
        line.append(": not settled — ");
        line.append(notes[k].text.as_str());
        line.append(".");
        push_line(&mut lines, line);
        assert(reasons.take(k + 1) =~= reasons.take(k as int).push(reasons[k as int]));
        assert(strings(lines@) =~= second + reasons.take(k + 1));
        k += 1;
    }
    assert(reasons.take(reasons.len() as int) =~= reasons);
    push_blocked(&mut lines, losers);
    let ghost third = strings(lines@);
    let ghost left = Seq::new(
        refused@.len(),
        |i: int|
            "  left alone: "@ + shown_text(noted(refused@)[i].0) + " — "@ + shown_text(
                noted(refused@)[i].1,
            ),
    );
    let mut m: usize = 0;
    assert(third + left.take(0) =~= third);
    while m < refused.len()
        invariant
            m <= refused@.len(),
            left == Seq::new(
                refused@.len(),
                |i: int|
                    "  left alone: "@ + shown_text(noted(refused@)[i].0) + " — "@ + shown_text(
                        noted(refused@)[i].1,
                    ),
            ),
            strings(lines@) == third + left.take(m as int),
        decreases refused@.len() - m,
    {
        let mut line = "  left alone: ".to_owned();
        let shown = display_safe(refused[m].path.as_str());
        line.append(shown.as_str());
        line.append(" — ");
        let shown = display_safe(refused[m].text.as_str());
        line.append(shown.as_str());
        push_line(&mut lines, line);
        assert(left.take(m + 1) =~= left.take(m as int).push(left[m as int]));
        assert(strings(lines@) =~= third + left.take(m + 1));
        m += 1;
    }
    assert(left.take(left.len() as int) =~= left);
    if refused.len() > 0 {
        let mut line = decimal(refused.len() as u64);
        line.append(
            " path(s) changed while this ran and were not touched. Run the command again to settle them.",
        );
        push_line(&mut lines, line);
    }
    assert(strings(lines@) =~= third + refused_lines(noted(refused@)));
    let ghost fourth = strings(lines@);
    if settled > 0 {
        if supervised {
            push_line(&mut lines, "copying the kept version across now".to_owned());
        } else {
            push_line(
                &mut lines,
                "the supervisor is not running, so the kept version has not moved yet. Start it with `autobahn start`, or run `autobahn sync` once.".to_owned(),
            );
        }
    }
    assert(strings(lines@) =~= fourth + next_lines(settled as nat, supervised));
    lines
}

/// The first note for a path stands, and every path that is noted has one.
pub proof fn law_the_first_note_for_a_path_stands(
    notes: Seq<(Seq<char>, Seq<char>)>,
    path: Seq<char>,
    text: Seq<char>,
    other: (Seq<char>, Seq<char>),
)
    requires
        crate::order::increasing(noted_paths(notes)),
    ensures
        noted_paths(with_note(notes, path, text)).contains(path),
        noted_paths(notes).contains(path) ==> with_note(notes, path, text) == notes,
        !noted_paths(notes).contains(path) ==> (with_note(notes, path, text).contains(other)
            <==> notes.contains(other) || other == (path, text)),
{
    let paths = noted_paths(notes);
    crate::order::lemma_slot(paths, path);
    let i = slot(paths, path);
    let all = with_note(notes, path, text);
    if i < notes.len() && notes[i].0 == path {
        assert(paths[i] == path);
        assert(noted_paths(all)[i] == path);
    } else {
        assert(noted_paths(all)[i] == path);
        if paths.contains(path) {
            let k = choose|k: int| 0 <= k < paths.len() && paths[k] == path;
            crate::order::lemma_total(path, path);
            if k < i {
                crate::order::law_the_first_difference_decides(
                    path,
                    'a',
                    'b',
                    Seq::empty(),
                    Seq::empty(),
                );
                assert(crate::order::before(paths[k], path));
            } else if k > i {
                assert(crate::order::before(paths[i], paths[k]));
            }
        }
        if notes.contains(other) {
            let k = choose|k: int| 0 <= k < notes.len() && notes[k] == other;
            if k < i {
                assert(all[k] == other);
            } else {
                assert(all[k + 1] == other);
            }
        }
        assert(all[i] == (path, text));
        if all.contains(other) {
            let k = choose|k: int| 0 <= k < all.len() && all[k] == other;
            if k < i {
                assert(notes[k] == other);
            } else if k > i {
                assert(notes[k - 1] == other);
            }
        }
    }
}

/// A path is settled exactly where nothing was asked of the side, or nothing of
/// it is left: each result counts for one or for nothing.
pub proof fn law_a_path_is_settled_where_nothing_is_left(
    results: Seq<Option<usize>>,
    result: Option<usize>,
)
    ensures
        settled_count(Seq::empty()) == 0,
        result is None || result == Some(0usize) ==> settled_count(results.push(result))
            == settled_count(results) + 1,
        result is Some && result->0 > 0 ==> settled_count(results.push(result)) == settled_count(
            results,
        ),
{
    assert(results.push(result).drop_last() =~= results);
}

/// A path agreed on a side exactly where that is its plan there.
pub proof fn law_what_agreed_is_told_of(losers: Seq<Loser>, n: int, k: int)
    requires
        all_well_formed(losers),
        0 <= k < losers.len(),
        0 <= n < losers[k].paths@.len(),
        losers[k].plans@[n] is Agreed,
    ensures
        agreed_anywhere(losers).contains(losers[k].paths@[n]@),
    decreases losers.len(),
{
    let front = losers.drop_last();
    let path = losers[k].paths@[n]@;
    let last = losers.last();
    crate::text::lemma_either(
        agreed_anywhere(front),
        agreed_in(last, last.paths@.len() as int),
        path,
    );
    if k < losers.len() - 1 {
        assert forall|i: int| 0 <= i < front.len() implies (#[trigger] front[i]).well_formed() by {
            assert(front[i] == losers[i]);
        }
        assert(front[k] == losers[k]);
        law_what_agreed_is_told_of(front, n, k);
    } else {
        lemma_agreed_in(last, last.paths@.len() as int, n);
    }
}

proof fn lemma_agreed_in(loser: Loser, n: int, i: int)
    requires
        0 <= i < n <= loser.paths@.len(),
        loser.plans@[i] is Agreed,
    ensures
        agreed_in(loser, n).contains(loser.paths@[i]@),
    decreases n,
{
    crate::text::lemma_pushed(
        agreed_in(loser, n - 1),
        loser.paths@[n - 1]@,
        loser.paths@[i]@,
    );
    if i < n - 1 {
        lemma_agreed_in(loser, n - 1, i);
    }
}

/// What happens next is told where something was settled: that the kept version
/// is on its way where a supervisor runs, and otherwise that it is not, and how
/// to make it go. Where nothing was settled there is nothing to tell.
pub proof fn law_what_happens_next_is_told(settled: nat)
    requires
        settled > 0,
    ensures
        forall|supervised: bool| (#[trigger] next_lines(0, supervised)).len() == 0,
        next_lines(settled, true) == seq!["copying the kept version across now"@],
        next_lines(settled, false).len() == 1,
        has_prefix(
            next_lines(settled, false)[0],
            "the supervisor is not running, so the kept version has not moved yet."@,
        ),
{
    reveal_strlit(
        "the supervisor is not running, so the kept version has not moved yet. Start it with `autobahn start`, or run `autobahn sync` once.",
    );
    reveal_strlit("the supervisor is not running, so the kept version has not moved yet.");
    let line =
        "the supervisor is not running, so the kept version has not moved yet. Start it with `autobahn start`, or run `autobahn sync` once."@;
    let lead = "the supervisor is not running, so the kept version has not moved yet."@;
    assert(line.take(lead.len() as int) =~= lead);
}

/// The first line of a report counts what was settled, of how much, and says
/// whether one version was kept or both.
pub proof fn law_what_was_settled_is_counted(settled: nat, total: nat)
    ensures
        settled_line(settled, total, true) == "settled "@ + decimal_text(settled) + " of "@
            + decimal_text(total) + " (both versions kept)"@,
        settled_line(settled, total, false) == "settled "@ + decimal_text(settled) + " of "@
            + decimal_text(total) + " (one version kept)"@,
{
}

/// Every path that was left alone has its line, with the reason, and they are
/// counted behind them; where there is none, nothing is said.
pub proof fn law_every_refusal_has_its_line(refused: Seq<(Seq<char>, Seq<char>)>, i: int)
    requires
        0 <= i < refused.len(),
    ensures
        refused_lines(Seq::empty()).len() == 0,
        refused_lines(refused).len() == refused.len() + 1,
        refused_lines(refused)[i] == "  left alone: "@ + shown_text(refused[i].0) + " — "@
            + shown_text(refused[i].1),
        has_prefix(refused_lines(refused).last(), decimal_text(refused.len())),
{
    let n = decimal_text(refused.len());
    assert(refused_lines(refused).last().take(n.len() as int) =~= n);
}

/// Nothing but what agreed on a side is told of as agreed.
pub proof fn law_nothing_else_agreed(loser: Loser, n: int, path: Seq<char>)
    requires
        loser.well_formed(),
        0 <= n <= loser.paths@.len(),
    ensures
        agreed_in(loser, n).contains(path) <==> exists|i: int|
            0 <= i < n && (#[trigger] loser.paths@[i])@ == path && loser.plans@[i] is Agreed,
    decreases n,
{
    if n > 0 {
        law_nothing_else_agreed(loser, n - 1, path);
        crate::text::lemma_pushed(agreed_in(loser, n - 1), loser.paths@[n - 1]@, path);
    }
}

} // verus!
