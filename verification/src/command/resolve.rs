//! Resolving conflicts: who wins, which paths are settled, what each losing
//! side does, and whether the version that is kept survives the next cycle.
use crate::command::scope::{covered, covered_paths, outermost, outermost_paths};
use crate::order::{sort_texts, sorted};
use crate::plan::{SessionPlan, SyncMode};
use crate::text::{
    chars_of, copy_strings, decimal, decimal_text, display_safe, holds_text, join_strings, joined,
    lemma_either, lemma_pushed,
    same_text, shown_text, split, string_of, strings, texts, segments,
};
use crate::tree::{
    agrees, at_path, joined_path, lemma_directory_view, node_at, node_option, node_views,
    owned_option, path_join, same_content, synchronizable_node, Content, ContentView, Node,
    NodeView,
};
use vstd::prelude::*;

verus! {

// ---------------------------------------------------------------------------
// Who wins
// ---------------------------------------------------------------------------

/// Whose version is kept.
#[derive(Clone, Copy, Debug, PartialEq, Eq, Structural)]
pub enum Winner {
    /// Alpha's.
    Alpha,
    /// Both: alpha's in place, the others moved aside.
    Both,
    /// That of one of the group's destinations, by its number.
    Beta(usize),
}

/// Why the name of a winner is refused.
#[derive(Clone, Copy, Debug, PartialEq, Eq)]
pub enum KeepError {
    /// It names no destination of the group.
    Unknown,
    /// It names several.
    Ambiguous,
}

/// Which of the first `n` plans a destination's name stands for.
pub open spec fn destinations(plans: Seq<SessionPlan>, keep: Seq<char>, n: int) -> Seq<int>
    decreases n,
{
    if n <= 0 {
        Seq::empty()
    } else if plans[n - 1].host@ == keep || plans[n - 1].beta_spec@ == keep {
        destinations(plans, keep, n - 1).push(n - 1)
    } else {
        destinations(plans, keep, n - 1)
    }
}

/// Who wins, of a group's plans: `alpha`, `both`, or the one destination that
/// has the name.
pub open spec fn winner_of(plans: Seq<SessionPlan>, keep: Seq<char>) -> Result<Winner, KeepError> {
    let named = destinations(plans, keep, plans.len() as int);
    if keep == "alpha"@ {
        Ok(Winner::Alpha)
    } else if keep == "both"@ {
        Ok(Winner::Both)
    } else if named.len() == 0 {
        Err(KeepError::Unknown)
    } else if named.len() > 1 {
        Err(KeepError::Ambiguous)
    } else {
        Ok(Winner::Beta(named[0] as usize))
    }
}

/// Who wins, of a group's plans.
pub fn choose_winner(plans: &[SessionPlan], keep: &str) -> (r: Result<Winner, KeepError>)
    ensures
        r == winner_of(plans@, keep@),
        r matches Ok(Winner::Beta(i)) ==> i < plans@.len(),
{
    if same_text(keep, "alpha") {
        return Ok(Winner::Alpha);
    }
    if same_text(keep, "both") {
        return Ok(Winner::Both);
    }
    let mut count: usize = 0;
    let mut first: usize = 0;
    let mut i: usize = 0;
    while i < plans.len()
        invariant
            i <= plans@.len(),
            count <= i,
            count == destinations(plans@, keep@, i as int).len(),
            count > 0 ==> first == destinations(plans@, keep@, i as int)[0] && first < plans@.len(),
        decreases plans@.len() - i,
    {
        if same_text(plans[i].host.as_str(), keep) || same_text(plans[i].beta_spec.as_str(), keep) {
            if count == 0 {
                first = i;
            }
            count += 1;
        }
        i += 1;
    }
    if count == 0 {
        Err(KeepError::Unknown)
    } else if count > 1 {
        Err(KeepError::Ambiguous)
    } else {
        Ok(Winner::Beta(first))
    }
}

/// Whether every plan is of the first one's group.
pub open spec fn of_one_group(plans: Seq<SessionPlan>) -> bool {
    forall|i: int| 0 <= i < plans.len() ==> (#[trigger] plans[i]).group@ == plans[0].group@
}

/// Whether every plan is of the first one's group.
pub fn single_group(plans: &[SessionPlan]) -> (r: bool)
    ensures
        r == of_one_group(plans@),
{
    let mut i: usize = 0;
    while i < plans.len()
        invariant
            i <= plans@.len(),
            forall|k: int| 0 <= k < i ==> (#[trigger] plans@[k]).group@ == plans@[0].group@,
        decreases plans@.len() - i,
    {
        if plans[i].group != plans[0].group {
            return false;
        }
        i += 1;
    }
    true
}

// ---------------------------------------------------------------------------
// Which paths, in which sessions
// ---------------------------------------------------------------------------

/// The paths to settle in a session.
#[derive(Debug)]
pub struct Target {
    /// The session.
    pub plan: SessionPlan,
    /// The paths.
    pub paths: Vec<String>,
}

/// The paths to settle in a session.
#[verifier::ext_equal]
pub struct TargetView {
    /// The session.
    pub plan: SessionPlan,
    /// The paths.
    pub paths: Seq<Seq<char>>,
}

impl Target {
    /// What the target says.
    pub open spec fn view(&self) -> TargetView {
        TargetView { plan: self.plan, paths: strings(self.paths@) }
    }
}

/// What targets say.
pub open spec fn target_views(targets: Seq<Target>) -> Seq<TargetView> {
    Seq::new(targets.len(), |i: int| targets[i].view())
}

/// The recorded conflicts of a session; none where nothing is recorded.
pub open spec fn recorded_conflicts(record: Option<Vec<String>>) -> Seq<Seq<char>> {
    match record {
        Some(conflicts) => strings(conflicts@),
        None => Seq::empty(),
    }
}

/// The targets among the first `n` sessions: those with a recorded conflict,
/// with all of them or, where folders are named, with those that they cover.
pub open spec fn recorded_targets(
    plans: Seq<SessionPlan>,
    records: Seq<Option<Vec<String>>>,
    folders: Option<Seq<Seq<char>>>,
    n: int,
) -> Seq<TargetView>
    decreases n,
{
    if n <= 0 {
        Seq::empty()
    } else {
        let front = recorded_targets(plans, records, folders, n - 1);
        let conflicts = recorded_conflicts(records[n - 1]);
        let paths = match folders {
            Some(folders) => covered(conflicts, folders),
            None => conflicts,
        };
        if paths.len() == 0 {
            front
        } else {
            front.push(TargetView { plan: plans[n - 1], paths })
        }
    }
}

fn gather_targets(
    plans: &[SessionPlan],
    records: &[Option<Vec<String>>],
    folders: Option<&[String]>,
) -> (r: Vec<Target>)
    requires
        records@.len() == plans@.len(),
    ensures
        target_views(r@) == recorded_targets(
            plans@,
            records@,
            match folders {
                Some(folders) => Some(strings(folders@)),
                None => None,
            },
            plans@.len() as int,
        ),
{
    let ghost scope = match folders {
        Some(folders) => Some(strings(folders@)),
        None => None,
    };
    let mut r: Vec<Target> = Vec::new();
    let mut i: usize = 0;
    assert(target_views(r@) =~= recorded_targets(plans@, records@, scope, 0));
    while i < plans.len()
        invariant
            i <= plans@.len(),
            records@.len() == plans@.len(),
            scope == (match folders {
                Some(folders) => Some(strings(folders@)),
                None => None,
            }),
            target_views(r@) == recorded_targets(plans@, records@, scope, i as int),
        decreases plans@.len() - i,
    {
        let conflicts: Vec<String> = match &records[i] {
            Some(conflicts) => copy_strings(conflicts.as_slice()),
            None => {
                let none: Vec<String> = Vec::new();
                assert(strings(none@) =~= Seq::<Seq<char>>::empty());
                none
            },
        };
        assert(strings(conflicts@) == recorded_conflicts(records@[i as int]));
        let paths = match folders {
            Some(folders) => covered_paths(conflicts.as_slice(), folders),
            None => conflicts,
        };
        assert(strings(paths@).len() == paths@.len());
        if paths.len() > 0 {
            let ghost before = target_views(r@);
            let target = Target { plan: plans[i].duplicate(), paths };
            let ghost added = target.view();
            r.push(target);
            assert(target_views(r@) =~= before.push(added));
        }
        i += 1;
    }
    r
}

/// Why nothing can be settled.
#[derive(Debug)]
pub enum ChooseError {
    /// Every conflict was asked for, and keeping both of each.
    AllCannotKeepBoth,
}

/// Every recorded conflict of the selected sessions, or `None` where there is
/// none. They cannot all keep both versions.
pub fn choose_all(
    plans: &[SessionPlan],
    records: &[Option<Vec<String>>],
    winner: Winner,
) -> (r: Result<Option<Vec<Target>>, ChooseError>)
    requires
        records@.len() == plans@.len(),
    ensures
        ({
            let all = recorded_targets(plans@, records@, None, plans@.len() as int);
            if all.len() == 0 {
                r matches Ok(None)
            } else if winner == Winner::Both {
                r matches Err(ChooseError::AllCannotKeepBoth)
            } else {
                r matches Ok(Some(targets)) && target_views(targets@) == all
            }
        }),
{
    let targets = gather_targets(plans, records, None);
    assert(target_views(targets@).len() == targets@.len());
    if targets.len() == 0 {
        Ok(None)
    } else if winner == Winner::Both {
        Err(ChooseError::AllCannotKeepBoth)
    } else {
        Ok(Some(targets))
    }
}

/// Every plan with the same paths.
pub open spec fn at_their_word(
    plans: Seq<SessionPlan>,
    named: Seq<Seq<char>>,
) -> Seq<TargetView> {
    Seq::new(plans.len(), |i: int| TargetView { plan: plans[i], paths: named })
}

/// Whether some target has a path that was not named itself.
pub open spec fn expanded(targets: Seq<TargetView>, named: Seq<Seq<char>>) -> bool {
    exists|i: int, j: int|
        0 <= i < targets.len() && 0 <= j < targets[i].paths.len() && !named.contains(
            #[trigger] targets[i].paths[j],
        )
}

/// The recorded conflicts at or below the named paths. Where nothing is
/// recorded there, the paths are taken at their word in every session. The
/// second result is what was named, where that was a folder with conflicts
/// below it.
pub fn choose_named(
    plans: &[SessionPlan],
    records: &[Option<Vec<String>>],
    named: &[String],
) -> (r: (Vec<Target>, Option<String>))
    requires
        records@.len() == plans@.len(),
    ensures
        ({
            let names = strings(named@);
            let found = recorded_targets(plans@, records@, Some(names), plans@.len() as int);
            if found.len() == 0 {
                target_views(r.0@) == at_their_word(plans@, names) && r.1 is None
            } else {
                &&& target_views(r.0@) == found
                &&& (r.1 is Some <==> expanded(found, names))
                &&& (r.1 matches Some(scope) ==> scope@ == joined(names, ", "@))
            }
        }),
{
    let targets = gather_targets(plans, records, Some(named));
    let ghost names = strings(named@);
    let ghost found = target_views(targets@);
    assert(found.len() == targets@.len());
    if targets.len() == 0 {
        let mut all: Vec<Target> = Vec::new();
        let mut i: usize = 0;
        while i < plans.len()
            invariant
                i <= plans@.len(),
                names == strings(named@),
                all@.len() == i,
                forall|k: int|
                    0 <= k < i ==> (#[trigger] all@[k]).view() == (TargetView {
                        plan: plans@[k],
                        paths: names,
                    }),
            decreases plans@.len() - i,
        {
            all.push(Target { plan: plans[i].duplicate(), paths: copy_strings(named) });
            i += 1;
        }
        assert(target_views(all@) =~= at_their_word(plans@, names));
        return (all, None);
    }
    let mut i: usize = 0;
    while i < targets.len()
        invariant
            i <= targets@.len(),
            names == strings(named@),
            found == target_views(targets@),
            found.len() > 0,
            found == recorded_targets(plans@, records@, Some(names), plans@.len() as int),
            forall|k: int, j: int|
                0 <= k < i && 0 <= j < found[k].paths.len() ==> names.contains(
                    #[trigger] found[k].paths[j],
                ),
        decreases targets@.len() - i,
    {
        let mut j: usize = 0;
        while j < targets[i].paths.len()
            invariant
                i < targets@.len(),
                j <= targets@[i as int].paths@.len(),
                names == strings(named@),
                found == target_views(targets@),
                found.len() > 0,
                found == recorded_targets(plans@, records@, Some(names), plans@.len() as int),
                forall|m: int|
                    0 <= m < j ==> names.contains(#[trigger] found[i as int].paths[m]),
            decreases targets@[i as int].paths@.len() - j,
        {
            assert(found[i as int].paths[j as int] == targets@[i as int].paths@[j as int]@);
            if !holds_text(named, targets[i].paths[j].as_str()) {
                assert(expanded(found, names));
                return (targets, Some(join_strings(named, ", ")));
            }
            j += 1;
        }
        i += 1;
    }
    (targets, None)
}

/// Whether a path names the root itself.
pub open spec fn names_root(path: Seq<char>) -> bool {
    path.len() == 0 || path == "."@
}

/// Whether some target names the root itself, which is never settled.
pub fn targets_root(targets: &[Target]) -> (r: bool)
    ensures
        r == exists|i: int, j: int|
            0 <= i < targets@.len() && 0 <= j < targets@[i].paths@.len() && names_root(
                #[trigger] targets@[i].paths@[j]@,
            ),
{
    let mut i: usize = 0;
    while i < targets.len()
        invariant
            i <= targets@.len(),
            forall|k: int, m: int|
                0 <= k < i && 0 <= m < targets@[k].paths@.len() ==> !names_root(
                    #[trigger] targets@[k].paths@[m]@,
                ),
        decreases targets@.len() - i,
    {
        let mut j: usize = 0;
        while j < targets[i].paths.len()
            invariant
                i < targets@.len(),
                j <= targets@[i as int].paths@.len(),
                forall|m: int|
                    0 <= m < j ==> !names_root(#[trigger] targets@[i as int].paths@[m]@),
            decreases targets@[i as int].paths@.len() - j,
        {
            let path = targets[i].paths[j].as_str();
            if path.is_empty() || same_text(path, ".") {
                assert(names_root(targets@[i as int].paths@[j as int]@));
                return true;
            }
            j += 1;
        }
        i += 1;
    }
    false
}

// ---------------------------------------------------------------------------
// What the modes allow
// ---------------------------------------------------------------------------

/// Why a mode cannot keep the version asked for.
#[derive(Clone, Copy, Debug, PartialEq, Eq)]
pub enum ModeRefusal {
    /// The mode never carries the winning destination's content to alpha.
    NeverCarried,
    /// The destination of this target is made identical to alpha, so a copy
    /// moved aside there would be deleted.
    AsideWouldGo {
        /// The number of the target.
        target: usize,
    },
}

/// The first target whose session makes beta a replica.
pub open spec fn first_replica(targets: Seq<Target>, from: int) -> Option<int>
    decreases targets.len() - from,
{
    if from < 0 || from >= targets.len() {
        None
    } else if targets[from].plan.mode == SyncMode::OneWayReplica {
        Some(from)
    } else {
        first_replica(targets, from + 1)
    }
}

/// What keeps the modes from keeping the version asked for, if anything.
pub open spec fn mode_refuses(
    winner: Winner,
    group_plans: Seq<SessionPlan>,
    targets: Seq<Target>,
) -> Option<ModeRefusal> {
    match winner {
        Winner::Alpha => None,
        Winner::Beta(i) => if group_plans[i as int].mode == SyncMode::OneWaySafe
            || group_plans[i as int].mode == SyncMode::OneWayReplica {
            Some(ModeRefusal::NeverCarried)
        } else {
            None
        },
        Winner::Both => match first_replica(targets, 0) {
            Some(k) => Some(ModeRefusal::AsideWouldGo { target: k as usize }),
            None => None,
        },
    }
}

/// Whether the modes can keep the version asked for.
pub fn mode_refusal(winner: Winner, group_plans: &[SessionPlan], targets: &[Target]) -> (r: Option<
    ModeRefusal,
>)
    requires
        winner matches Winner::Beta(i) ==> i < group_plans@.len(),
    ensures
        r == mode_refuses(
            winner,
            group_plans@,
            targets@,
        ),
        r matches Some(ModeRefusal::AsideWouldGo { target }) ==> target < targets@.len(),
{
    match winner {
        Winner::Alpha => None,
        Winner::Beta(i) => if group_plans[i].mode == SyncMode::OneWaySafe || group_plans[i].mode
            == SyncMode::OneWayReplica {
            Some(ModeRefusal::NeverCarried)
        } else {
            None
        },
        Winner::Both => {
            let mut k: usize = 0;
            while k < targets.len()
                invariant
                    k <= targets@.len(),
                    winner == Winner::Both,
                    first_replica(targets@, 0) == first_replica(targets@, k as int),
                decreases targets@.len() - k,
            {
                if targets[k].plan.mode == SyncMode::OneWayReplica {
                    return Some(ModeRefusal::AsideWouldGo { target: k });
                }
                k += 1;
            }
            None
        },
    }
}

// ---------------------------------------------------------------------------
// What is said before anything is done
// ---------------------------------------------------------------------------

/// Texts without those that repeat the one before.
pub open spec fn without_repeats(list: Seq<Seq<char>>) -> Seq<Seq<char>>
    decreases list.len(),
{
    if list.len() == 0 {
        Seq::empty()
    } else {
        let front = without_repeats(list.drop_last());
        if list.len() > 1 && list[list.len() - 2] == list.last() {
            front
        } else {
            front.push(list.last())
        }
    }
}

fn drop_repeats(list: &[String]) -> (r: Vec<String>)
    ensures
        strings(r@) == without_repeats(strings(list@)),
{
    let ghost all = strings(list@);
    let mut r: Vec<String> = Vec::new();
    let mut i: usize = 0;
    assert(strings(r@) =~= without_repeats(all.take(0)));
    while i < list.len()
        invariant
            i <= list@.len(),
            all == strings(list@),
            strings(r@) == without_repeats(all.take(i as int)),
        decreases list@.len() - i,
    {
        assert(all.take(i + 1).drop_last() =~= all.take(i as int));
        if !(i > 0 && list[i - 1] == list[i]) {
            let ghost before = strings(r@);
            r.push(list[i].clone());
            assert(strings(r@) =~= before.push(list@[i as int]@));
        }
        i += 1;
    }
    assert(all.take(all.len() as int) =~= all);
    r
}

/// The alpha root, as it is spoken of.
pub open spec fn alpha_text(plans: Seq<SessionPlan>) -> Seq<char> {
    (if plans.len() > 0 {
        plans[0].alpha_spec@
    } else {
        Seq::empty()
    }) + "  (alpha)"@
}

/// The beta roots of targets, in order, without those of a session that is
/// left out.
pub open spec fn beta_texts(targets: Seq<Target>, without: Option<Seq<char>>) -> Seq<Seq<char>>
    decreases targets.len(),
{
    if targets.len() == 0 {
        Seq::empty()
    } else {
        let front = beta_texts(targets.drop_last(), without);
        if without == Some(targets.last().plan.identifier@) {
            front
        } else {
            front.push(targets.last().plan.beta_spec@)
        }
    }
}

/// Who keeps their version, and who is overwritten: alpha and the targets'
/// destinations, by their roots.
pub fn stakes(winner: Winner, group_plans: &[SessionPlan], targets: &[Target]) -> (r: (
    String,
    Vec<String>,
))
    requires
        winner matches Winner::Beta(i) ==> i < group_plans@.len(),
    ensures
        match winner {
            Winner::Beta(i) => {
                let plan = group_plans@[i as int];
                &&& r.0@ == plan.beta_spec@ + "  ("@ + plan.host@ + ")"@
                &&& strings(r.1@) == without_repeats(
                    seq![alpha_text(group_plans@)] + beta_texts(targets@, Some(plan.identifier@)),
                )
            },
            _ => {
                &&& r.0@ == alpha_text(group_plans@)
                &&& strings(r.1@) == without_repeats(beta_texts(targets@, None))
            },
        },
{
    let mut alpha = String::new();
    if group_plans.len() > 0 {
        alpha.append(group_plans[0].alpha_spec.as_str());
    }
    alpha.append("  (alpha)");
    assert(alpha@ =~= alpha_text(group_plans@));
    let mut losers: Vec<String> = Vec::new();
    let without: Option<&String> = match winner {
        Winner::Beta(i) => {
            losers.push(alpha.clone());
            Some(&group_plans[i].identifier)
        },
        _ => None,
    };
    let ghost skipped = match without {
        Some(identifier) => Some(identifier@),
        None => None,
    };
    let ghost start = strings(losers@);
    let mut k: usize = 0;
    assert(strings(losers@) =~= start + beta_texts(targets@.take(0), skipped));
    while k < targets.len()
        invariant
            k <= targets@.len(),
            skipped == (match without {
                Some(identifier) => Some(identifier@),
                None => None,
            }),
            strings(losers@) == start + beta_texts(targets@.take(k as int), skipped),
        decreases targets@.len() - k,
    {
        assert(targets@.take(k + 1).drop_last() =~= targets@.take(k as int));
        let left_out = match without {
            Some(identifier) => targets[k].plan.identifier == *identifier,
            None => false,
        };
        if !left_out {
            let ghost before = strings(losers@);
            losers.push(targets[k].plan.beta_spec.clone());
            assert(strings(losers@) =~= before.push(targets@[k as int].plan.beta_spec@));
            assert(strings(losers@) =~= start + beta_texts(targets@.take(k + 1), skipped));
        }
        k += 1;
    }
    assert(targets@.take(targets@.len() as int) =~= targets@);
    let overwritten = drop_repeats(losers.as_slice());
    match winner {
        Winner::Beta(i) => {
            let mut kept = group_plans[i].beta_spec.clone();
            kept.append("  (");
            kept.append(group_plans[i].host.as_str());
            kept.append(")");
            assert(start =~= seq![alpha_text(group_plans@)]);
            (kept, overwritten)
        },
        _ => {
            assert(start + beta_texts(targets@, None) =~= beta_texts(targets@, None));
            (alpha, overwritten)
        },
    }
}

/// A number of conflicts, in words.
pub open spec fn conflicts_text(n: nat) -> Seq<char> {
    if n == 1 {
        "1 conflict"@
    } else {
        decimal_text(n) + " conflicts"@
    }
}

/// A number of conflicts, in words.
pub fn conflicts_words(n: usize) -> (r: String)
    ensures
        r@ == conflicts_text(n as nat),
{
    if n == 1 {
        "1 conflict".to_owned()
    } else {
        let mut r = decimal(n as u64);
        r.append(" conflicts");
        r
    }
}

/// How many paths some targets have.
pub open spec fn path_count(targets: Seq<Target>) -> nat
    decreases targets.len(),
{
    if targets.len() == 0 {
        0
    } else {
        path_count(targets.drop_last()) + targets.last().paths@.len()
    }
}

/// The paths of a target, each on a line.
pub open spec fn path_lines(lead: Seq<char>, paths: Seq<Seq<char>>) -> Seq<Seq<char>> {
    Seq::new(paths.len(), |i: int| lead + shown_text(paths[i]))
}

/// The paths to settle: bare for one session, below its beta root for each of
/// several.
pub open spec fn target_lines(targets: Seq<Target>) -> Seq<Seq<char>>
    decreases targets.len(),
{
    if targets.len() == 0 {
        Seq::empty()
    } else {
        target_lines(targets.drop_last()).push("  "@ + targets.last().plan.beta_spec@)
            + path_lines("    "@, strings(targets.last().paths@))
    }
}

/// The lines that name who is overwritten, or moved aside.
pub open spec fn loser_lines(losers: Seq<Seq<char>>, both: bool) -> Seq<Seq<char>> {
    Seq::new(
        losers.len(),
        |i: int|
            if both {
                "  keep too   "@ + losers[i] + "  (renamed aside)"@
            } else {
                "  overwrite  "@ + losers[i]
            },
    )
}

/// What is said before a resolution is confirmed.
pub open spec fn proposal_lines(
    targets: Seq<Target>,
    kept: Seq<char>,
    losers: Seq<Seq<char>>,
    scope: Option<Seq<char>>,
    both: bool,
) -> Seq<Seq<char>> {
    let what = "about to resolve "@ + conflicts_text(path_count(targets));
    let heading = match scope {
        Some(scope) => what + " under "@ + shown_text(scope) + ":"@,
        None => what + ":"@,
    };
    let paths = if targets.len() == 1 {
        path_lines("  "@, strings(targets[0].paths@))
    } else {
        target_lines(targets)
    };
    seq![heading, Seq::empty(), "  keep       "@ + kept] + loser_lines(losers, both) + seq![
        Seq::empty(),
    ] + paths + seq![Seq::empty()]
}

/// Appends a line.
pub fn push_line(lines: &mut Vec<String>, line: String)
    ensures
        strings(final(lines)@) == strings(old(lines)@).push(line@),
{
    let ghost before = strings(lines@);
    let ghost added = line@;
    lines.push(line);
    assert(strings(lines@) =~= before.push(added));
}

fn push_paths(lines: &mut Vec<String>, lead: &str, paths: &[String])
    ensures
        strings(final(lines)@) == strings(old(lines)@) + path_lines(lead@, strings(paths@)),
{
    let ghost start = strings(lines@);
    let ghost all = path_lines(lead@, strings(paths@));
    let mut i: usize = 0;
    assert(start + all.take(0) =~= start);
    while i < paths.len()
        invariant
            i <= paths@.len(),
            all == path_lines(lead@, strings(paths@)),
            strings(lines@) == start + all.take(i as int),
        decreases paths@.len() - i,
    {
        let mut line = lead.to_owned();
        let shown = display_safe(paths[i].as_str());
        line.append(shown.as_str());
        push_line(lines, line);
        assert(all.take(i + 1) =~= all.take(i as int).push(all[i as int]));
        assert(strings(lines@) =~= start + all.take(i + 1));
        i += 1;
    }
    assert(all.take(all.len() as int) =~= all);
}

/// What is said before a resolution is confirmed: how many conflicts, who
/// keeps their version and who does not, and the paths.
pub fn proposal(
    targets: &[Target],
    kept: &str,
    overwritten: &[String],
    scope: Option<&str>,
    both: bool,
) -> (r: Vec<String>)
    requires
        path_count(targets@) <= usize::MAX,
    ensures
        strings(r@) == proposal_lines(
            targets@,
            kept@,
            strings(overwritten@),
            match scope {
                Some(scope) => Some(scope@),
                None => None,
            },
            both,
        ),
{
    let mut total: usize = 0;
    let mut i: usize = 0;
    while i < targets.len()
        invariant
            i <= targets@.len(),
            total == path_count(targets@.take(i as int)),
            path_count(targets@) <= usize::MAX,
        decreases targets@.len() - i,
    {
        proof {
            assert(targets@.take(i + 1).drop_last() =~= targets@.take(i as int));
            lemma_path_count(targets@, i + 1);
        }
        total += targets[i].paths.len();
        i += 1;
    }
    assert(targets@.take(targets@.len() as int) =~= targets@);
    let mut lines: Vec<String> = Vec::new();
    assert(strings(lines@) =~= Seq::<Seq<char>>::empty());
    let mut heading = "about to resolve ".to_owned();
    let count = conflicts_words(total);
    heading.append(count.as_str());
    match scope {
        Some(scope) => {
            heading.append(" under ");
            let shown = display_safe(scope);
            heading.append(shown.as_str());
            heading.append(":");
        },
        None => {
            heading.append(":");
        },
    }
    let ghost head = heading@;
    push_line(&mut lines, heading);
    push_line(&mut lines, String::new());
    let mut line = "  keep       ".to_owned();
    line.append(kept);
    push_line(&mut lines, line);
    let ghost start = strings(lines@);
    assert(start =~= seq![head, Seq::empty(), "  keep       "@ + kept@]);
    let ghost losers = loser_lines(strings(overwritten@), both);
    let mut k: usize = 0;
    assert(start + losers.take(0) =~= start);
    while k < overwritten.len()
        invariant
            k <= overwritten@.len(),
            losers == loser_lines(strings(overwritten@), both),
            strings(lines@) == start + losers.take(k as int),
        decreases overwritten@.len() - k,
    {
        let mut line = String::new();
        if both {
            line.append("  keep too   ");
            line.append(overwritten[k].as_str());
            line.append("  (renamed aside)");
        } else {
            line.append("  overwrite  ");
            line.append(overwritten[k].as_str());
        }
        assert(line@ =~= losers[k as int]);
        push_line(&mut lines, line);
        assert(losers.take(k + 1) =~= losers.take(k as int).push(losers[k as int]));
        assert(strings(lines@) =~= start + losers.take(k + 1));
        k += 1;
    }
    assert(losers.take(losers.len() as int) =~= losers);
    push_line(&mut lines, String::new());
    let ghost middle = start + losers + seq![Seq::<char>::empty()];
    assert(strings(lines@) =~= middle);
    if targets.len() == 1 {
        push_paths(&mut lines, "  ", targets[0].paths.as_slice());
    } else {
        let mut t: usize = 0;
        assert(middle + target_lines(targets@.take(0)) =~= middle);
        while t < targets.len()
            invariant
                t <= targets@.len(),
                strings(lines@) == middle + target_lines(targets@.take(t as int)),
            decreases targets@.len() - t,
        {
            assert(targets@.take(t + 1).drop_last() =~= targets@.take(t as int));
            let mut line = "  ".to_owned();
            line.append(targets[t].plan.beta_spec.as_str());
            push_line(&mut lines, line);
            push_paths(&mut lines, "    ", targets[t].paths.as_slice());
            assert(strings(lines@) =~= middle + target_lines(targets@.take(t + 1)));
            t += 1;
        }
        assert(targets@.take(targets@.len() as int) =~= targets@);
    }
    let ghost before = strings(lines@);
    push_line(&mut lines, String::new());
    assert(strings(lines@) =~= before + seq![Seq::<char>::empty()]);
    lines
}

/// Fewer targets have no more paths.
proof fn lemma_path_count(targets: Seq<Target>, n: int)
    requires
        0 <= n <= targets.len(),
    ensures
        path_count(targets.take(n)) <= path_count(targets),
    decreases targets.len(),
{
    if n == targets.len() {
        assert(targets.take(n) =~= targets);
    } else {
        assert(targets.drop_last().take(n) =~= targets.take(n));
        lemma_path_count(targets.drop_last(), n);
    }
}

/// What is asked before a resolution.
pub const QUESTION: &'static str = "proceed? [y/N] ";

/// Why a resolution is refused that nobody can be asked about.
pub const UNANSWERED: &'static str =
    "nothing to answer the prompt; pass --yes to resolve without asking";

/// What is said where the answer is no.
pub const NOTHING_DONE: &'static str = "nothing done";

/// How a resolution is confirmed.
#[derive(Debug)]
pub enum Confirmation {
    /// It was in advance.
    Given,
    /// It cannot be: it is proposed, and refused, since nobody is there to
    /// answer.
    Refused {
        /// The proposal.
        proposal: Vec<String>,
    },
    /// It is proposed, and then asked about.
    Asked {
        /// The proposal.
        proposal: Vec<String>,
    },
}

/// Whether a resolution is confirmed so, given what is proposed.
pub open spec fn confirms(
    r: Confirmation,
    lines: Seq<Seq<char>>,
    yes: bool,
    terminal: bool,
) -> bool {
    if yes {
        r is Given
    } else if !terminal {
        r matches Confirmation::Refused { proposal } && strings(proposal@) == lines
    } else {
        r matches Confirmation::Asked { proposal } && strings(proposal@) == lines
    }
}

/// How a resolution is confirmed, given whether it was in advance and whether
/// someone is there to be asked.
pub fn confirmed(
    targets: &[Target],
    kept: &str,
    overwritten: &[String],
    scope: Option<&str>,
    both: bool,
    yes: bool,
    terminal: bool,
) -> (r: Confirmation)
    requires
        yes || path_count(targets@) <= usize::MAX,
    ensures
        ({
            let lines = proposal_lines(
                targets@,
                kept@,
                strings(overwritten@),
                match scope {
                    Some(scope) => Some(scope@),
                    None => None,
                },
                both,
            );
            confirms(r, lines, yes, terminal)
        }),
{
    if yes {
        return Confirmation::Given;
    }
    let proposal = proposal(targets, kept, overwritten, scope, both);
    if terminal {
        Confirmation::Asked { proposal }
    } else {
        Confirmation::Refused { proposal }
    }
}

/// The one line of a resolution in which no side loses.
pub fn nothing_to_retire(losers: usize, paths: usize) -> (r: Option<String>)
    ensures
        crate::text::optional(r) == (if losers == 0 {
            Some("settled 0 of "@ + decimal_text(paths as nat) + " (nothing to retire)"@)
        } else {
            None
        }),
{
    if losers > 0 {
        return None;
    }
    let mut r = "settled 0 of ".to_owned();
    let count = decimal(paths as u64);
    r.append(count.as_str());
    r.append(" (nothing to retire)");
    Some(r)
}

/// Whether an answer to the question is a yes.
pub fn is_yes(answer: &str) -> (r: bool)
    ensures
        r == ({
            let text = crate::text::trimmed(answer@);
            text == "y"@ || text == "Y"@ || text == "yes"@
        }),
{
    let all = chars_of(answer);
    let bare = crate::text::trim_start(crate::text::trim_end(all.as_slice()));
    let text = string_of(bare);
    same_text(text.as_str(), "y") || same_text(text.as_str(), "Y") || same_text(
        text.as_str(),
        "yes",
    )
}

// ---------------------------------------------------------------------------
// The paths, and the sides that lose
// ---------------------------------------------------------------------------

/// Every path of some targets.
pub open spec fn every_path(targets: Seq<Target>) -> Seq<Seq<char>>
    decreases targets.len(),
{
    if targets.len() == 0 {
        Seq::empty()
    } else {
        every_path(targets.drop_last()) + strings(targets.last().paths@)
    }
}

/// The paths that are settled: each once, in order, and none inside another,
/// since settling the outer one settles it.
pub open spec fn settled_paths(targets: Seq<Target>) -> Seq<Seq<char>> {
    let all = sorted(every_path(targets));
    outermost(all, all.len() as int)
}

/// The paths that are settled.
pub fn paths_to_settle(targets: &[Target]) -> (r: Vec<String>)
    ensures
        strings(r@) == settled_paths(targets@),
{
    let mut all: Vec<String> = Vec::new();
    let mut i: usize = 0;
    assert(strings(all@) =~= every_path(targets@.take(0)));
    while i < targets.len()
        invariant
            i <= targets@.len(),
            strings(all@) == every_path(targets@.take(i as int)),
        decreases targets@.len() - i,
    {
        assert(targets@.take(i + 1).drop_last() =~= targets@.take(i as int));
        let ghost before = strings(all@);
        let mut more = copy_strings(targets[i].paths.as_slice());
        let ghost added = strings(more@);
        all.append(&mut more);
        assert(strings(all@) =~= before + added);
        i += 1;
    }
    assert(targets@.take(targets@.len() as int) =~= targets@);
    let ordered = sort_texts(all.as_slice());
    assert(strings(ordered@).len() == ordered@.len());
    outermost_paths(ordered.as_slice())
}

/// Whether the side that loses in the session at `index` is alpha: it is in
/// the winning destination's session, through which the winning content comes
/// back to alpha.
pub open spec fn alpha_loses(winner: Winner, index: int) -> bool {
    winner matches Winner::Beta(w) && w == index
}

/// Whether the side that loses in the session at `index` is alpha.
pub fn loses_alpha(winner: Winner, index: usize) -> (r: bool)
    ensures
        r == alpha_loses(winner, index as int),
{
    match winner {
        Winner::Beta(w) => w == index,
        _ => false,
    }
}

/// Whether a path conflicts in a session.
pub open spec fn conflicts_in(
    targets: Seq<Target>,
    identifier: Seq<char>,
    path: Seq<char>,
) -> bool {
    exists|i: int|
        0 <= i < targets.len() && (#[trigger] targets[i]).plan.identifier@ == identifier && strings(
            targets[i].paths@,
        ).contains(path)
}

fn conflicts_here(targets: &[Target], identifier: &str, path: &str) -> (r: bool)
    ensures
        r == conflicts_in(targets@, identifier@, path@),
{
    let mut i: usize = 0;
    while i < targets.len()
        invariant
            i <= targets@.len(),
            forall|k: int|
                0 <= k < i ==> !((#[trigger] targets@[k]).plan.identifier@ == identifier@
                    && strings(targets@[k].paths@).contains(path@)),
        decreases targets@.len() - i,
    {
        if same_text(targets[i].plan.identifier.as_str(), identifier) && holds_text(
            targets[i].paths.as_slice(),
            path,
        ) {
            return true;
        }
        i += 1;
    }
    false
}

/// Those of the first `n` paths that the losing side of a session acts on:
/// the ones that conflict there, and all of them where that side is alpha.
pub open spec fn paths_in(
    paths: Seq<Seq<char>>,
    n: int,
    targets: Seq<Target>,
    identifier: Seq<char>,
    alpha: bool,
) -> Seq<Seq<char>>
    decreases n,
{
    if n <= 0 {
        Seq::empty()
    } else if alpha || conflicts_in(targets, identifier, paths[n - 1]) {
        paths_in(paths, n - 1, targets, identifier, alpha).push(paths[n - 1])
    } else {
        paths_in(paths, n - 1, targets, identifier, alpha)
    }
}

/// The paths that the losing side of a session acts on.
pub fn paths_here(paths: &[String], targets: &[Target], plan: &SessionPlan, alpha: bool) -> (r: Vec<
    String,
>)
    ensures
        strings(r@) == paths_in(
            strings(paths@),
            paths@.len() as int,
            targets@,
            plan.identifier@,
            alpha,
        ),
{
    let ghost all = strings(paths@);
    let mut r: Vec<String> = Vec::new();
    let mut i: usize = 0;
    assert(strings(r@) =~= paths_in(all, 0, targets@, plan.identifier@, alpha));
    while i < paths.len()
        invariant
            i <= paths@.len(),
            all == strings(paths@),
            strings(r@) == paths_in(all, i as int, targets@, plan.identifier@, alpha),
        decreases paths@.len() - i,
    {
        if alpha || conflicts_here(targets, plan.identifier.as_str(), paths[i].as_str()) {
            push_line(&mut r, paths[i].clone());
        }
        i += 1;
    }
    r
}

// ---------------------------------------------------------------------------
// What a losing side does
// ---------------------------------------------------------------------------

/// The first entry at or below a node that could not be scanned: its path and
/// why.
pub open spec fn unscanned(content: ContentView, path: Seq<char>) -> Option<(Seq<char>, Seq<char>)>
    decreases content,
{
    match content {
        ContentView::Directory(children) => unscanned_among(children, path),
        ContentView::Problematic { message } => Some((path, message)),
        _ => None,
    }
}

/// The first entry among some in a directory that could not be scanned.
pub open spec fn unscanned_among(children: Seq<NodeView>, path: Seq<char>) -> Option<
    (Seq<char>, Seq<char>),
>
    decreases children,
{
    if children.len() == 0 {
        None
    } else {
        match unscanned_among(children.drop_last(), path) {
            Some(found) => Some(found),
            None => unscanned(
                children.last().content,
                joined_path(path, children.last().name),
            ),
        }
    }
}

/// The first entry at or below a node that could not be scanned. Nothing
/// removes such an entry, so asking for it would leave a tree half removed.
pub fn unsynchronizable_within(node: &Node, path: &str) -> (r: Option<(String, String)>)
    ensures
        match r {
            Some(found) => unscanned(node.view().content, path@) == Some((found.0@, found.1@)),
            None => unscanned(node.view().content, path@) is None,
        },
    decreases node,
{
    match &node.content {
        Content::Directory(children) => {
            let ghost views = node_views(children@);
            proof {
                lemma_directory_view(*children);
            }
            let mut i: usize = 0;
            assert(views.take(0) =~= Seq::<NodeView>::empty());
            while i < children.len()
                invariant
                    i <= children@.len(),
                    node.content == Content::Directory(*children),
                    node.view().content == ContentView::Directory(views),
                    views == node_views(children@),
                    unscanned_among(views.take(i as int), path@) is None,
                decreases children@.len() - i,
            {
                proof {
                    assert(views.take(i + 1).drop_last() =~= views.take(i as int));
                    assert(views.take(i + 1).last() == children@[i as int].view());
                    assert(decreases_to!(*node => node.content));
                    assert(decreases_to!(node.content => node.content->Directory_0));
                    assert(decreases_to!(*children => children@));
                    assert(decreases_to!(children@ => children@[i as int]));
                }
                let child_path = path_join(path, children[i].name.as_str());
                match unsynchronizable_within(&children[i], child_path.as_str()) {
                    Some(found) => {
                        proof {
                            lemma_unscanned_prefix(views, path@, i + 1);
                        }
                        return Some(found);
                    },
                    None => {},
                }
                i += 1;
            }
            assert(views.take(views.len() as int) =~= views);
            None
        },
        Content::Problematic { message } => Some((path.to_owned(), message.clone())),
        _ => None,
    }
}

/// What is found among the first entries is found among all.
proof fn lemma_unscanned_prefix(children: Seq<NodeView>, path: Seq<char>, n: int)
    requires
        0 <= n <= children.len(),
        unscanned_among(children.take(n), path) is Some,
    ensures
        unscanned_among(children, path) == unscanned_among(children.take(n), path),
    decreases children.len(),
{
    if n == children.len() {
        assert(children.take(n) =~= children);
    } else {
        assert(children.drop_last().take(n) =~= children.take(n));
        lemma_unscanned_prefix(children.drop_last(), path, n);
    }
}

/// The last component of a path that names something: what follows its last
/// separator, once those at its end and a `.` there are gone.
pub open spec fn last_component(side: Seq<char>) -> Option<Seq<char>>
    decreases side.len(),
{
    let parts = segments(side, '/');
    last_named(parts, parts.len() as int)
}

/// The last of the first `n` parts that names something.
pub open spec fn last_named(parts: Seq<Seq<char>>, n: int) -> Option<Seq<char>>
    decreases n,
{
    if n <= 0 {
        None
    } else {
        let part = parts[n - 1];
        if part.len() == 0 || (part == "."@ && n > 1) {
            last_named(parts, n - 1)
        } else if part == "."@ || part == ".."@ {
            None
        } else {
            Some(part)
        }
    }
}

/// The name a side's version is moved aside with: the last component of the
/// side where it has one, or the side as it is.
pub open spec fn aside_suffix(side: Seq<char>) -> Seq<char> {
    match last_component(side) {
        Some(name) => name,
        None => side,
    }
}

fn suffix_of(side: &str) -> (r: String)
    ensures
        r@ == aside_suffix(side@),
{
    let parts = split(chars_of(side).as_slice(), '/');
    let ghost all = segments(side@, '/');
    let mut n: usize = parts.len();
    assert(all.len() == n) by {
        assert(texts(parts@).len() == parts@.len());
    }
    while n > 0
        invariant
            n <= parts@.len(),
            texts(parts@) == all,
            all == segments(side@, '/'),
            last_named(all, all.len() as int) == last_named(all, n as int),
        decreases n,
    {
        assert(all[n - 1] == parts@[n - 1]@);
        let part = string_of(parts[n - 1].as_slice());
        if part.as_str().is_empty() || (same_text(part.as_str(), ".") && n > 1) {
            n -= 1;
        } else if same_text(part.as_str(), ".") || same_text(part.as_str(), "..") {
            return side.to_owned();
        } else {
            return part;
        }
    }
    side.to_owned()
}

/// The name tried in place `counter`: the path with the suffix, and from the
/// second on with a number.
pub open spec fn aside_candidate(path: Seq<char>, suffix: Seq<char>, counter: nat) -> Seq<char> {
    if counter <= 1 {
        path + "."@ + suffix
    } else {
        path + "."@ + suffix + "."@ + decimal_text(counter)
    }
}

/// Whether a candidate is free.
pub open spec fn free(root: Option<NodeView>, path: Seq<char>, suffix: Seq<char>, counter: nat) -> bool {
    at_path(root, aside_candidate(path, suffix, counter)) is None
}

/// A free name beside a path for a version that is kept, with the side it
/// came from: the first candidate that is not taken in the scanned tree.
/// `None` only where every one is, up to the largest number there is.
pub fn free_name(root: Option<&Node>, path: &str, side: &str) -> (r: Option<String>)
    ensures
        match r {
            Some(name) => exists|k: nat|
                1 <= k <= u64::MAX && name@ == aside_candidate(path@, aside_suffix(side@), k)
                    && free(node_option(root), path@, aside_suffix(side@), k) && forall|j: nat|
                    1 <= j < k ==> !#[trigger] free(
                        node_option(root),
                        path@,
                        aside_suffix(side@),
                        j,
                    ),
            None => forall|j: nat|
                1 <= j <= u64::MAX ==> !#[trigger] free(
                    node_option(root),
                    path@,
                    aside_suffix(side@),
                    j,
                ),
        },
{
    let suffix = suffix_of(side);
    let ghost tree = node_option(root);
    let mut counter: u64 = 1;
    loop
        invariant
            counter >= 1,
            tree == node_option(root),
            suffix@ == aside_suffix(side@),
            forall|j: nat| 1 <= j < counter ==> !#[trigger] free(tree, path@, suffix@, j),
        decreases u64::MAX - counter,
    {
        let mut candidate = path.to_owned();
        candidate.append(".");
        candidate.append(suffix.as_str());
        if counter > 1 {
            candidate.append(".");
            let number = decimal(counter);
            candidate.append(number.as_str());
        }
        assert(candidate@ == aside_candidate(path@, suffix@, counter as nat));
        if node_at(root, candidate.as_str()).is_none() {
            assert(free(tree, path@, suffix@, counter as nat));
            return Some(candidate);
        }
        assert(!free(tree, path@, suffix@, counter as nat));
        if counter == u64::MAX {
            return None;
        }
        counter += 1;
    }
}

/// What a losing side does about a path.
#[derive(Debug)]
pub enum PathPlan {
    /// Nothing is there; the cycle carries the winner's version anyway.
    Gone,
    /// It already holds what the winner does.
    Agreed,
    /// Its version is moved aside, under this name.
    Aside {
        /// The name.
        aside: String,
    },
    /// Its version would be moved aside, and no name is free.
    Crowded,
    /// It holds something that could not be scanned, and so is not removed.
    Blocked {
        /// The path of that.
        example: String,
        /// Why it could not be scanned.
        reason: String,
    },
    /// Nothing there is synchronization's to remove.
    Nothing,
    /// This is removed.
    Retire {
        /// What may be removed.
        expectation: Node,
    },
}

/// Whether a plan is what a losing side has to do about a path, given its tree
/// and the winner's.
pub open spec fn plans_path(
    plan: PathPlan,
    own: Option<NodeView>,
    winning: Option<NodeView>,
    path: Seq<char>,
    side: Seq<char>,
    both: bool,
) -> bool {
    let node = at_path(own, path);
    let kept = at_path(winning, path);
    if node is None {
        plan is Gone
    } else if agrees(node, kept) {
        plan is Agreed
    } else if both {
        match plan {
            PathPlan::Aside { aside } => exists|k: nat|
                1 <= k <= u64::MAX && aside@ == aside_candidate(path, aside_suffix(side), k)
                    && free(own, path, aside_suffix(side), k) && forall|j: nat|
                    1 <= j < k ==> !#[trigger] free(own, path, aside_suffix(side), j),
            PathPlan::Crowded => forall|j: nat|
                1 <= j <= u64::MAX ==> !#[trigger] free(own, path, aside_suffix(side), j),
            _ => false,
        }
    } else {
        match (unscanned(node->0.content, path), synchronizable_node(node->0)) {
            (Some(found), _) => plan matches PathPlan::Blocked { example, reason } && (
            example@,
            reason@,
            ) == found,
            (None, None) => plan is Nothing,
            (None, Some(subtree)) => plan matches PathPlan::Retire { expectation }
                && expectation.view() == subtree,
        }
    }
}

/// What a losing side does about a path. A version that agrees with the
/// winner's is left: removing it would gain nothing, and could read as a
/// deletion.
pub fn plan_path(
    own: Option<&Node>,
    winning: Option<&Node>,
    path: &str,
    side: &str,
    both: bool,
) -> (r: PathPlan)
    ensures
        plans_path(r, node_option(own), node_option(winning), path@, side@, both),
{
    let node = match node_at(own, path) {
        Some(node) => node,
        None => {
            return PathPlan::Gone;
        },
    };
    let kept = node_at(winning, path);
    if same_content(Some(node), kept) {
        return PathPlan::Agreed;
    }
    if both {
        return match free_name(own, path, side) {
            Some(aside) => PathPlan::Aside { aside },
            None => PathPlan::Crowded,
        };
    }
    match unsynchronizable_within(node, path) {
        Some(found) => PathPlan::Blocked { example: found.0, reason: found.1 },
        None => match node.synchronizable_subtree() {
            Some(expectation) => PathPlan::Retire { expectation },
            None => PathPlan::Nothing,
        },
    }
}

/// A side that loses in a session.
#[derive(Debug)]
pub struct Loser {
    /// The number of the session in its group.
    pub index: usize,
    /// Whether the side is alpha.
    pub alpha: bool,
    /// What the side is called.
    pub side: String,
    /// Its tree.
    pub root: Option<Node>,
    /// The paths it acts on.
    pub paths: Vec<String>,
    /// What it does about each.
    pub plans: Vec<PathPlan>,
}

impl Loser {
    /// Whether there is a plan for every path.
    pub open spec fn well_formed(&self) -> bool {
        self.paths@.len() == self.plans@.len()
    }

    /// Plans what a losing side does about its paths.
    pub fn new(
        index: usize,
        alpha: bool,
        side: String,
        root: Option<Node>,
        paths: Vec<String>,
        winning: Option<&Node>,
        both: bool,
    ) -> (loser: Loser)
        ensures
            loser.well_formed(),
            loser.index == index,
            loser.alpha == alpha,
            loser.side == side,
            loser.root == root,
            loser.paths == paths,
            forall|i: int|
                0 <= i < paths@.len() ==> plans_path(
                    #[trigger] loser.plans@[i],
                    owned_option(root),
                    node_option(winning),
                    paths@[i]@,
                    side@,
                    both,
                ),
    {
        let mut plans: Vec<PathPlan> = Vec::new();
        let own: Option<&Node> = root.as_ref();
        assert(node_option(own) == owned_option(root));
        let mut i: usize = 0;
        while i < paths.len()
            invariant
                i <= paths@.len(),
                plans@.len() == i,
                node_option(own) == owned_option(root),
                forall|k: int|
                    0 <= k < i ==> plans_path(
                        #[trigger] plans@[k],
                        owned_option(root),
                        node_option(winning),
                        paths@[k]@,
                        side@,
                        both,
                    ),
            decreases paths@.len() - i,
        {
            plans.push(plan_path(own, winning, paths[i].as_str(), side.as_str(), both));
            i += 1;
        }
        Loser { index, alpha, side, root, paths, plans }
    }
}

/// Whether a plan changes anything on its side.
pub open spec fn acts(plan: PathPlan) -> bool {
    plan is Aside || plan is Retire
}

fn is_action(plan: &PathPlan) -> (r: bool)
    ensures
        r == acts(*plan),
{
    match plan {
        PathPlan::Aside { .. } => true,
        PathPlan::Retire { .. } => true,
        _ => false,
    }
}

/// The paths among the first `n` of a loser that it acts on, without those
/// that are refused.
pub open spec fn acting(loser: Loser, refused: Seq<Seq<char>>, n: int) -> Seq<Seq<char>>
    decreases n,
{
    if n <= 0 {
        Seq::empty()
    } else if acts(loser.plans@[n - 1]) && !refused.contains(loser.paths@[n - 1]@) {
        acting(loser, refused, n - 1).push(loser.paths@[n - 1]@)
    } else {
        acting(loser, refused, n - 1)
    }
}

/// The paths a loser acts on, without those that are refused.
pub fn acting_paths(loser: &Loser, refused: &[String]) -> (r: Vec<String>)
    requires
        loser.well_formed(),
    ensures
        strings(r@) == acting(*loser, strings(refused@), loser.paths@.len() as int),
{
    let mut r: Vec<String> = Vec::new();
    let mut i: usize = 0;
    assert(strings(r@) =~= acting(*loser, strings(refused@), 0));
    while i < loser.paths.len()
        invariant
            i <= loser.paths@.len(),
            loser.well_formed(),
            strings(r@) == acting(*loser, strings(refused@), i as int),
        decreases loser.paths@.len() - i,
    {
        if is_action(&loser.plans[i]) && !holds_text(refused, loser.paths[i].as_str()) {
            push_line(&mut r, loser.paths[i].clone());
        }
        i += 1;
    }
    r
}

/// The paths of the first `n` of a loser's plans that are blocked.
pub open spec fn blocked_in(loser: Loser, n: int) -> Seq<Seq<char>>
    decreases n,
{
    if n <= 0 {
        Seq::empty()
    } else if loser.plans@[n - 1] is Blocked {
        blocked_in(loser, n - 1).push(loser.paths@[n - 1]@)
    } else {
        blocked_in(loser, n - 1)
    }
}

/// The paths that are blocked on some losing side. One is settled on none:
/// removing the other copies would only make the sides disagree in a new way.
pub open spec fn blocked_anywhere(losers: Seq<Loser>) -> Seq<Seq<char>>
    decreases losers.len(),
{
    if losers.len() == 0 {
        Seq::empty()
    } else {
        blocked_anywhere(losers.drop_last()) + blocked_in(
            losers.last(),
            losers.last().paths@.len() as int,
        )
    }
}

/// Whether every loser has a plan for each of its paths.
pub open spec fn all_well_formed(losers: Seq<Loser>) -> bool {
    forall|i: int| 0 <= i < losers.len() ==> (#[trigger] losers[i]).well_formed()
}

/// The paths that are blocked on some losing side.
pub fn blocked_paths(losers: &[Loser]) -> (r: Vec<String>)
    requires
        all_well_formed(losers@),
    ensures
        strings(r@) == blocked_anywhere(losers@),
{
    let mut r: Vec<String> = Vec::new();
    let mut i: usize = 0;
    assert(strings(r@) =~= blocked_anywhere(losers@.take(0)));
    while i < losers.len()
        invariant
            i <= losers@.len(),
            all_well_formed(losers@),
            strings(r@) == blocked_anywhere(losers@.take(i as int)),
        decreases losers@.len() - i,
    {
        let ghost start = strings(r@);
        let loser = &losers[i];
        assert(loser.well_formed());
        assert(losers@.take(i + 1).drop_last() =~= losers@.take(i as int));
        let mut k: usize = 0;
        assert(start + blocked_in(*loser, 0) =~= start);
        while k < loser.paths.len()
            invariant
                k <= loser.paths@.len(),
                loser.well_formed(),
                strings(r@) == start + blocked_in(*loser, k as int),
            decreases loser.paths@.len() - k,
        {
            let blocked = match &loser.plans[k] {
                PathPlan::Blocked { .. } => true,
                _ => false,
            };
            if blocked {
                push_line(&mut r, loser.paths[k].clone());
                assert(strings(r@) =~= start + blocked_in(*loser, k + 1));
            }
            k += 1;
        }
        i += 1;
    }
    assert(losers@.take(losers@.len() as int) =~= losers@);
    r
}

/// Every path that some loser acts on.
pub open spec fn acting_anywhere(losers: Seq<Loser>, refused: Seq<Seq<char>>) -> Seq<Seq<char>>
    decreases losers.len(),
{
    if losers.len() == 0 {
        Seq::empty()
    } else {
        acting_anywhere(losers.drop_last(), refused) + acting(
            losers.last(),
            refused,
            losers.last().paths@.len() as int,
        )
    }
}

/// Every path that some loser acts on, each once, in order.
pub fn acted_paths(losers: &[Loser], refused: &[String]) -> (r: Vec<String>)
    requires
        all_well_formed(losers@),
    ensures
        strings(r@) == sorted(acting_anywhere(losers@, strings(refused@))),
{
    let mut all: Vec<String> = Vec::new();
    let mut i: usize = 0;
    assert(strings(all@) =~= acting_anywhere(losers@.take(0), strings(refused@)));
    while i < losers.len()
        invariant
            i <= losers@.len(),
            all_well_formed(losers@),
            strings(all@) == acting_anywhere(losers@.take(i as int), strings(refused@)),
        decreases losers@.len() - i,
    {
        assert(losers@.take(i + 1).drop_last() =~= losers@.take(i as int));
        assert(losers@[i as int].well_formed());
        let ghost before = strings(all@);
        let mut more = acting_paths(&losers[i], refused);
        let ghost added = strings(more@);
        all.append(&mut more);
        assert(strings(all@) =~= before + added);
        i += 1;
    }
    assert(losers@.take(losers@.len() as int) =~= losers@);
    sort_texts(all.as_slice())
}

// ---------------------------------------------------------------------------
// Working out the next cycle
// ---------------------------------------------------------------------------

/// A change to a tree: what a path holds afterwards.
#[derive(Debug)]
pub struct Replacement {
    /// The path.
    pub path: String,
    /// What it holds afterwards; nothing where it is removed.
    pub new: Option<Node>,
}

/// A change to a tree.
#[verifier::ext_equal]
pub struct ReplacementView {
    /// The path.
    pub path: Seq<char>,
    /// What it holds afterwards.
    pub new: Option<NodeView>,
}

impl Replacement {
    /// What the change is.
    pub open spec fn view(&self) -> ReplacementView {
        ReplacementView { path: self.path@, new: owned_option(self.new) }
    }
}

/// What changes are.
pub open spec fn replacement_views(changes: Seq<Replacement>) -> Seq<ReplacementView> {
    Seq::new(changes.len(), |i: int| changes[i].view())
}

/// What the first `n` of a loser's plans change in its tree: what is retired
/// goes, and what is moved aside appears under its new name.
pub open spec fn changes_of(loser: Loser, refused: Seq<Seq<char>>, n: int) -> Seq<ReplacementView>
    decreases n,
{
    if n <= 0 {
        Seq::empty()
    } else {
        let front = changes_of(loser, refused, n - 1);
        let path = loser.paths@[n - 1]@;
        let removal = ReplacementView { path, new: None };
        if !acts(loser.plans@[n - 1]) || refused.contains(path) {
            front
        } else {
            match loser.plans@[n - 1] {
                PathPlan::Aside { aside } => front.push(removal).push(
                    ReplacementView {
                        path: aside@,
                        new: at_path(owned_option(loser.root), path),
                    },
                ),
                _ => front.push(removal),
            }
        }
    }
}

fn push_change(changes: &mut Vec<Replacement>, change: Replacement)
    ensures
        replacement_views(final(changes)@) == replacement_views(old(changes)@).push(change.view()),
{
    let ghost before = replacement_views(changes@);
    let ghost added = change.view();
    changes.push(change);
    assert(replacement_views(changes@) =~= before.push(added));
}

/// What a loser changes in its tree.
pub fn removals_of(loser: &Loser, refused: &[String]) -> (r: Vec<Replacement>)
    requires
        loser.well_formed(),
    ensures
        replacement_views(r@) == changes_of(
            *loser,
            strings(refused@),
            loser.paths@.len() as int,
        ),
{
    let mut r: Vec<Replacement> = Vec::new();
    let own: Option<&Node> = loser.root.as_ref();
    let mut i: usize = 0;
    assert(replacement_views(r@) =~= changes_of(*loser, strings(refused@), 0));
    assert(node_option(own) == owned_option(loser.root));
    while i < loser.paths.len()
        invariant
            i <= loser.paths@.len(),
            loser.well_formed(),
            node_option(own) == owned_option(loser.root),
            replacement_views(r@) == changes_of(*loser, strings(refused@), i as int),
        decreases loser.paths@.len() - i,
    {
        let path = &loser.paths[i];
        if is_action(&loser.plans[i]) && !holds_text(refused, path.as_str()) {
            push_change(&mut r, Replacement { path: path.clone(), new: None });
            match &loser.plans[i] {
                PathPlan::Aside { aside } => {
                    let new = match node_at(own, path.as_str()) {
                        Some(node) => Some(node.duplicate()),
                        None => None,
                    };
                    push_change(&mut r, Replacement { path: aside.clone(), new });
                },
                _ => {},
            }
        }
        i += 1;
    }
    r
}

/// What alpha holds at some paths once the winner's version has come back to
/// it.
pub fn replacements(decided: &[String], winning: Option<&Node>) -> (r: Vec<Replacement>)
    ensures
        r@.len() == decided@.len(),
        forall|i: int|
            0 <= i < r@.len() ==> (#[trigger] r@[i]).view() == (ReplacementView {
                path: decided@[i]@,
                new: at_path(node_option(winning), decided@[i]@),
            }),
{
    let mut r: Vec<Replacement> = Vec::new();
    let mut i: usize = 0;
    while i < decided.len()
        invariant
            i <= decided@.len(),
            r@.len() == i,
            forall|k: int|
                0 <= k < i ==> (#[trigger] r@[k]).view() == (ReplacementView {
                    path: decided@[k]@,
                    new: at_path(node_option(winning), decided@[k]@),
                }),
        decreases decided@.len() - i,
    {
        let new = match node_at(winning, decided[i].as_str()) {
            Some(node) => Some(node.duplicate()),
            None => None,
        };
        r.push(Replacement { path: decided[i].clone(), new });
        i += 1;
    }
    r
}

/// The loser of the session at `index` whose side is a beta, among those from
/// `from` on.
pub open spec fn beta_loser(losers: Seq<Loser>, index: int, from: int) -> Option<int>
    decreases losers.len() - from,
{
    if from < 0 || from >= losers.len() {
        None
    } else if losers[from].index == index && !losers[from].alpha {
        Some(from)
    } else {
        beta_loser(losers, index, from + 1)
    }
}

/// The loser of the session at `index` whose side is a beta.
pub fn find_beta_loser(losers: &[Loser], index: usize) -> (r: Option<usize>)
    ensures
        match r {
            Some(k) => k < losers@.len() && beta_loser(losers@, index as int, 0) == Some(k as int),
            None => beta_loser(losers@, index as int, 0) is None,
        },
{
    let mut k: usize = 0;
    while k < losers.len()
        invariant
            k <= losers@.len(),
            beta_loser(losers@, index as int, 0) == beta_loser(losers@, index as int, k as int),
        decreases losers@.len() - k,
    {
        if losers[k].index == index && !losers[k].alpha {
            return Some(k);
        }
        k += 1;
    }
    None
}

/// The paths the cycle of the session at `index` decides.
pub open spec fn decided_in(
    winner: Winner,
    losers: Seq<Loser>,
    index: int,
    refused: Seq<Seq<char>>,
) -> Seq<Seq<char>> {
    match winner {
        Winner::Beta(_) => sorted(acting_anywhere(losers, refused)),
        _ => match beta_loser(losers, index, 0) {
            Some(k) => acting(losers[k], refused, losers[k].paths@.len() as int),
            None => Seq::empty(),
        },
    }
}

/// The paths the cycle of the session at `index` decides: all that are acted
/// on where a destination wins, and those of its own losing beta otherwise.
pub fn decided_paths(winner: Winner, losers: &[Loser], index: usize, refused: &[String]) -> (r: Vec<
    String,
>)
    requires
        all_well_formed(losers@),
    ensures
        strings(r@) == decided_in(winner, losers@, index as int, strings(refused@)),
{
    match winner {
        Winner::Beta(_) => acted_paths(losers, refused),
        _ => match find_beta_loser(losers, index) {
            Some(k) => {
                assert(losers@[k as int].well_formed());
                acting_paths(&losers[k], refused)
            },
            None => {
                let none: Vec<String> = Vec::new();
                assert(strings(none@) =~= Seq::<Seq<char>>::empty());
                none
            },
        },
    }
}

/// The tree a side starts the next cycle with.
#[derive(Clone, Copy, Debug, PartialEq, Eq)]
pub enum StartingTree {
    /// The winner's, as it was read.
    Winning,
    /// The losing side's, with what it retires gone.
    Retired,
    /// Alpha's, with the winner's version at every path that is decided.
    Replaced,
    /// As it was read, since it has nothing to retire.
    AsRead,
}

/// The trees alpha and beta of the session at `index` start the next cycle
/// with.
pub open spec fn starts_with(winner: Winner, index: int, has_beta_loser: bool) -> (
    StartingTree,
    StartingTree,
) {
    match winner {
        Winner::Beta(w) => if w == index {
            (StartingTree::Retired, StartingTree::Winning)
        } else if has_beta_loser {
            (StartingTree::Replaced, StartingTree::Retired)
        } else {
            (StartingTree::Replaced, StartingTree::AsRead)
        },
        _ => (StartingTree::Winning, StartingTree::Retired),
    }
}

/// The trees alpha and beta of the session at `index` start the next cycle
/// with. Where a destination wins, every other session is assumed to run when
/// alpha already holds the winner's version: the worst order.
pub fn starting_trees(winner: Winner, index: usize, has_beta_loser: bool) -> (r: (
    StartingTree,
    StartingTree,
))
    ensures
        r == starts_with(winner, index as int, has_beta_loser),
{
    match winner {
        Winner::Beta(w) => if w == index {
            (StartingTree::Retired, StartingTree::Winning)
        } else if has_beta_loser {
            (StartingTree::Replaced, StartingTree::Retired)
        } else {
            (StartingTree::Replaced, StartingTree::AsRead)
        },
        _ => (StartingTree::Winning, StartingTree::Retired),
    }
}

/// Why a path is not settled although nothing blocks it.
#[derive(Debug)]
pub enum Unsafe {
    /// What the cycle would do cannot be worked out.
    Unknown {
        /// Why.
        message: String,
    },
    /// In this mode alpha's deletion beats the winner's edit.
    DeletionWins,
    /// The winner has not changed since the last sync, so the gap reads as a
    /// deletion.
    Unchanged,
    /// The mode does not carry the winner's version.
    NotCarried,
    /// The version moved aside would not survive.
    AsideLost {
        /// The name it would have.
        aside: String,
    },
}

/// What a loser moves the version at a path aside as: the first plan for the
/// path among those from `from` on that does.
pub open spec fn aside_for(loser: Loser, path: Seq<char>, from: int) -> Option<Seq<char>>
    decreases loser.paths@.len() - from,
{
    if from < 0 || from >= loser.paths@.len() {
        None
    } else if loser.paths@[from]@ == path && loser.plans@[from] is Aside {
        Some(loser.plans@[from]->aside@)
    } else {
        aside_for(loser, path, from + 1)
    }
}

fn find_aside<'a>(loser: &'a Loser, path: &str) -> (r: Option<&'a String>)
    requires
        loser.well_formed(),
    ensures
        (match r {
            Some(aside) => Some(aside@),
            None => None,
        }) == aside_for(*loser, path@, 0),
{
    let mut i: usize = 0;
    while i < loser.paths.len()
        invariant
            i <= loser.paths@.len(),
            loser.well_formed(),
            aside_for(*loser, path@, 0) == aside_for(*loser, path@, i as int),
        decreases loser.paths@.len() - i,
    {
        if same_text(loser.paths[i].as_str(), path) {
            match &loser.plans[i] {
                PathPlan::Aside { aside } => {
                    return Some(aside);
                },
                _ => {},
            }
        }
        i += 1;
    }
    None
}

/// The trees a session's cycle starts from and ends with, as far as they are
/// looked at.
pub struct Cycle<'a> {
    /// What the last sync recorded.
    pub ancestor: Option<&'a Node>,
    /// The winner's tree.
    pub winning: Option<&'a Node>,
    /// Alpha's tree after the cycle.
    pub alpha: Option<&'a Node>,
    /// Beta's tree after the cycle.
    pub beta: Option<&'a Node>,
}

/// Whether a path's kept version survives a cycle: on both sides, or, in a
/// session that is not the winning destination's, on alpha.
pub open spec fn survives(winner: Winner, index: int, cycle: Cycle, path: Seq<char>) -> bool {
    let kept = at_path(node_option(cycle.winning), path);
    let on_alpha = agrees(at_path(node_option(cycle.alpha), path), kept);
    let on_beta = agrees(at_path(node_option(cycle.beta), path), kept);
    match winner {
        Winner::Beta(w) if w != index => on_alpha,
        _ => on_alpha && on_beta,
    }
}

/// Whether a verdict is the one on a path, once its session's cycle is worked
/// out: `None` where the kept version and the one moved aside survive it.
pub open spec fn judges(
    verdict: Option<Unsafe>,
    winner: Winner,
    index: int,
    mode: SyncMode,
    loser: Option<Loser>,
    cycle: Cycle,
    path: Seq<char>,
) -> bool {
    let kept = at_path(node_option(cycle.winning), path);
    let aside = match loser {
        Some(loser) => aside_for(loser, path, 0),
        None => None,
    };
    if !survives(winner, index, cycle, path) {
        if alpha_loses(winner, index) && mode == SyncMode::TwoWayStrict {
            verdict matches Some(Unsafe::DeletionWins)
        } else if kept is Some && agrees(at_path(node_option(cycle.ancestor), path), kept) {
            verdict matches Some(Unsafe::Unchanged)
        } else {
            verdict matches Some(Unsafe::NotCarried)
        }
    } else {
        match aside {
            Some(name) => if !agrees(
                at_path(node_option(cycle.beta), name),
                at_path(owned_option(loser->0.root), path),
            ) {
                verdict matches Some(Unsafe::AsideLost { aside }) && aside@ == name
            } else {
                verdict is None
            },
            None => verdict is None,
        }
    }
}

/// Judges a path, once its session's cycle is worked out: whether the version
/// that is kept, and the one that is moved aside, survive it.
pub fn judge(
    winner: Winner,
    index: usize,
    mode: SyncMode,
    loser: Option<&Loser>,
    cycle: &Cycle,
    path: &str,
) -> (r: Option<Unsafe>)
    requires
        loser matches Some(l) ==> l.well_formed(),
    ensures
        judges(
            r,
            winner,
            index as int,
            mode,
            match loser {
                Some(l) => Some(*l),
                None => None,
            },
            *cycle,
            path@,
        ),
{
    let kept = node_at(cycle.winning, path);
    let on_alpha = same_content(node_at(cycle.alpha, path), kept);
    let on_beta = same_content(node_at(cycle.beta, path), kept);
    let survived = match winner {
        Winner::Beta(w) => if w != index {
            on_alpha
        } else {
            on_alpha && on_beta
        },
        _ => on_alpha && on_beta,
    };
    if !survived {
        if loses_alpha(winner, index) && mode == SyncMode::TwoWayStrict {
            return Some(Unsafe::DeletionWins);
        }
        if kept.is_some() && same_content(node_at(cycle.ancestor, path), kept) {
            return Some(Unsafe::Unchanged);
        }
        return Some(Unsafe::NotCarried);
    }
    match loser {
        None => None,
        Some(l) => match find_aside(l, path) {
            None => None,
            Some(aside) => {
                let own: Option<&Node> = l.root.as_ref();
                assert(node_option(own) == owned_option(l.root));
                let moved = node_at(cycle.beta, aside.as_str());
                if !same_content(moved, node_at(own, path)) {
                    Some(Unsafe::AsideLost { aside: aside.clone() })
                } else {
                    None
                }
            },
        },
    }
}

/// The words for a cycle that cannot be worked out.
pub open spec fn unknown_text(winner_name: Seq<char>, message: Seq<char>) -> Seq<char> {
    "whether keeping "@ + winner_name + " here would delete it cannot be worked out ("@ + message
        + ")"@
}

/// The words for a mode in which alpha's deletion wins.
pub open spec fn deletion_wins_text(winner_name: Seq<char>, mode: Seq<char>) -> Seq<char> {
    "keeping "@ + winner_name + " here would delete it: in "@ + mode + " alpha's deletion beats "@
        + winner_name + "'s edit, so removing alpha's copy removes "@ + winner_name + "'s too"@
}

/// The words for a winner that has not changed.
pub open spec fn unchanged_text(winner_name: Seq<char>) -> Seq<char> {
    "keeping "@ + winner_name + " here would delete it: "@ + winner_name
        + " has not changed since the last sync, so removing the other copy reads as a deletion. Edit the file on "@
        + winner_name + " first, or wait for the fix to forcing a match"@
}

/// The words for a mode that does not carry the winner's version.
pub open spec fn not_carried_text(
    winner_name: Seq<char>,
    host: Seq<char>,
    mode: Seq<char>,
) -> Seq<char> {
    "keeping "@ + winner_name + " here would not carry it to "@ + host + " in "@ + mode
}

/// The words for a version moved aside that would not survive.
pub open spec fn aside_lost_text(host: Seq<char>, aside: Seq<char>, mode: Seq<char>) -> Seq<char> {
    host + "'s copy, moved aside to "@ + aside + ", would not survive in "@ + mode
}

/// The words for why a path is not settled.
pub open spec fn unsafe_text(
    reason: Unsafe,
    winner_name: Seq<char>,
    host: Seq<char>,
    mode: Seq<char>,
) -> Seq<char> {
    match reason {
        Unsafe::Unknown { message } => unknown_text(winner_name, message@),
        Unsafe::DeletionWins => deletion_wins_text(winner_name, mode),
        Unsafe::Unchanged => unchanged_text(winner_name),
        Unsafe::NotCarried => not_carried_text(winner_name, host, mode),
        Unsafe::AsideLost { aside } => aside_lost_text(host, aside@, mode),
    }
}

/// The words for why a path is not settled.
pub fn unsafe_words(reason: &Unsafe, winner_name: &str, host: &str, mode: &str) -> (r: String)
    ensures
        r@ == unsafe_text(*reason, winner_name@, host@, mode@),
{
    let mut r = String::new();
    match reason {
        Unsafe::Unknown { message } => {
            r.append("whether keeping ");
            r.append(winner_name);
            r.append(" here would delete it cannot be worked out (");
            r.append(message.as_str());
            r.append(")");
        },
        Unsafe::DeletionWins => {
            r.append("keeping ");
            r.append(winner_name);
            r.append(" here would delete it: in ");
            r.append(mode);
            r.append(" alpha's deletion beats ");
            r.append(winner_name);
            r.append("'s edit, so removing alpha's copy removes ");
            r.append(winner_name);
            r.append("'s too");
        },
        Unsafe::Unchanged => {
            r.append("keeping ");
            r.append(winner_name);
            r.append(" here would delete it: ");
            r.append(winner_name);
            r.append(
                " has not changed since the last sync, so removing the other copy reads as a deletion. Edit the file on ",
            );
            r.append(winner_name);
            r.append(" first, or wait for the fix to forcing a match");
        },
        Unsafe::NotCarried => {
            r.append("keeping ");
            r.append(winner_name);
            r.append(" here would not carry it to ");
            r.append(host);
            r.append(" in ");
            r.append(mode);
        },
        Unsafe::AsideLost { aside } => {
            r.append(host);
            r.append("'s copy, moved aside to ");
            r.append(aside.as_str());
            r.append(", would not survive in ");
            r.append(mode);
        },
    }
    assert(r@ =~= unsafe_text(*reason, winner_name@, host@, mode@));
    r
}

/// A path that is refused, or that already agrees with the winner's version,
/// is not touched on any side.
pub proof fn law_only_disputed_paths_are_touched(
    loser: Loser,
    refused: Seq<Seq<char>>,
    winning: Option<NodeView>,
    both: bool,
    path: Seq<char>,
)
    requires
        loser.well_formed(),
        forall|i: int|
            0 <= i < loser.paths@.len() ==> plans_path(
                #[trigger] loser.plans@[i],
                owned_option(loser.root),
                winning,
                loser.paths@[i]@,
                loser.side@,
                both,
            ),
        acting(loser, refused, loser.paths@.len() as int).contains(path),
    ensures
        !refused.contains(path),
        at_path(owned_option(loser.root), path) is Some,
        !agrees(at_path(owned_option(loser.root), path), at_path(winning, path)),
{
    lemma_acting(loser, refused, loser.paths@.len() as int, path);
}

proof fn lemma_acting(loser: Loser, refused: Seq<Seq<char>>, n: int, path: Seq<char>)
    requires
        loser.well_formed(),
        0 <= n <= loser.paths@.len(),
        acting(loser, refused, n).contains(path),
    ensures
        !refused.contains(path),
        exists|i: int|
            0 <= i < n && loser.paths@[i]@ == path && acts(#[trigger] loser.plans@[i]),
    decreases n,
{
    if n > 0 {
        let all = acting(loser, refused, n);
        let front = acting(loser, refused, n - 1);
        let k = choose|k: int| 0 <= k < all.len() && all[k] == path;
        if k < front.len() {
            assert(front[k] == path);
            lemma_acting(loser, refused, n - 1, path);
        } else {
            assert(acts(loser.plans@[n - 1]));
        }
    }
}

/// Nothing that could not be scanned is ever removed: what is retired holds no
/// such entry.
pub proof fn law_retiring_removes_only_what_was_scanned(
    plan: PathPlan,
    own: Option<NodeView>,
    winning: Option<NodeView>,
    path: Seq<char>,
    side: Seq<char>,
    both: bool,
)
    requires
        plans_path(plan, own, winning, path, side, both),
        plan is Retire,
    ensures
        at_path(own, path) is Some,
        unscanned(at_path(own, path)->0.content, path) is None,
        plan->expectation.view() == synchronizable_node(at_path(own, path)->0)->0,
{
}

/// Who wins is named: `alpha`, `both`, or a destination by its host or its
/// root, where that names one destination of the group and no other.
pub proof fn law_a_winner_is_named(plans: Seq<SessionPlan>, keep: Seq<char>)
    requires
        plans.len() <= usize::MAX,
    ensures
        keep == "alpha"@ ==> winner_of(plans, keep) == Ok::<Winner, KeepError>(Winner::Alpha),
        keep == "both"@ ==> winner_of(plans, keep) == Ok::<Winner, KeepError>(Winner::Both),
        keep != "alpha"@ && keep != "both"@ ==> match winner_of(plans, keep) {
            Ok(Winner::Beta(i)) => {
                &&& i < plans.len()
                &&& plans[i as int].host@ == keep || plans[i as int].beta_spec@ == keep
                &&& forall|j: int|
                    0 <= j < plans.len() && j != i ==> (#[trigger] plans[j]).host@ != keep
                        && plans[j].beta_spec@ != keep
            },
            Ok(_) => false,
            Err(KeepError::Unknown) => forall|j: int|
                0 <= j < plans.len() ==> (#[trigger] plans[j]).host@ != keep && plans[j].beta_spec@
                    != keep,
            Err(KeepError::Ambiguous) => exists|i: int, j: int|
                0 <= i < j < plans.len() && ((#[trigger] plans[i]).host@ == keep
                    || plans[i].beta_spec@ == keep) && ((#[trigger] plans[j]).host@ == keep
                    || plans[j].beta_spec@ == keep),
        },
{
    reveal_strlit("alpha");
    reveal_strlit("both");
    assert("alpha"@[0] == 'a' && "both"@[0] == 'b');
    let n = plans.len() as int;
    let named = destinations(plans, keep, n);
    lemma_destinations(plans, keep, n);
    if named.len() == 1 {
        assert(named.contains(named[0]));
        assert(named[0] as usize == named[0]);
        assert forall|j: int| 0 <= j < plans.len() && j != named[0] implies (
        #[trigger] plans[j]).host@ != keep && plans[j].beta_spec@ != keep by {
            if plans[j].host@ == keep || plans[j].beta_spec@ == keep {
                assert(named.contains(j));
                let k = choose|k: int| 0 <= k < named.len() && named[k] == j;
                assert(k == 0);
            }
        }
    } else if named.len() > 1 {
        let (i, j) = (named[0], named[1]);
        assert(named.contains(i) && named.contains(j));
        assert(plans[i] == plans[i] && plans[j] == plans[j]);
    } else {
        assert forall|j: int| 0 <= j < plans.len() implies (#[trigger] plans[j]).host@ != keep
            && plans[j].beta_spec@ != keep by {
            if plans[j].host@ == keep || plans[j].beta_spec@ == keep {
                assert(named.contains(j));
            }
        }
    }
}

proof fn lemma_destinations(plans: Seq<SessionPlan>, keep: Seq<char>, n: int)
    requires
        0 <= n <= plans.len(),
    ensures
        forall|j: int|
            #[trigger] destinations(plans, keep, n).contains(j) <==> 0 <= j < n && (plans[j].host@
                == keep || plans[j].beta_spec@ == keep),
        forall|a: int, b: int|
            0 <= a < b < destinations(plans, keep, n).len() ==> destinations(plans, keep, n)[a]
                < destinations(plans, keep, n)[b],
    decreases n,
{
    if n > 0 {
        lemma_destinations(plans, keep, n - 1);
        let front = destinations(plans, keep, n - 1);
        assert forall|j: int|
            #[trigger] destinations(plans, keep, n).contains(j) <==> 0 <= j < n && (plans[j].host@
                == keep || plans[j].beta_spec@ == keep) by {
            lemma_pushed(front, n - 1, j);
            assert(front.contains(j) <==> 0 <= j < n - 1 && (plans[j].host@ == keep
                || plans[j].beta_spec@ == keep));
        }
        let all = destinations(plans, keep, n);
        assert forall|a: int, b: int| 0 <= a < b < all.len() implies all[a] < all[b] by {
            assert(front.contains(front[a]));
            if b < front.len() {
                assert(front[a] < front[b]);
            }
        }
    }
}

/// A session is a target exactly where conflicts are recorded for it, and where
/// folders are named, conflicts at or below them; it has all of these and no
/// other path.
pub proof fn law_a_target_has_the_recorded_conflicts(
    plans: Seq<SessionPlan>,
    records: Seq<Option<Vec<String>>>,
    folders: Option<Seq<Seq<char>>>,
    n: int,
    target: TargetView,
)
    requires
        0 <= n <= plans.len(),
        records.len() == plans.len(),
    ensures
        recorded_targets(plans, records, folders, n).contains(target) <==> exists|i: int|
            0 <= i < n && (#[trigger] records[i]) is Some && plans[i] == target.plan
                && target.paths.len() > 0 && target.paths == (match folders {
                Some(folders) => covered(strings(records[i]->0@), folders),
                None => strings(records[i]->0@),
            }),
        recorded_targets(plans, records, folders, n).len() <= n,
    decreases n,
{
    if n > 0 {
        law_a_target_has_the_recorded_conflicts(plans, records, folders, n - 1, target);
        let front = recorded_targets(plans, records, folders, n - 1);
        let conflicts = recorded_conflicts(records[n - 1]);
        let paths = match folders {
            Some(folders) => covered(conflicts, folders),
            None => conflicts,
        };
        if records[n - 1] is None {
            assert(paths.len() == 0);
        }
        lemma_pushed(front, TargetView { plan: plans[n - 1], paths }, target);
    }
}

/// The paths that a losing side acts on: all that are settled where alpha
/// loses, and otherwise those that are in conflict in its session.
pub proof fn law_a_side_acts_on_its_own_conflicts(
    paths: Seq<Seq<char>>,
    n: int,
    targets: Seq<Target>,
    identifier: Seq<char>,
    alpha: bool,
    path: Seq<char>,
)
    requires
        0 <= n <= paths.len(),
    ensures
        paths_in(paths, n, targets, identifier, alpha).contains(path) <==> (exists|i: int|
            0 <= i < n && #[trigger] paths[i] == path) && (alpha || exists|i: int, k: int|
            0 <= i < targets.len() && 0 <= k < targets[i].paths@.len()
                && targets[i].plan.identifier@ == identifier && (
            #[trigger] targets[i].paths@[k])@ == path),
    decreases n,
{
    if n > 0 {
        law_a_side_acts_on_its_own_conflicts(paths, n - 1, targets, identifier, alpha, path);
        lemma_pushed(paths_in(paths, n - 1, targets, identifier, alpha), paths[n - 1], path);
    }
    if conflicts_in(targets, identifier, path) {
        let i = choose|i: int|
            0 <= i < targets.len() && (#[trigger] targets[i]).plan.identifier@ == identifier
                && strings(targets[i].paths@).contains(path);
        let list = strings(targets[i].paths@);
        let k = choose|k: int| 0 <= k < list.len() && list[k] == path;
        assert(targets[i].paths@[k]@ == path);
    }
    if exists|i: int, k: int|
        0 <= i < targets.len() && 0 <= k < targets[i].paths@.len() && targets[i].plan.identifier@
            == identifier && (#[trigger] targets[i].paths@[k])@ == path {
        let (i, k) = choose|i: int, k: int|
            0 <= i < targets.len() && 0 <= k < targets[i].paths@.len()
                && targets[i].plan.identifier@ == identifier && (
            #[trigger] targets[i].paths@[k])@ == path;
        assert(strings(targets[i].paths@)[k] == path);
        assert(conflicts_in(targets, identifier, path));
    }
}

/// An entry could not be scanned whole exactly where it is a problem itself or
/// one of the entries in it could not; what is told of is the first, with its
/// path.
pub proof fn law_one_unscanned_entry_is_enough(
    content: ContentView,
    path: Seq<char>,
    children: Seq<NodeView>,
    child: NodeView,
)
    ensures
        content matches ContentView::Problematic { message } ==> unscanned(content, path) == Some(
            (path, message),
        ),
        content is File || content is Symlink || content is Untracked ==> unscanned(
            content,
            path,
        ) is None,
        unscanned(ContentView::Directory(Seq::empty()), path) is None,
        ({
            let some = unscanned(ContentView::Directory(children), path);
            let all = unscanned(ContentView::Directory(children.push(child)), path);
            &&& some is Some ==> all == some
            &&& some is None ==> all == unscanned(
                child.content,
                if path.len() == 0 {
                    child.name
                } else {
                    path + "/"@ + child.name
                },
            )
        }),
{
    assert(children.push(child).drop_last() =~= children);
}

/// What a losing side does about a path. Where it holds nothing there, nothing;
/// where it holds what the winner does, nothing. Otherwise its version goes:
/// moved aside where both are kept, and else retired, whether the winner holds
/// another version there or nothing at all; unless a part of it could not be
/// scanned, or none of it is synchronized.
pub proof fn law_a_losing_version_is_retired(
    plan: PathPlan,
    own: Option<NodeView>,
    winning: Option<NodeView>,
    path: Seq<char>,
    side: Seq<char>,
    both: bool,
)
    requires
        plans_path(plan, own, winning, path, side, both),
    ensures
        plan is Gone <==> at_path(own, path) is None,
        plan is Agreed <==> at_path(own, path) is Some && agrees(
            at_path(own, path),
            at_path(winning, path),
        ),
        at_path(own, path) matches Some(node) ==> {
            let differs = !agrees(Some(node), at_path(winning, path));
            &&& (plan is Aside || plan is Crowded) <==> differs && both
            &&& plan is Blocked <==> differs && !both && unscanned(node.content, path) is Some
            &&& plan is Retire <==> differs && !both && unscanned(node.content, path) is None
                && synchronizable_node(node) is Some
            &&& plan matches PathPlan::Retire { expectation } ==> Some(expectation.view())
                == synchronizable_node(node)
            &&& plan matches PathPlan::Blocked { example, reason } ==> Some((example@, reason@))
                == unscanned(node.content, path)
        },
        at_path(own, path) is Some && (at_path(own, path)->0.content is File || at_path(
            own,
            path,
        )->0.content is Symlink) && at_path(winning, path) is None && !both ==> plan is Retire
            && plan->expectation.view() == at_path(own, path)->0,
{
}

/// A version is moved aside under a name of its own: the path, a dot and the
/// side's name, where nothing is there in the side's tree.
pub proof fn law_a_version_is_moved_aside_to_a_free_name(
    plan: PathPlan,
    own: Option<NodeView>,
    winning: Option<NodeView>,
    path: Seq<char>,
    side: Seq<char>,
    both: bool,
)
    requires
        plans_path(plan, own, winning, path, side, both),
        plan is Aside,
    ensures
        at_path(own, plan->aside@) is None,
        plan->aside@ != path,
        plan->aside@.len() > path.len(),
        plan->aside@.take(path.len() as int) == path,
        plan->aside@[path.len() as int] == '.',
        at_path(own, path + "."@ + aside_suffix(side)) is None ==> plan->aside@ == path + "."@
            + aside_suffix(side),
        !side.contains('/') && side != "."@ && side != ".."@ && side.len() > 0 ==> aside_suffix(side)
            == side,
{
    reveal_strlit(".");
    let suffix = aside_suffix(side);
    let aside = plan->aside@;
    let k = choose|k: nat|
        1 <= k <= u64::MAX && aside == aside_candidate(path, suffix, k) && free(
            own,
            path,
            suffix,
            k,
        ) && forall|j: nat| 1 <= j < k ==> !#[trigger] free(own, path, suffix, j);
    assert(free(own, path, suffix, k));
    assert(aside.take(path.len() as int) =~= path);
    if at_path(own, path + "."@ + suffix) is None {
        assert(aside_candidate(path, suffix, 1) == path + "."@ + suffix);
        assert(free(own, path, suffix, 1));
    }
    if !side.contains('/') && side.len() > 0 {
        crate::text::lemma_segments_single(side, '/');
        assert(segments(side, '/')[0] == side);
    }
}

/// A version is moved aside with the name of the last directory of a side that
/// is a path.
pub proof fn law_a_side_is_called_by_its_last_name(above: Seq<char>, name: Seq<char>)
    requires
        name.len() > 0,
        !name.contains('/'),
        name != "."@,
        name != ".."@,
    ensures
        aside_suffix(above + seq!['/'] + name) == name,
{
    crate::text::lemma_segments_behind(above, '/', name);
    let parts = segments(above + seq!['/'] + name, '/');
    assert(parts.last() == name);
    assert(parts[parts.len() - 1] == name);
}

/// The paths that a loser acts on, the removals it makes and the paths that are
/// blocked, plan by plan. A path that is moved aside or retired is acted on,
/// and goes from the tree, unless it is refused; what is moved aside appears
/// under its new name.
pub proof fn law_a_loser_does_what_is_planned(
    loser: Loser,
    refused: Seq<Seq<char>>,
    n: int,
    i: int,
)
    requires
        loser.well_formed(),
        0 <= i < n <= loser.paths@.len(),
    ensures
        ({
            let path = loser.paths@[i]@;
            let plan = loser.plans@[i];
            let does = (plan is Aside || plan is Retire) && !refused.contains(path);
            &&& does ==> acting(loser, refused, n).contains(path)
            &&& does ==> changes_of(loser, refused, n).contains(ReplacementView { path, new: None })
            &&& does && plan is Aside ==> changes_of(loser, refused, n).contains(
                ReplacementView { path: plan->aside@, new: at_path(owned_option(loser.root), path) },
            )
            &&& plan is Blocked ==> blocked_in(loser, n).contains(path)
            &&& acting(loser, refused, n).contains(path) ==> !refused.contains(path)
        }),
    decreases n,
{
    let path = loser.paths@[i]@;
    let plan = loser.plans@[i];
    let gone = ReplacementView { path, new: None };
    let last = loser.paths@[n - 1]@;
    lemma_pushed(acting(loser, refused, n - 1), last, path);
    lemma_pushed(blocked_in(loser, n - 1), last, path);
    lemma_acting_not_refused(loser, refused, n, path);
    let front = changes_of(loser, refused, n - 1);
    let removal = ReplacementView { path: last, new: None };
    lemma_pushed(front, removal, gone);
    if let PathPlan::Aside { aside } = loser.plans@[n - 1] {
        let moved = ReplacementView {
            path: aside@,
            new: at_path(owned_option(loser.root), last),
        };
        lemma_pushed(front.push(removal), moved, gone);
        lemma_pushed(front.push(removal), moved, moved);
    }
    if plan is Aside {
        let own = ReplacementView {
            path: plan->aside@,
            new: at_path(owned_option(loser.root), path),
        };
        lemma_pushed(front, removal, own);
        if let PathPlan::Aside { aside } = loser.plans@[n - 1] {
            let moved = ReplacementView {
                path: aside@,
                new: at_path(owned_option(loser.root), last),
            };
            lemma_pushed(front.push(removal), moved, own);
        }
    }
    if i < n - 1 {
        law_a_loser_does_what_is_planned(loser, refused, n - 1, i);
    }
}

proof fn lemma_acting_not_refused(loser: Loser, refused: Seq<Seq<char>>, n: int, path: Seq<char>)
    ensures
        acting(loser, refused, n).contains(path) ==> !refused.contains(path),
    decreases n,
{
    if n > 0 {
        lemma_acting_not_refused(loser, refused, n - 1, path);
        lemma_pushed(acting(loser, refused, n - 1), loser.paths@[n - 1]@, path);
    }
}

/// A path that is blocked on one losing side is blocked on all: it is among
/// those that are refused everywhere. One that is acted on on some side is
/// among all that are.
pub proof fn law_a_path_blocked_on_one_side_is_blocked(
    losers: Seq<Loser>,
    refused: Seq<Seq<char>>,
    path: Seq<char>,
)
    ensures
        blocked_anywhere(losers).contains(path) <==> exists|i: int|
            0 <= i < losers.len() && blocked_in(
                #[trigger] losers[i],
                losers[i].paths@.len() as int,
            ).contains(path),
        acting_anywhere(losers, refused).contains(path) <==> exists|i: int|
            0 <= i < losers.len() && acting(
                #[trigger] losers[i],
                refused,
                losers[i].paths@.len() as int,
            ).contains(path),
    decreases losers.len(),
{
    if losers.len() > 0 {
        let front = losers.drop_last();
        law_a_path_blocked_on_one_side_is_blocked(front, refused, path);
        let last = losers.last();
        let n = last.paths@.len() as int;
        lemma_either(blocked_anywhere(front), blocked_in(last, n), path);
        lemma_either(acting_anywhere(front, refused), acting(last, refused, n), path);
        assert forall|i: int| 0 <= i < front.len() implies front[i] == losers[i] by {}
        if blocked_anywhere(front).contains(path) {
            let i = choose|i: int|
                0 <= i < front.len() && blocked_in(
                    #[trigger] front[i],
                    front[i].paths@.len() as int,
                ).contains(path);
            assert(losers[i] == front[i]);
        }
        if acting_anywhere(front, refused).contains(path) {
            let i = choose|i: int|
                0 <= i < front.len() && acting(
                    #[trigger] front[i],
                    refused,
                    front[i].paths@.len() as int,
                ).contains(path);
            assert(losers[i] == front[i]);
        }
        assert(losers[losers.len() - 1] == last);
        if exists|i: int|
            0 <= i < losers.len() && blocked_in(
                #[trigger] losers[i],
                losers[i].paths@.len() as int,
            ).contains(path) {
            let i = choose|i: int|
                0 <= i < losers.len() && blocked_in(
                    #[trigger] losers[i],
                    losers[i].paths@.len() as int,
                ).contains(path);
            if i < front.len() {
                assert(front[i] == losers[i]);
            }
        }
        if exists|i: int|
            0 <= i < losers.len() && acting(
                #[trigger] losers[i],
                refused,
                losers[i].paths@.len() as int,
            ).contains(path) {
            let i = choose|i: int|
                0 <= i < losers.len() && acting(
                    #[trigger] losers[i],
                    refused,
                    losers[i].paths@.len() as int,
                ).contains(path);
            if i < front.len() {
                assert(front[i] == losers[i]);
            }
        }
    }
}

/// Alpha loses only to a destination, and only in that one's own session. The
/// next cycle starts there with alpha's tree without what it retires and with
/// the winner's as it is; in every other session with alpha as though it held
/// the winner's version already. Where alpha's version is kept, every beta
/// starts without what it retires.
pub proof fn law_a_cycle_starts_with_the_losing_tree_retired(
    winner: Winner,
    index: int,
    has_beta_loser: bool,
)
    ensures
        winner is Alpha || winner is Both ==> !alpha_loses(winner, index) && starts_with(
            winner,
            index,
            has_beta_loser,
        ) == (StartingTree::Winning, StartingTree::Retired),
        winner matches Winner::Beta(w) ==> {
            &&& alpha_loses(winner, index) <==> w == index
            &&& w == index ==> starts_with(winner, index, has_beta_loser) == (
                StartingTree::Retired,
                StartingTree::Winning,
            )
            &&& w != index ==> starts_with(winner, index, has_beta_loser).0
                == StartingTree::Replaced
            &&& w != index && has_beta_loser ==> starts_with(winner, index, has_beta_loser).1
                == StartingTree::Retired
            &&& w != index && !has_beta_loser ==> starts_with(winner, index, has_beta_loser).1
                == StartingTree::AsRead
        },
{
}

/// What a session's cycle decides: where a destination wins, every path that
/// some side acts on; otherwise those that the session's own losing beta acts
/// on, and nothing where it has none.
pub proof fn law_a_cycle_decides_what_is_acted_on(
    winner: Winner,
    losers: Seq<Loser>,
    index: int,
    refused: Seq<Seq<char>>,
    path: Seq<char>,
)
    ensures
        winner is Beta ==> (decided_in(winner, losers, index, refused).contains(path)
            <==> exists|i: int|
            0 <= i < losers.len() && acting(
                #[trigger] losers[i],
                refused,
                losers[i].paths@.len() as int,
            ).contains(path)),
        !(winner is Beta) && (forall|i: int|
            0 <= i < losers.len() ==> (#[trigger] losers[i]).alpha || losers[i].index != index)
            ==> decided_in(winner, losers, index, refused).len() == 0,
        !(winner is Beta) && decided_in(winner, losers, index, refused).contains(path)
            ==> exists|i: int|
            0 <= i < losers.len() && !(#[trigger] losers[i]).alpha && losers[i].index == index
                && acting(losers[i], refused, losers[i].paths@.len() as int).contains(path),
{
    law_a_path_blocked_on_one_side_is_blocked(losers, refused, path);
    crate::order::law_sorting_keeps_the_texts(acting_anywhere(losers, refused));
    lemma_beta_loser(losers, index, 0);
}

proof fn lemma_beta_loser(losers: Seq<Loser>, index: int, from: int)
    requires
        0 <= from,
    ensures
        beta_loser(losers, index, from) matches Some(k) ==> from <= k < losers.len()
            && !losers[k].alpha && losers[k].index == index,
    decreases losers.len() - from,
{
    if from < losers.len() && !(losers[from].index == index && !losers[from].alpha) {
        lemma_beta_loser(losers, index, from + 1);
    }
}

/// A path is settled only where the version that is kept is what both sides
/// hold after the next cycle, or alpha alone in a session that is not the
/// winning destination's, and where a version that is moved aside is still on
/// beta. Every other path is told why not.
pub proof fn law_a_path_is_settled_where_the_kept_version_survives(
    verdict: Option<Unsafe>,
    winner: Winner,
    index: int,
    mode: SyncMode,
    loser: Option<Loser>,
    cycle: Cycle,
    path: Seq<char>,
)
    requires
        judges(verdict, winner, index, mode, loser, cycle, path),
    ensures
        ({
            let kept = at_path(node_option(cycle.winning), path);
            let on_alpha = agrees(at_path(node_option(cycle.alpha), path), kept);
            let on_beta = agrees(at_path(node_option(cycle.beta), path), kept);
            let elsewhere = winner is Beta && winner->0 != index;
            let survives = on_alpha && (on_beta || elsewhere);
            let lost = loser is Some && aside_for(loser->0, path, 0) is Some && !agrees(
                at_path(node_option(cycle.beta), aside_for(loser->0, path, 0)->0),
                at_path(owned_option(loser->0.root), path),
            );
            let unchanged = kept is Some && agrees(
                at_path(node_option(cycle.ancestor), path),
                kept,
            );
            let strict = winner == Winner::Beta(index as usize) && mode == SyncMode::TwoWayStrict;
            &&& verdict is None <==> survives && !lost
            &&& verdict matches Some(Unsafe::AsideLost { aside }) ==> survives && lost
            &&& (0 <= index <= usize::MAX && !survives) ==> {
                &&& strict ==> verdict == Some(Unsafe::DeletionWins)
                &&& !strict && unchanged ==> verdict == Some(Unsafe::Unchanged)
                &&& !strict && !unchanged ==> verdict == Some(Unsafe::NotCarried)
            }
        }),
{
}

/// The aside of a path is that of a plan for the path.
pub proof fn law_an_aside_is_that_of_its_path(loser: Loser, path: Seq<char>, i: int)
    requires
        loser.well_formed(),
        0 <= i < loser.paths@.len(),
        loser.paths@[i]@ == path,
        loser.plans@[i] is Aside,
        forall|j: int| 0 <= j < i ==> (#[trigger] loser.paths@[j])@ != path,
    ensures
        aside_for(loser, path, 0) == Some(loser.plans@[i]->aside@),
{
    lemma_aside_from(loser, path, i, 0);
}

proof fn lemma_aside_from(loser: Loser, path: Seq<char>, i: int, from: int)
    requires
        0 <= from <= i < loser.paths@.len(),
        loser.paths@[i]@ == path,
        loser.plans@[i] is Aside,
        forall|j: int| 0 <= j < i ==> (#[trigger] loser.paths@[j])@ != path,
    ensures
        aside_for(loser, path, from) == Some(loser.plans@[i]->aside@),
    decreases i - from,
{
    if from < i {
        assert(loser.paths@[from]@ != path);
        lemma_aside_from(loser, path, i, from + 1);
    }
}

/// A root is named by nothing or by a dot, and by nothing else.
pub proof fn law_the_root_is_named_by_a_dot(path: Seq<char>)
    ensures
        names_root(path) <==> path == Seq::<char>::empty() || path == seq!['.'],
{
    reveal_strlit(".");
    assert("."@ =~= seq!['.']);
    if path.len() == 0 {
        assert(path =~= Seq::<char>::empty());
    }
}

proof fn lemma_first_replica(targets: Seq<Target>, from: int)
    requires
        0 <= from <= targets.len(),
    ensures
        match first_replica(targets, from) {
            Some(k) => from <= k < targets.len() && targets[k].plan.mode == SyncMode::OneWayReplica
                && forall|j: int|
                from <= j < k ==> (#[trigger] targets[j]).plan.mode != SyncMode::OneWayReplica,
            None => forall|j: int|
                from <= j < targets.len() ==> (#[trigger] targets[j]).plan.mode
                    != SyncMode::OneWayReplica,
        },
    decreases targets.len() - from,
{
    if from < targets.len() {
        lemma_first_replica(targets, from + 1);
    }
}

/// Alpha's version can always be kept. A beta's cannot where nothing is ever
/// carried from it, in either one-way mode, and both cannot where some session
/// makes its beta a replica, which would remove the version that was moved
/// aside: the first such session is named.
pub proof fn law_a_one_way_mode_keeps_alpha(
    winner: Winner,
    group_plans: Seq<SessionPlan>,
    targets: Seq<Target>,
)
    requires
        targets.len() <= usize::MAX,
    ensures
        mode_refuses(Winner::Alpha, group_plans, targets) is None,
        winner matches Winner::Beta(i) ==> {
            let mode = group_plans[i as int].mode;
            &&& mode == SyncMode::OneWaySafe || mode == SyncMode::OneWayReplica ==> mode_refuses(
                winner,
                group_plans,
                targets,
            ) == Some(ModeRefusal::NeverCarried)
            &&& mode != SyncMode::OneWaySafe && mode != SyncMode::OneWayReplica ==> mode_refuses(
                winner,
                group_plans,
                targets,
            ) is None
        },
        mode_refuses(Winner::Both, group_plans, targets) is None <==> forall|j: int|
            0 <= j < targets.len() ==> (#[trigger] targets[j]).plan.mode
                != SyncMode::OneWayReplica,
        mode_refuses(Winner::Both, group_plans, targets) matches Some(refusal) ==> (refusal
            matches ModeRefusal::AsideWouldGo { target } && target < targets.len()
            && targets[target as int].plan.mode == SyncMode::OneWayReplica && forall|j: int|
            0 <= j < target ==> (#[trigger] targets[j]).plan.mode != SyncMode::OneWayReplica),
{
    lemma_first_replica(targets, 0);
}

/// Plans are of one group where no two of them are of different ones.
pub proof fn law_plans_of_one_group_share_its_name(plans: Seq<SessionPlan>)
    ensures
        of_one_group(plans) <==> forall|i: int, j: int|
            0 <= i < plans.len() && 0 <= j < plans.len() ==> (#[trigger] plans[i]).group@ == (
            #[trigger] plans[j]).group@,
{
    if plans.len() > 0 && !of_one_group(plans) {
        let i = choose|i: int|
            0 <= i < plans.len() && (#[trigger] plans[i]).group@ != plans[0].group@;
        assert(plans[i].group@ != plans[0].group@);
    }
}

/// The beta that lost in a session is the first loser of that session that is
/// not its alpha.
pub proof fn law_a_session_s_beta_is_no_alpha(losers: Seq<Loser>, index: int, from: int)
    requires
        0 <= from <= losers.len(),
    ensures
        match beta_loser(losers, index, from) {
            Some(k) => from <= k < losers.len() && losers[k].index == index && !losers[k].alpha
                && forall|j: int|
                from <= j < k ==> (#[trigger] losers[j]).index != index || losers[j].alpha,
            None => forall|j: int|
                from <= j < losers.len() ==> (#[trigger] losers[j]).index != index
                    || losers[j].alpha,
        },
    decreases losers.len() - from,
{
    if from < losers.len() {
        law_a_session_s_beta_is_no_alpha(losers, index, from + 1);
    }
}

/// Nothing is resolved unconfirmed: what is proposed is shown, and asked about
/// where someone is there to answer; where nobody is, it is refused, unless it
/// was confirmed in advance.
pub proof fn law_nothing_is_resolved_unconfirmed(
    r: Confirmation,
    lines: Seq<Seq<char>>,
    yes: bool,
    terminal: bool,
)
    requires
        confirms(r, lines, yes, terminal),
    ensures
        r is Given <==> yes,
        r is Asked <==> !yes && terminal,
        r is Refused <==> !yes && !terminal,
        r matches Confirmation::Asked { proposal } ==> strings(proposal@) == lines,
        r matches Confirmation::Refused { proposal } ==> strings(proposal@) == lines,
{
}

/// Whether the plan at a place of a loser's list acts on a path.
pub open spec fn acts_on(loser: Loser, refused: Seq<Seq<char>>, i: int, path: Seq<char>) -> bool {
    loser.paths@[i]@ == path && (loser.plans@[i] is Aside || loser.plans@[i] is Retire)
        && !refused.contains(path)
}

/// A losing side acts on nothing but what it is planned to move aside or to
/// retire, and on none of that where it is refused; and a path is blocked only
/// where that is its plan.
pub proof fn law_a_loser_does_nothing_else(
    loser: Loser,
    refused: Seq<Seq<char>>,
    n: int,
    path: Seq<char>,
)
    requires
        loser.well_formed(),
        0 <= n <= loser.paths@.len(),
    ensures
        acting(loser, refused, n).contains(path) <==> exists|i: int|
            0 <= i < n && #[trigger] acts_on(loser, refused, i, path),
        blocked_in(loser, n).contains(path) <==> exists|i: int|
            0 <= i < n && (#[trigger] loser.paths@[i])@ == path && loser.plans@[i] is Blocked,
    decreases n,
{
    if n > 0 {
        law_a_loser_does_nothing_else(loser, refused, n - 1, path);
        let last = loser.paths@[n - 1]@;
        crate::text::lemma_pushed(acting(loser, refused, n - 1), last, path);
        crate::text::lemma_pushed(blocked_in(loser, n - 1), last, path);
        if exists|i: int| 0 <= i < n - 1 && #[trigger] acts_on(loser, refused, i, path) {
            let i = choose|i: int| 0 <= i < n - 1 && #[trigger] acts_on(loser, refused, i, path);
            assert(acts_on(loser, refused, i, path));
        }
        assert(acts_on(loser, refused, n - 1, path) <==> last == path && acts(loser.plans@[n - 1])
            && !refused.contains(path));
    }
}

/// The changes that a losing side makes to its tree: the removal of each path
/// that it acts on, and, of each that it moves aside, what was there under the
/// new name. There are no others.
pub proof fn law_a_loser_changes_nothing_else(
    loser: Loser,
    refused: Seq<Seq<char>>,
    n: int,
    change: ReplacementView,
)
    requires
        loser.well_formed(),
        0 <= n <= loser.paths@.len(),
        changes_of(loser, refused, n).contains(change),
    ensures
        exists|i: int|
            0 <= i < n && #[trigger] acts_on(loser, refused, i, loser.paths@[i]@) && {
                ||| change == (ReplacementView { path: loser.paths@[i]@, new: None })
                ||| loser.plans@[i] is Aside && change == (ReplacementView {
                    path: loser.plans@[i]->aside@,
                    new: at_path(owned_option(loser.root), loser.paths@[i]@),
                })
            },
    decreases n,
{
    if n > 0 {
        let front = changes_of(loser, refused, n - 1);
        let last = loser.paths@[n - 1]@;
        let removal = ReplacementView { path: last, new: None };
        crate::text::lemma_pushed(front, removal, change);
        if let PathPlan::Aside { aside } = loser.plans@[n - 1] {
            crate::text::lemma_pushed(
                front.push(removal),
                ReplacementView { path: aside@, new: at_path(owned_option(loser.root), last) },
                change,
            );
        }
        if front.contains(change) {
            law_a_loser_changes_nothing_else(loser, refused, n - 1, change);
            let i = choose|i: int|
                0 <= i < n - 1 && #[trigger] acts_on(loser, refused, i, loser.paths@[i]@) && {
                    ||| change == (ReplacementView { path: loser.paths@[i]@, new: None })
                    ||| loser.plans@[i] is Aside && change == (ReplacementView {
                        path: loser.plans@[i]->aside@,
                        new: at_path(owned_option(loser.root), loser.paths@[i]@),
                    })
                };
            assert(acts_on(loser, refused, i, loser.paths@[i]@));
        } else {
            assert(acts_on(loser, refused, n - 1, loser.paths@[n - 1]@));
        }
    }
}

/// Every path of every target is among those that are settled, or below one
/// that is; and only paths of targets are.
pub proof fn law_every_target_s_path_is_settled(targets: Seq<Target>, path: Seq<char>)
    ensures
        every_path(targets).contains(path) <==> exists|i: int|
            0 <= i < targets.len() && strings((#[trigger] targets[i]).paths@).contains(path),
    decreases targets.len(),
{
    if targets.len() > 0 {
        let front = targets.drop_last();
        let last = strings(targets.last().paths@);
        law_every_target_s_path_is_settled(front, path);
        crate::text::lemma_either(every_path(front), last, path);
        if every_path(front).contains(path) {
            let i = choose|i: int|
                0 <= i < front.len() && strings((#[trigger] front[i]).paths@).contains(path);
            assert(targets[i] == front[i]);
        }
        if last.contains(path) {
            assert(targets[targets.len() - 1] == targets.last());
        }
        if exists|i: int|
            0 <= i < targets.len() && strings((#[trigger] targets[i]).paths@).contains(path) {
            let i = choose|i: int|
                0 <= i < targets.len() && strings((#[trigger] targets[i]).paths@).contains(path);
            if i < front.len() {
                assert(front[i] == targets[i]);
            }
        }
    }
}

/// A named folder stands for more than itself exactly where a conflict that was
/// found under it is at no path that was named.
pub proof fn law_a_folder_stands_for_what_is_below(
    targets: Seq<TargetView>,
    named: Seq<Seq<char>>,
)
    ensures
        !expanded(targets, named) <==> forall|i: int, j: int|
            0 <= i < targets.len() && 0 <= j < targets[i].paths.len() ==> named.contains(
                #[trigger] targets[i].paths[j],
            ),
{
}

/// A text that follows itself is kept once, and no other goes.
pub proof fn law_no_text_follows_itself(list: Seq<Seq<char>>, text: Seq<char>)
    ensures
        without_repeats(list).contains(text) <==> list.contains(text),
        without_repeats(Seq::empty()).len() == 0,
        list.len() > 0 && list.last() == text ==> without_repeats(list.push(text))
            == without_repeats(list),
        list.len() == 0 || list.last() != text ==> without_repeats(list.push(text))
            == without_repeats(list).push(text),
    decreases list.len(),
{
    assert(list.push(text).drop_last() =~= list);
    if list.len() > 0 {
        let front = list.drop_last();
        assert(list =~= front.push(list.last()));
        law_no_text_follows_itself(front, text);
        crate::text::lemma_pushed(front, list.last(), text);
        crate::text::lemma_pushed(without_repeats(front), list.last(), text);
        if list.len() > 1 && list[list.len() - 2] == list.last() {
            assert(front[front.len() - 1] == list.last());
        }
    }
}

} // verus!
