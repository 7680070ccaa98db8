//! The course of a resolution: what is refused before anything is read, what
//! the next cycles are asked, and what is then done to each losing side.
use crate::command::resolve::{
    alpha_loses, alpha_text, aside_for, aside_lost_text, at_their_word, beta_texts, choose_all,
    choose_named, choose_winner, deletion_wins_text, expanded, first_replica, judge,
    law_the_root_is_named_by_a_dot, mode_refusal, names_root, not_carried_text, recorded_targets,
    single_group, stakes, survives, target_views, targets_root, unchanged_text, unknown_text,
    unsafe_words, winner_of, without_repeats, Cycle, KeepError, Loser, ModeRefusal, PathPlan,
    Target, TargetView, Unsafe, Winner,
};
use crate::command::select::{names_below, relative_path, tidied, tidy, PathError, Selection};
use crate::command::settle::{note, noted, noted_paths, with_note, Noted};
use crate::order::{lemma_slot, slot};
use crate::plan::{in_group, plans_in_group, SessionPlan, SyncMode};
use crate::text::{display_safe, holds_text, joined, optional, shown_text, strings};
use crate::tree::{agrees, at_path, node_option, owned_option, Node, NodeView};
use vstd::prelude::*;

verus! {

// ---------------------------------------------------------------------------
// Before anything is read
// ---------------------------------------------------------------------------

/// Why a resolution does not start.
#[derive(Debug)]
pub enum ResolveRefusal {
    /// The selector matched several groups.
    Groups,
    /// Whose version is kept is not clear.
    Keep {
        /// Why.
        error: KeepError,
    },
    /// What to settle is not clear.
    Path {
        /// Why.
        error: PathError,
    },
    /// Every conflict was asked for, and keeping both of each.
    AllCannotKeepBoth,
    /// The root itself was named.
    Root,
    /// A mode would undo the choice.
    Mode {
        /// How.
        refusal: ModeRefusal,
        /// The mode.
        mode: SyncMode,
        /// The destination whose session has it.
        host: String,
    },
}

/// A resolution that can start.
#[derive(Debug)]
pub struct Resolution {
    /// Whose version is kept.
    pub winner: Winner,
    /// The sessions of the group.
    pub group_plans: Vec<SessionPlan>,
    /// What is settled, by session.
    pub targets: Vec<Target>,
    /// The folder that the paths were named by, if one was.
    pub scope: Option<String>,
    /// Who keeps their version.
    pub kept: String,
    /// Who does not.
    pub overwritten: Vec<String>,
}

/// Whether plans are all of the first one's group.
pub open spec fn one_group(plans: Seq<SessionPlan>) -> bool {
    forall|i: int| 0 <= i < plans.len() ==> (#[trigger] plans[i]).group@ == plans[0].group@
}

/// The path that a selection names by itself.
pub open spec fn own_path(selection: Selection) -> Result<Seq<char>, PathError> {
    if selection.relative is None && names_below(selection) {
        Err(PathError::Nested)
    } else if selection.relatives@.len() > 0 && selection.relatives@[0] is Some {
        Ok((selection.relatives@[0]->0)@)
    } else {
        Err(PathError::Unnamed)
    }
}

/// The paths that were named: those given, or the one the selection names.
pub open spec fn named_paths(selection: Selection, named: Seq<Seq<char>>) -> Result<
    Seq<Seq<char>>,
    PathError,
> {
    if named.len() > 0 {
        Ok(Seq::new(named.len(), |i: int| tidied(named[i])))
    } else {
        match own_path(selection) {
            Ok(path) => Ok(seq![path]),
            Err(error) => Err(error),
        }
    }
}

/// The paths that were named.
fn gather_named(selection: &Selection, named: &[String]) -> (r: Result<Vec<String>, PathError>)
    ensures
        match r {
            Ok(paths) => named_paths(*selection, strings(named@)) == Ok::<
                Seq<Seq<char>>,
                PathError,
            >(strings(paths@)),
            Err(error) => named_paths(*selection, strings(named@)) == Err::<
                Seq<Seq<char>>,
                PathError,
            >(error),
        },
{
    let mut paths: Vec<String> = Vec::new();
    if named.len() == 0 {
        match relative_path(selection, None) {
            Ok(path) => {
                paths.push(path);
                assert(strings(paths@) =~= seq![path@]);
                return Ok(paths);
            },
            Err(error) => {
                return Err(error);
            },
        }
    }
    let ghost all = strings(named@);
    let mut i: usize = 0;
    while i < named.len()
        invariant
            i <= named@.len(),
            all == strings(named@),
            paths@.len() == i,
            forall|k: int| 0 <= k < i ==> (#[trigger] paths@[k])@ == tidied(all[k]),
        decreases named@.len() - i,
    {
        let path = tidy(named[i].as_str());
        paths.push(path);
        i += 1;
    }
    assert(strings(paths@) =~= Seq::new(all.len(), |i: int| tidied(all[i])));
    Ok(paths)
}

/// What a resolution is asked to settle.
pub enum Sought {
    /// Nothing is recorded.
    Nothing,
    /// Every conflict, keeping both of each.
    AllBoth,
    /// No path is named clearly.
    Unclear(PathError),
    /// These, by session, and the folder they were named by, if one was.
    Paths(Seq<TargetView>, Option<Seq<char>>),
}

/// What a resolution is asked to settle: every recorded conflict, or those at
/// or below the named paths, which are taken at their word where none is
/// recorded there.
pub open spec fn sought(
    selection: Selection,
    records: Seq<Option<Vec<String>>>,
    named: Seq<Seq<char>>,
    all: bool,
    winner: Winner,
) -> Sought {
    let n = selection.plans@.len() as int;
    if all {
        let found = recorded_targets(selection.plans@, records, None, n);
        if found.len() == 0 {
            Sought::Nothing
        } else if winner == Winner::Both {
            Sought::AllBoth
        } else {
            Sought::Paths(found, None)
        }
    } else {
        match named_paths(selection, named) {
            Err(error) => Sought::Unclear(error),
            Ok(names) => {
                let found = recorded_targets(selection.plans@, records, Some(names), n);
                if found.len() == 0 {
                    Sought::Paths(at_their_word(selection.plans@, names), None)
                } else if expanded(found, names) {
                    Sought::Paths(found, Some(joined(names, ", "@)))
                } else {
                    Sought::Paths(found, None)
                }
            },
        }
    }
}

/// Whether some path that is sought is the root itself.
pub open spec fn seeks_root(targets: Seq<TargetView>) -> bool {
    exists|i: int, j: int|
        0 <= i < targets.len() && 0 <= j < targets[i].paths.len() && names_root(
            #[trigger] targets[i].paths[j],
        )
}

/// The first of what is sought whose session makes beta a replica.
pub open spec fn sought_replica(targets: Seq<TargetView>, from: int) -> Option<int>
    decreases targets.len() - from,
{
    if from < 0 || from >= targets.len() {
        None
    } else if targets[from].plan.mode == SyncMode::OneWayReplica {
        Some(from)
    } else {
        sought_replica(targets, from + 1)
    }
}

/// How a mode would undo the choice, if one would.
pub open spec fn refused_by_mode(
    winner: Winner,
    group_plans: Seq<SessionPlan>,
    targets: Seq<TargetView>,
) -> Option<ModeRefusal> {
    match winner {
        Winner::Alpha => None,
        Winner::Beta(i) => if group_plans[i as int].mode == SyncMode::OneWaySafe
            || group_plans[i as int].mode == SyncMode::OneWayReplica {
            Some(ModeRefusal::NeverCarried)
        } else {
            None
        },
        Winner::Both => match sought_replica(targets, 0) {
            Some(k) => Some(ModeRefusal::AsideWouldGo { target: k as usize }),
            None => None,
        },
    }
}

proof fn lemma_sought_replica(targets: Seq<Target>, from: int)
    ensures
        sought_replica(target_views(targets), from) == first_replica(targets, from),
    decreases targets.len() - from,
{
    if 0 <= from < targets.len() {
        lemma_sought_replica(targets, from + 1);
    }
}

proof fn lemma_replica_bound(targets: Seq<Target>, from: int)
    requires
        0 <= from,
    ensures
        first_replica(targets, from) matches Some(k) ==> 0 <= k < targets.len(),
    decreases targets.len() - from,
{
    if from < targets.len() {
        lemma_replica_bound(targets, from + 1);
    }
}

proof fn lemma_seeks_root(targets: Seq<Target>)
    ensures
        seeks_root(target_views(targets)) == (exists|i: int, j: int|
            0 <= i < targets.len() && 0 <= j < targets[i].paths@.len() && names_root(
                #[trigger] targets[i].paths@[j]@,
            )),
{
    let views = target_views(targets);
    if seeks_root(views) {
        let (i, j) = choose|i: int, j: int|
            0 <= i < views.len() && 0 <= j < views[i].paths.len() && names_root(
                #[trigger] views[i].paths[j],
            );
        assert(names_root(targets[i].paths@[j]@));
    }
    if exists|i: int, j: int|
        0 <= i < targets.len() && 0 <= j < targets[i].paths@.len() && names_root(
            #[trigger] targets[i].paths@[j]@,
        ) {
        let (i, j) = choose|i: int, j: int|
            0 <= i < targets.len() && 0 <= j < targets[i].paths@.len() && names_root(
                #[trigger] targets[i].paths@[j]@,
            );
        assert(names_root(views[i].paths[j]));
    }
}

/// The session whose mode would undo the choice.
pub open spec fn refusing_plan(
    refusal: ModeRefusal,
    winner: Winner,
    group_plans: Seq<SessionPlan>,
    targets: Seq<TargetView>,
) -> SessionPlan {
    match (refusal, winner) {
        (ModeRefusal::AsideWouldGo { target }, _) => targets[target as int].plan,
        (_, Winner::Beta(i)) => group_plans[i as int],
        _ => group_plans[0],
    }
}

/// Who keeps their version and who does not, as they are spoken of.
pub open spec fn at_stake(
    winner: Winner,
    group_plans: Seq<SessionPlan>,
    targets: Seq<Target>,
) -> (Seq<char>, Seq<Seq<char>>) {
    match winner {
        Winner::Beta(i) => {
            let plan = group_plans[i as int];
            (
                plan.beta_spec@ + "  ("@ + plan.host@ + ")"@,
                without_repeats(
                    seq![alpha_text(group_plans)] + beta_texts(targets, Some(plan.identifier@)),
                ),
            )
        },
        _ => (alpha_text(group_plans), without_repeats(beta_texts(targets, None))),
    }
}

/// Starts a resolution, as far as it can be without reading a tree: what is
/// refused is refused here, before anything is touched. `None` where there is
/// nothing to resolve.
pub fn begin(
    plans: &[SessionPlan],
    selection: &Selection,
    records: &[Option<Vec<String>>],
    named: &[String],
    keep: &str,
    all: bool,
) -> (r: Result<Option<Resolution>, ResolveRefusal>)
    requires
        selection.plans@.len() > 0,
        records@.len() == selection.plans@.len(),
    ensures
        ({
            let members = in_group(plans@, selection.plans@[0].group@);
            if !one_group(selection.plans@) {
                r matches Err(ResolveRefusal::Groups)
            } else {
                match winner_of(members, keep@) {
                    Err(why) => r matches Err(ResolveRefusal::Keep { error }) && error == why,
                    Ok(winner) => match sought(
                        *selection,
                        records@,
                        strings(named@),
                        all,
                        winner,
                    ) {
                        Sought::Nothing => r matches Ok(None),
                        Sought::AllBoth => r matches Err(ResolveRefusal::AllCannotKeepBoth),
                        Sought::Unclear(why) => r matches Err(ResolveRefusal::Path { error })
                            && error == why,
                        Sought::Paths(targets, scope) => {
                            if seeks_root(targets) {
                                r matches Err(ResolveRefusal::Root)
                            } else {
                                match refused_by_mode(winner, members, targets) {
                                    Some(how) => {
                                        let plan = refusing_plan(how, winner, members, targets);
                                        &&& r matches Err(
                                            ResolveRefusal::Mode { refusal, mode, host },
                                        )
                                        &&& refusal == how
                                        &&& mode == plan.mode
                                        &&& host@ == plan.host@
                                    },
                                    None => {
                                        &&& r matches Ok(Some(resolution))
                                        &&& resolution.winner == winner
                                        &&& resolution.group_plans@ == members
                                        &&& target_views(resolution.targets@) == targets
                                        &&& optional(resolution.scope) == scope
                                        &&& (resolution.kept@, strings(resolution.overwritten@))
                                            == at_stake(winner, members, resolution.targets@)
                                    },
                                }
                            }
                        },
                    },
                }
            }
        }),
{
    if !single_group(selection.plans.as_slice()) {
        return Err(ResolveRefusal::Groups);
    }
    let group_plans = plans_in_group(plans, selection.plans[0].group.as_str());
    let winner = match choose_winner(group_plans.as_slice(), keep) {
        Ok(winner) => winner,
        Err(error) => {
            return Err(ResolveRefusal::Keep { error });
        },
    };
    let targets: Vec<Target>;
    let scope: Option<String>;
    if all {
        match choose_all(selection.plans.as_slice(), records, winner) {
            Err(_) => {
                return Err(ResolveRefusal::AllCannotKeepBoth);
            },
            Ok(None) => {
                return Ok(None);
            },
            Ok(Some(found)) => {
                targets = found;
                scope = None;
            },
        }
    } else {
        match gather_named(selection, named) {
            Err(error) => {
                return Err(ResolveRefusal::Path { error });
            },
            Ok(names) => {
                let chosen = choose_named(selection.plans.as_slice(), records, names.as_slice());
                targets = chosen.0;
                scope = chosen.1;
            },
        }
    }
    proof {
        lemma_seeks_root(targets@);
        lemma_sought_replica(targets@, 0);
        lemma_replica_bound(targets@, 0);
    }
    if targets_root(targets.as_slice()) {
        return Err(ResolveRefusal::Root);
    }
    if let Some(refusal) = mode_refusal(winner, group_plans.as_slice(), targets.as_slice()) {
        let plan = match refusal {
            ModeRefusal::AsideWouldGo { target } => &targets[target].plan,
            ModeRefusal::NeverCarried => match winner {
                Winner::Beta(i) => &group_plans[i],
                _ => &selection.plans[0],
            },
        };
        return Err(ResolveRefusal::Mode { refusal, mode: plan.mode, host: plan.host.clone() });
    }
    let (kept, overwritten) = stakes(winner, group_plans.as_slice(), targets.as_slice());
    Ok(Some(Resolution { winner, group_plans, targets, scope, kept, overwritten }))
}

// ---------------------------------------------------------------------------
// What the next cycles would do
// ---------------------------------------------------------------------------

/// A session whose next cycle is judged.
pub struct Judged<'a> {
    /// Whose version is kept.
    pub winner: Winner,
    /// What the winner is called.
    pub winner_name: &'a str,
    /// The number of the session in its group.
    pub index: usize,
    /// The session.
    pub plan: &'a SessionPlan,
    /// Its losing beta, if it has one.
    pub loser: Option<&'a Loser>,
}

/// Why a path would not be settled by a session's cycle, in words; `None`
/// where the kept version and the one moved aside survive it.
pub open spec fn reason_text(session: Judged, cycle: Cycle, path: Seq<char>) -> Option<Seq<char>> {
    let kept = at_path(node_option(cycle.winning), path);
    let name = session.winner_name@;
    let host = session.plan.host@;
    let mode = session.plan.mode.text();
    if !survives(session.winner, session.index as int, cycle, path) {
        if alpha_loses(session.winner, session.index as int) && session.plan.mode
            == SyncMode::TwoWayStrict {
            Some(deletion_wins_text(name, mode))
        } else if kept is Some && agrees(at_path(node_option(cycle.ancestor), path), kept) {
            Some(unchanged_text(name))
        } else {
            Some(not_carried_text(name, host, mode))
        }
    } else {
        match session.loser {
            None => None,
            Some(loser) => match aside_for(*loser, path, 0) {
                None => None,
                Some(aside) => if agrees(
                    at_path(node_option(cycle.beta), aside),
                    at_path(owned_option(loser.root), path),
                ) {
                    None
                } else {
                    Some(aside_lost_text(host, aside, mode))
                },
            },
        }
    }
}

/// Why a path would not be settled, in words, given how its session's cycle
/// came out: a cycle that cannot be worked out settles nothing.
pub open spec fn outcome_text(
    session: Judged,
    outcome: Result<Cycle, &str>,
    path: Seq<char>,
) -> Option<Seq<char>> {
    match outcome {
        Ok(cycle) => reason_text(session, cycle, path),
        Err(message) => Some(unknown_text(session.winner_name@, message@)),
    }
}

/// Notes with those on the first `n` paths that a session's cycle decides.
/// The first reason for a path stands.
pub open spec fn judged_notes(
    session: Judged,
    outcome: Result<Cycle, &str>,
    decided: Seq<Seq<char>>,
    notes: Seq<(Seq<char>, Seq<char>)>,
    n: int,
) -> Seq<(Seq<char>, Seq<char>)>
    decreases n,
{
    if n <= 0 {
        notes
    } else {
        let before = judged_notes(session, outcome, decided, notes, n - 1);
        match outcome_text(session, outcome, decided[n - 1]) {
            Some(text) => with_note(before, decided[n - 1], text),
            None => before,
        }
    }
}

/// Why a path would not be settled, in words.
fn reason_words(session: &Judged, outcome: &Result<Cycle, &str>, path: &str) -> (r: Option<String>)
    requires
        session.loser matches Some(loser) ==> loser.well_formed(),
    ensures
        optional(r) == outcome_text(*session, *outcome, path@),
{
    let reason = match outcome {
        Err(message) => Unsafe::Unknown { message: (*message).to_owned() },
        Ok(cycle) => match judge(
            session.winner,
            session.index,
            session.plan.mode,
            session.loser,
            cycle,
            path,
        ) {
            Some(reason) => reason,
            None => {
                return None;
            },
        },
    };
    let words = unsafe_words(
        &reason,
        session.winner_name,
        session.plan.host.as_str(),
        session.plan.mode.name(),
    );
    Some(words)
}

/// Notes which of the paths that a session's cycle decides it would not
/// settle, and why. `outcome` is the cycle as it was worked out without
/// writing anything, or why it could not be.
pub fn judge_session(
    session: &Judged,
    outcome: &Result<Cycle, &str>,
    decided: &[String],
    notes: &mut Vec<Noted>,
)
    requires
        session.loser matches Some(loser) ==> loser.well_formed(),
    ensures
        noted(final(notes)@) == judged_notes(
            *session,
            *outcome,
            strings(decided@),
            noted(old(notes)@),
            decided@.len() as int,
        ),
{
    let ghost start = noted(notes@);
    let mut i: usize = 0;
    while i < decided.len()
        invariant
            i <= decided@.len(),
            session.loser matches Some(loser) ==> loser.well_formed(),
            noted(notes@) == judged_notes(
                *session,
                *outcome,
                strings(decided@),
                start,
                i as int,
            ),
        decreases decided@.len() - i,
    {
        assert(strings(decided@)[i as int] == decided@[i as int]@);
        if let Some(words) = reason_words(session, outcome, decided[i].as_str()) {
            note(notes, decided[i].as_str(), words);
        }
        i += 1;
    }
}

// ---------------------------------------------------------------------------
// What is done to each losing side
// ---------------------------------------------------------------------------

/// A version that is moved aside.
#[derive(Debug)]
pub struct Rename {
    /// Where it is.
    pub from: String,
    /// Where it goes.
    pub to: String,
}

/// Where versions are moved from and to.
pub open spec fn renamed(renames: Seq<Rename>) -> Seq<(Seq<char>, Seq<char>)> {
    Seq::new(renames.len(), |i: int| (renames[i].from@, renames[i].to@))
}

/// A version that is removed.
#[derive(Debug)]
pub struct Retirement {
    /// Where it is.
    pub path: String,
    /// What may be removed there.
    pub expectation: Node,
}

/// Which versions are removed.
pub open spec fn retired(retirements: Seq<Retirement>) -> Seq<(Seq<char>, NodeView)> {
    Seq::new(
        retirements.len(),
        |i: int| (retirements[i].path@, retirements[i].expectation.view()),
    )
}

/// What the first `n` of a loser's plans move aside, without paths that are
/// refused.
pub open spec fn moves_of(loser: Loser, refused: Seq<Seq<char>>, n: int) -> Seq<
    (Seq<char>, Seq<char>),
>
    decreases n,
{
    if n <= 0 {
        Seq::empty()
    } else {
        let front = moves_of(loser, refused, n - 1);
        let path = loser.paths@[n - 1]@;
        match loser.plans@[n - 1] {
            PathPlan::Aside { aside } if !refused.contains(path) => front.push((path, aside@)),
            _ => front,
        }
    }
}

/// What the first `n` of a loser's plans remove, without paths that are
/// refused.
pub open spec fn retirements_of(loser: Loser, refused: Seq<Seq<char>>, n: int) -> Seq<
    (Seq<char>, NodeView),
>
    decreases n,
{
    if n <= 0 {
        Seq::empty()
    } else {
        let front = retirements_of(loser, refused, n - 1);
        let path = loser.paths@[n - 1]@;
        match loser.plans@[n - 1] {
            PathPlan::Retire { expectation } if !refused.contains(path) => front.push(
                (path, expectation.view()),
            ),
            _ => front,
        }
    }
}

/// What a losing side moves aside and what it removes, in that order.
pub fn work_of(loser: &Loser, refused: &[String]) -> (r: (Vec<Rename>, Vec<Retirement>))
    requires
        loser.well_formed(),
    ensures
        renamed(r.0@) == moves_of(*loser, strings(refused@), loser.paths@.len() as int),
        retired(r.1@) == retirements_of(*loser, strings(refused@), loser.paths@.len() as int),
{
    let mut renames: Vec<Rename> = Vec::new();
    let mut retirements: Vec<Retirement> = Vec::new();
    let ghost without = strings(refused@);
    assert(renamed(renames@) =~= moves_of(*loser, without, 0));
    assert(retired(retirements@) =~= retirements_of(*loser, without, 0));
    let mut i: usize = 0;
    while i < loser.paths.len()
        invariant
            i <= loser.paths@.len(),
            loser.well_formed(),
            without == strings(refused@),
            renamed(renames@) == moves_of(*loser, without, i as int),
            retired(retirements@) == retirements_of(*loser, without, i as int),
        decreases loser.paths@.len() - i,
    {
        let path = &loser.paths[i];
        let ghost moved = renamed(renames@);
        let ghost gone = retired(retirements@);
        if !holds_text(refused, path.as_str()) {
            match &loser.plans[i] {
                PathPlan::Aside { aside } => {
                    renames.push(Rename { from: path.clone(), to: aside.clone() });
                    assert(renamed(renames@) =~= moved.push((path@, aside@)));
                },
                PathPlan::Retire { expectation } => {
                    retirements.push(
                        Retirement { path: path.clone(), expectation: expectation.duplicate() },
                    );
                    assert(retired(retirements@) =~= gone.push((path@, expectation.view())));
                },
                _ => {},
            }
        }
        i += 1;
    }
    (renames, retirements)
}

/// The line on a version that was moved aside.
pub fn kept_line(side: &str, rename: &Rename) -> (r: String)
    ensures
        r@ == "  "@ + side@ + ": kept "@ + shown_text(rename.from@) + " as "@ + shown_text(
            rename.to@,
        ),
{
    let mut r = "  ".to_owned();
    r.append(side);
    r.append(": kept ");
    let shown = display_safe(rename.from.as_str());
    r.append(shown.as_str());
    r.append(" as ");
    let shown = display_safe(rename.to.as_str());
    r.append(shown.as_str());
    r
}

/// Why a version could not be moved aside.
pub fn not_kept(side: &str, path: &str) -> (r: String)
    ensures
        r@ == "unable to keep "@ + side@ + "'s "@ + path@,
{
    let mut r = "unable to keep ".to_owned();
    r.append(side);
    r.append("'s ");
    r.append(path);
    r
}

/// A path that a session's cycle would not settle is noted, and what is noted
/// is touched on no side.
pub proof fn law_an_unsafe_path_is_left_alone(
    session: Judged,
    outcome: Result<Cycle, &str>,
    decided: Seq<Seq<char>>,
    notes: Seq<(Seq<char>, Seq<char>)>,
    loser: Loser,
    path: Seq<char>,
)
    requires
        loser.well_formed(),
        decided.contains(path),
        outcome_text(session, outcome, path) is Some,
    ensures
        ({
            let refused = noted_paths(
                judged_notes(session, outcome, decided, notes, decided.len() as int),
            );
            let n = loser.paths@.len() as int;
            &&& refused.contains(path)
            &&& forall|i: int|
                0 <= i < moves_of(loser, refused, n).len() ==> (#[trigger] moves_of(
                    loser,
                    refused,
                    n,
                )[i]).0 != path
            &&& forall|i: int|
                0 <= i < retirements_of(loser, refused, n).len() ==> (#[trigger] retirements_of(
                    loser,
                    refused,
                    n,
                )[i]).0 != path
        }),
{
    let all = judged_notes(session, outcome, decided, notes, decided.len() as int);
    let j = choose|j: int| 0 <= j < decided.len() && decided[j] == path;
    lemma_noted_once_decided(session, outcome, decided, notes, j, decided.len() as int);
    lemma_refused_is_not_worked(loser, noted_paths(all), loser.paths@.len() as int, path);
}

/// A note stays, and a new one is there.
proof fn lemma_with_note(
    notes: Seq<(Seq<char>, Seq<char>)>,
    path: Seq<char>,
    text: Seq<char>,
    other: Seq<char>,
)
    ensures
        noted_paths(with_note(notes, path, text)).contains(path),
        noted_paths(notes).contains(other) ==> noted_paths(with_note(notes, path, text)).contains(
            other,
        ),
{
    let paths = noted_paths(notes);
    let i = slot(paths, path);
    lemma_slot(paths, path);
    let after = noted_paths(with_note(notes, path, text));
    if i < notes.len() && notes[i].0 == path {
        assert(paths[i] == path);
    } else {
        assert(after[i] == path);
        if paths.contains(other) {
            let k = choose|k: int| 0 <= k < paths.len() && paths[k] == other;
            if k < i {
                assert(after[k] == other);
            } else {
                assert(after[k + 1] == other);
            }
        }
    }
}

proof fn lemma_noted_once_decided(
    session: Judged,
    outcome: Result<Cycle, &str>,
    decided: Seq<Seq<char>>,
    notes: Seq<(Seq<char>, Seq<char>)>,
    j: int,
    n: int,
)
    requires
        0 <= j < n <= decided.len(),
        outcome_text(session, outcome, decided[j]) is Some,
    ensures
        noted_paths(judged_notes(session, outcome, decided, notes, n)).contains(decided[j]),
    decreases n,
{
    let before = judged_notes(session, outcome, decided, notes, n - 1);
    if j < n - 1 {
        lemma_noted_once_decided(session, outcome, decided, notes, j, n - 1);
    }
    if let Some(text) = outcome_text(session, outcome, decided[n - 1]) {
        lemma_with_note(before, decided[n - 1], text, decided[j]);
    }
}

proof fn lemma_refused_is_not_worked(
    loser: Loser,
    refused: Seq<Seq<char>>,
    n: int,
    path: Seq<char>,
)
    requires
        0 <= n <= loser.paths@.len(),
        loser.well_formed(),
        refused.contains(path),
    ensures
        forall|i: int|
            0 <= i < moves_of(loser, refused, n).len() ==> (#[trigger] moves_of(loser, refused, n)[i]).0
                != path,
        forall|i: int|
            0 <= i < retirements_of(loser, refused, n).len() ==> (#[trigger] retirements_of(
                loser,
                refused,
                n,
            )[i]).0 != path,
    decreases n,
{
    if n > 0 {
        lemma_refused_is_not_worked(loser, refused, n - 1, path);
        let moves = moves_of(loser, refused, n);
        let removals = retirements_of(loser, refused, n);
        assert forall|i: int| 0 <= i < moves.len() implies (#[trigger] moves[i]).0 != path by {
            let front = moves_of(loser, refused, n - 1);
            if i < front.len() {
                assert(moves[i] == front[i]);
            }
        }
        assert forall|i: int| 0 <= i < removals.len() implies (#[trigger] removals[i]).0
            != path by {
            let front = retirements_of(loser, refused, n - 1);
            if i < front.len() {
                assert(removals[i] == front[i]);
            }
        }
    }
}

/// What is sought. Where every conflict is asked for, all that are recorded
/// are, unless there is none or both versions would be kept of each. Where
/// paths are named, or the selection stands for one, the conflicts recorded at
/// or below them are; and where none is, the paths themselves, in every
/// session.
pub proof fn law_what_is_sought(
    selection: Selection,
    records: Seq<Option<Vec<String>>>,
    named: Seq<Seq<char>>,
    winner: Winner,
)
    ensures
        ({
            let n = selection.plans@.len() as int;
            let found = recorded_targets(selection.plans@, records, None, n);
            let all = sought(selection, records, named, true, winner);
            &&& found.len() == 0 <==> all is Nothing
            &&& found.len() > 0 && winner is Both <==> all is AllBoth
            &&& found.len() > 0 && !(winner is Both) ==> all == Sought::Paths(found, None)
        }),
        named.len() > 0 ==> {
            let n = selection.plans@.len() as int;
            let names = Seq::new(named.len(), |i: int| tidied(named[i]));
            let found = recorded_targets(selection.plans@, records, Some(names), n);
            let what = sought(selection, records, named, false, winner);
            &&& what is Paths
            &&& found.len() > 0 ==> what->Paths_0 == found
            &&& found.len() == 0 ==> what->Paths_0.len() == n && what->Paths_1 is None && forall|
                i: int,
            |
                0 <= i < n ==> (#[trigger] what->Paths_0[i]).plan == selection.plans@[i]
                    && what->Paths_0[i].paths == names
        },
{
}

/// The modes that refuse a resolution. Alpha's version can be kept in every
/// mode; a destination's, in none that carries nothing to alpha; both, in none
/// that makes a target's beta a replica.
pub proof fn law_a_mode_refuses_what_it_cannot_keep(
    winner: Winner,
    group_plans: Seq<SessionPlan>,
    targets: Seq<TargetView>,
)
    requires
        winner matches Winner::Beta(i) ==> i < group_plans.len(),
        targets.len() <= usize::MAX,
    ensures
        winner is Alpha ==> refused_by_mode(winner, group_plans, targets) is None,
        winner matches Winner::Beta(i) ==> (refused_by_mode(winner, group_plans, targets) is Some
            <==> group_plans[i as int].mode == SyncMode::OneWaySafe || group_plans[i as int].mode
            == SyncMode::OneWayReplica),
        winner is Both ==> (refused_by_mode(winner, group_plans, targets) is Some <==> exists|
            i: int,
        |
            0 <= i < targets.len() && (#[trigger] targets[i]).plan.mode == SyncMode::OneWayReplica),
        winner is Both ==> (refused_by_mode(winner, group_plans, targets) matches Some(
            ModeRefusal::AsideWouldGo { target },
        ) ==> target < targets.len() && targets[target as int].plan.mode
            == SyncMode::OneWayReplica),
{
    lemma_replica(targets, 0);
}

proof fn lemma_replica(targets: Seq<TargetView>, from: int)
    requires
        0 <= from,
    ensures
        match sought_replica(targets, from) {
            Some(k) => from <= k < targets.len() && targets[k].plan.mode
                == SyncMode::OneWayReplica,
            None => forall|i: int|
                from <= i < targets.len() ==> (#[trigger] targets[i]).plan.mode
                    != SyncMode::OneWayReplica,
        },
    decreases targets.len() - from,
{
    if from < targets.len() && targets[from].plan.mode != SyncMode::OneWayReplica {
        lemma_replica(targets, from + 1);
    }
}

/// A path is left alone after its cycle was worked out exactly where the kept
/// version, or the one moved aside, would not survive it; where the cycle could
/// not be worked out, every path is.
pub proof fn law_a_path_is_refused_where_a_version_would_be_lost(
    session: Judged,
    cycle: Cycle,
    message: &str,
    path: Seq<char>,
)
    ensures
        outcome_text(session, Err(message), path) is Some,
        ({
            let kept = at_path(node_option(cycle.winning), path);
            let on_alpha = agrees(at_path(node_option(cycle.alpha), path), kept);
            let on_beta = agrees(at_path(node_option(cycle.beta), path), kept);
            let elsewhere = session.winner is Beta && session.winner->0 != session.index;
            let lost = session.loser is Some && aside_for(*session.loser->0, path, 0) is Some
                && !agrees(
                at_path(node_option(cycle.beta), aside_for(*session.loser->0, path, 0)->0),
                at_path(owned_option(session.loser->0.root), path),
            );
            outcome_text(session, Ok(cycle), path) is None <==> on_alpha && (on_beta || elsewhere)
                && !lost
        }),
{
}

/// What is done to a losing side: each version that is planned to be moved
/// aside is renamed to the name planned, and each that is planned to be retired
/// is removed, where it is what was scanned; unless the path is refused.
pub proof fn law_a_losing_side_is_done_as_planned(
    loser: Loser,
    refused: Seq<Seq<char>>,
    n: int,
    i: int,
)
    requires
        loser.well_formed(),
        0 <= i < n <= loser.paths@.len(),
        !refused.contains(loser.paths@[i]@),
    ensures
        loser.plans@[i] matches PathPlan::Aside { aside } ==> moves_of(loser, refused, n).contains(
            (loser.paths@[i]@, aside@),
        ),
        loser.plans@[i] matches PathPlan::Retire { expectation } ==> retirements_of(
            loser,
            refused,
            n,
        ).contains((loser.paths@[i]@, expectation.view())),
    decreases n,
{
    let path = loser.paths@[i]@;
    let last = loser.paths@[n - 1]@;
    if let PathPlan::Aside { aside } = loser.plans@[i] {
        if let PathPlan::Aside { aside: other } = loser.plans@[n - 1] {
            crate::text::lemma_pushed(
                moves_of(loser, refused, n - 1),
                (last, other@),
                (path, aside@),
            );
        }
    }
    if let PathPlan::Retire { expectation } = loser.plans@[i] {
        if let PathPlan::Retire { expectation: other } = loser.plans@[n - 1] {
            crate::text::lemma_pushed(
                retirements_of(loser, refused, n - 1),
                (last, other.view()),
                (path, expectation.view()),
            );
        }
    }
    if i < n - 1 {
        law_a_losing_side_is_done_as_planned(loser, refused, n - 1, i);
    }
}

/// Nothing is renamed or removed on a losing side but what is planned to be,
/// and nothing that is refused.
pub proof fn law_nothing_else_is_done_to_a_losing_side(
    loser: Loser,
    refused: Seq<Seq<char>>,
    n: int,
    path: Seq<char>,
    to: Seq<char>,
    expected: NodeView,
)
    requires
        loser.well_formed(),
        0 <= n <= loser.paths@.len(),
    ensures
        moves_of(loser, refused, n).contains((path, to)) ==> !refused.contains(path) && exists|i: int|
            0 <= i < n && (#[trigger] loser.paths@[i])@ == path && (loser.plans@[i] is Aside
                && loser.plans@[i]->aside@ == to),
        retirements_of(loser, refused, n).contains((path, expected)) ==> !refused.contains(path)
            && exists|i: int|
            0 <= i < n && (#[trigger] loser.paths@[i])@ == path && (loser.plans@[i] is Retire
                && loser.plans@[i]->expectation.view() == expected),
    decreases n,
{
    if n > 0 {
        law_nothing_else_is_done_to_a_losing_side(loser, refused, n - 1, path, to, expected);
        let last = loser.paths@[n - 1]@;
        if let PathPlan::Aside { aside } = loser.plans@[n - 1] {
            crate::text::lemma_pushed(
                moves_of(loser, refused, n - 1),
                (last, aside@),
                (path, to),
            );
        }
        if let PathPlan::Retire { expectation } = loser.plans@[n - 1] {
            crate::text::lemma_pushed(
                retirements_of(loser, refused, n - 1),
                (last, expectation.view()),
                (path, expected),
            );
        }
    }
}

/// A root itself is never resolved: a path that is empty or a dot, in whichever
/// target, is found out.
pub proof fn law_a_root_is_not_resolved(targets: Seq<TargetView>, i: int, j: int)
    requires
        0 <= i < targets.len(),
        0 <= j < targets[i].paths.len(),
    ensures
        targets[i].paths[j].len() == 0 || targets[i].paths[j] == seq!['.'] ==> seeks_root(targets),
        !seeks_root(targets) ==> targets[i].paths[j].len() > 0 && targets[i].paths[j] != seq!['.'],
{
    law_the_root_is_named_by_a_dot(targets[i].paths[j]);
    if targets[i].paths[j].len() == 0 {
        assert(targets[i].paths[j] =~= Seq::empty());
    }
}

/// Where nothing is named, the selection's own path is meant: the one that it
/// stands for, and none where it stands for several, or for whole roots.
pub proof fn law_a_selection_s_own_path_is_meant(selection: Selection, named: Seq<Seq<char>>)
    requires
        selection.relatives@.len() > 0,
    ensures
        named.len() > 0 ==> named_paths(selection, named) is Ok,
        named_paths(selection, Seq::empty()) is Ok ==> selection.relatives@[0] is Some
            && named_paths(selection, Seq::empty())->Ok_0 == seq![(selection.relatives@[0]->0)@],
        selection.relatives@[0] is None ==> named_paths(selection, Seq::empty()) is Err,
{
}

/// What refuses a resolution is told by the session that does: the target whose
/// replica would lose the version moved aside, or the winning destination.
pub proof fn law_the_refusing_session_is_told(
    i: usize,
    target: usize,
    winner: Winner,
    group_plans: Seq<SessionPlan>,
    targets: Seq<TargetView>,
)
    ensures
        refusing_plan(ModeRefusal::AsideWouldGo { target }, winner, group_plans, targets)
            == targets[target as int].plan,
        refusing_plan(ModeRefusal::NeverCarried, Winner::Beta(i), group_plans, targets)
            == group_plans[i as int],
{
}

} // verus!
