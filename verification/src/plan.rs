//! Sessions as they are planned and as they are recorded.
use vstd::prelude::*;

verus! {

/// How two sides are kept in agreement.
#[derive(Clone, Copy, Debug, PartialEq, Eq, Structural)]
pub enum SyncMode {
    /// Both directions; a file changed on both sides is a conflict.
    TwoWaySafe,
    /// The same, and a large directory emptied on one side is a conflict too.
    TwoWayParanoid,
    /// Both directions; alpha's version wins.
    TwoWayResolved,
    /// The same, and alpha's deletion of what beta edited wins too.
    TwoWayStrict,
    /// Alpha to beta; what beta changed itself is a conflict.
    OneWaySafe,
    /// Alpha to beta, exactly.
    OneWayReplica,
}

impl SyncMode {
    /// The name a mode is configured by.
    pub open spec fn text(self) -> Seq<char> {
        match self {
            SyncMode::TwoWaySafe => "two-way-conflict"@,
            SyncMode::TwoWayParanoid => "two-way-paranoid"@,
            SyncMode::TwoWayResolved => "two-way-alpha"@,
            SyncMode::TwoWayStrict => "two-way-alpha-strict"@,
            SyncMode::OneWaySafe => "one-way-conflict"@,
            SyncMode::OneWayReplica => "one-way-alpha"@,
        }
    }

    /// The name a mode is configured by.
    pub fn name(self) -> (r: &'static str)
        ensures
            r@ == self.text(),
    {
        match self {
            SyncMode::TwoWaySafe => "two-way-conflict",
            SyncMode::TwoWayParanoid => "two-way-paranoid",
            SyncMode::TwoWayResolved => "two-way-alpha",
            SyncMode::TwoWayStrict => "two-way-alpha-strict",
            SyncMode::OneWaySafe => "one-way-conflict",
            SyncMode::OneWayReplica => "one-way-alpha",
        }
    }
}

/// A session: one alpha and one beta of a group.
#[derive(Debug)]
pub struct SessionPlan {
    /// The group.
    pub group: String,
    /// What the destination is called.
    pub host: String,
    /// The alpha root as it is configured.
    pub alpha_spec: String,
    /// The beta root as it is configured.
    pub beta_spec: String,
    /// What tells the alpha root from others.
    pub alpha_identity: String,
    /// What tells the beta root from others.
    pub beta_identity: String,
    /// What tells the session from others.
    pub identifier: String,
    /// What the session is called.
    pub display: String,
    /// The mode.
    pub mode: SyncMode,
}

impl SessionPlan {
    /// A copy of the plan.
    pub fn duplicate(&self) -> (r: SessionPlan)
        ensures
            r == *self,
    {
        SessionPlan {
            group: self.group.clone(),
            host: self.host.clone(),
            alpha_spec: self.alpha_spec.clone(),
            beta_spec: self.beta_spec.clone(),
            alpha_identity: self.alpha_identity.clone(),
            beta_identity: self.beta_identity.clone(),
            identifier: self.identifier.clone(),
            display: self.display.clone(),
            mode: self.mode,
        }
    }
}

/// The plans of a group, in order.
pub open spec fn in_group(plans: Seq<SessionPlan>, group: Seq<char>) -> Seq<SessionPlan>
    decreases plans.len(),
{
    if plans.len() == 0 {
        Seq::empty()
    } else if plans.last().group@ == group {
        in_group(plans.drop_last(), group).push(plans.last())
    } else {
        in_group(plans.drop_last(), group)
    }
}

/// The plans of a group, in order.
pub fn plans_in_group(plans: &[SessionPlan], group: &str) -> (r: Vec<SessionPlan>)
    ensures
        r@ == in_group(plans@, group@),
{
    let mut r: Vec<SessionPlan> = Vec::new();
    let mut i: usize = 0;
    while i < plans.len()
        invariant
            i <= plans@.len(),
            r@ == in_group(plans@.take(i as int), group@),
        decreases plans@.len() - i,
    {
        assert(plans@.take(i + 1).drop_last() =~= plans@.take(i as int));
        if crate::text::same_text(plans[i].group.as_str(), group) {
            r.push(plans[i].duplicate());
        }
        i += 1;
    }
    assert(plans@.take(plans@.len() as int) =~= plans@);
    r
}

/// What one side of a conflict holds.
#[derive(Debug)]
pub struct ConflictSide {
    /// Whether anything is there.
    pub present: bool,
    /// What it is: `file`, or something else by name.
    pub kind: String,
    /// The size of a file.
    pub size: u64,
    /// When a file was modified, in seconds.
    pub mtime_seconds: i64,
    /// What of it synchronization cannot carry, if anything.
    pub unsynchronizable: Option<Unsynchronizable>,
}

/// Content that synchronization cannot carry.
#[derive(Debug)]
pub struct Unsynchronizable {
    /// How many entries.
    pub entries: u64,
    /// One of them.
    pub example: String,
    /// Why.
    pub reason: String,
}

/// A conflict, side by side.
#[derive(Debug)]
pub struct ConflictDetail {
    /// Its path.
    pub path: String,
    /// What alpha holds.
    pub alpha: ConflictSide,
    /// What beta holds.
    pub beta: ConflictSide,
}

/// How a session's last cycle ended.
#[derive(Debug)]
pub struct SessionStatus {
    /// The state, in a word.
    pub state: String,
    /// The paths in conflict.
    pub conflicts: Vec<String>,
    /// The conflicts, side by side.
    pub conflict_details: Vec<ConflictDetail>,
    /// What could not be synchronized: side, path and reason.
    pub blocked: Vec<String>,
    /// What went wrong, if anything did.
    pub error: Option<String>,
    /// How many cycles have run.
    pub cycles: u64,
    /// When this was recorded, in seconds.
    pub updated_at: u64,
    /// The supervisor's role, where it has one.
    pub role: String,
    /// The term of that role.
    pub term: u64,
}

/// Whether a state is one in which no cycle ran to its end.
pub open spec fn failed_state(state: Seq<char>) -> bool {
    state == "halted"@ || state == "unreachable"@ || state == "errored"@
}

/// Whether a state is one in which no cycle ran to its end.
pub fn is_failed(state: &str) -> (r: bool)
    ensures
        r == failed_state(state@),
{
    crate::text::same_text(state, "halted") || crate::text::same_text(state, "unreachable")
        || crate::text::same_text(state, "errored")
}

/// A group has exactly the plans that name it, in their order.
pub proof fn law_a_group_has_its_plans(
    plans: Seq<SessionPlan>,
    group: Seq<char>,
    plan: SessionPlan,
)
    ensures
        in_group(plans, group).contains(plan) <==> plans.contains(plan) && plan.group@ == group,
        plan.group@ == group ==> in_group(plans.push(plan), group) == in_group(plans, group).push(
            plan,
        ),
        plan.group@ != group ==> in_group(plans.push(plan), group) == in_group(plans, group),
    decreases plans.len(),
{
    assert(plans.push(plan).drop_last() =~= plans);
    if plans.len() > 0 {
        let front = plans.drop_last();
        law_a_group_has_its_plans(front, group, plan);
        crate::text::lemma_pushed(front, plans.last(), plan);
        assert(front.push(plans.last()) =~= plans);
        crate::text::lemma_pushed(in_group(front, group), plans.last(), plan);
    }
}

/// A session has failed in these states and in no other.
pub proof fn law_some_states_are_failures(state: Seq<char>)
    ensures
        failed_state("halted"@),
        failed_state("unreachable"@),
        failed_state("errored"@),
        failed_state(state) ==> state.len() == 6 || state.len() == 11 || state.len() == 7,
        failed_state(state) ==> state[0] == 'h' || state[0] == 'u' || state[0] == 'e',
{
    reveal_strlit("halted");
    reveal_strlit("unreachable");
    reveal_strlit("errored");
}

} // verus!
