//! Not running as root unless that is meant.
//!
//! State, configuration and the commands a configuration runs belong to one
//! user. As root, a configuration that someone else can edit runs as root; and
//! root with another user's home leaves files there that break that user's
//! runs.
use crate::command::select::text_option;
use crate::protocol::Initialize;
use vstd::prelude::*;

verus! {

/// Who is running.
#[derive(Clone, Copy, Debug, PartialEq, Eq, Structural)]
pub struct Identity {
    /// The effective user.
    pub euid: u32,
    /// Who owns the home, where there is one.
    pub home_owner: Option<u32>,
}

/// Why running is refused.
#[derive(Clone, Copy, Debug, PartialEq, Eq, Structural)]
pub enum RootError {
    /// As root, with a home that is another user's.
    BorrowedHome {
        /// That user.
        owner: u32,
    },
    /// As root, without having said that this is meant.
    Controller,
    /// As root, for a session that sets no owner and no group.
    Agent,
}

/// Whether root runs with another user's home.
pub open spec fn borrows_home(identity: Identity) -> bool {
    identity.euid == 0 && (identity.home_owner matches Some(owner) && owner != 0)
}

impl Identity {
    fn refuse_borrowed_home(&self) -> (r: Result<(), RootError>)
        ensures
            if borrows_home(*self) {
                r == Err::<(), RootError>(
                    RootError::BorrowedHome { owner: self.home_owner->0 },
                )
            } else {
                r is Ok
            },
    {
        if self.euid == 0 {
            if let Some(owner) = self.home_owner {
                if owner != 0 {
                    return Err(RootError::BorrowedHome { owner });
                }
            }
        }
        Ok(())
    }
}

/// Whether the controller runs.
pub open spec fn controller_runs(identity: Identity, allowed: bool) -> bool {
    !borrows_home(identity) && (identity.euid != 0 || allowed)
}

/// Whether an agent runs, given whether its session sets an owner or a group.
pub open spec fn agent_runs(identity: Identity, owner: bool, group: bool) -> bool {
    !borrows_home(identity) && (identity.euid != 0 || owner || group)
}

/// Whether the controller runs: as root only where that is allowed, and with
/// another user's home never.
pub fn check_controller(identity: Identity, allowed: bool) -> (r: Result<(), RootError>)
    ensures
        r is Ok <==> controller_runs(identity, allowed),
        if borrows_home(identity) {
            r == Err::<(), RootError>(RootError::BorrowedHome { owner: identity.home_owner->0 })
        } else if identity.euid == 0 && !allowed {
            r == Err::<(), RootError>(RootError::Controller)
        } else {
            r is Ok
        },
{
    if let Err(error) = identity.refuse_borrowed_home() {
        return Err(error);
    }
    if identity.euid == 0 && !allowed {
        return Err(RootError::Controller);
    }
    Ok(())
}

/// Whether an agent runs: as root only for a session that sets an owner or a
/// group, which only root can give.
pub fn check_agent(identity: Identity, initialize: &Initialize) -> (r: Result<(), RootError>)
    ensures
        r is Ok <==> agent_runs(
            identity,
            initialize.default_owner is Some,
            initialize.default_group is Some,
        ),
        if borrows_home(identity) {
            r == Err::<(), RootError>(RootError::BorrowedHome { owner: identity.home_owner->0 })
        } else if identity.euid == 0 && initialize.default_owner is None
            && initialize.default_group is None {
            r == Err::<(), RootError>(RootError::Agent)
        } else {
            r is Ok
        },
{
    if let Err(error) = identity.refuse_borrowed_home() {
        return Err(error);
    }
    if identity.euid == 0 && initialize.default_owner.is_none()
        && initialize.default_group.is_none() {
        return Err(RootError::Agent);
    }
    Ok(())
}

/// What the boolean under a key of a table of a TOML document is.
pub uninterp spec fn toml_boolean(text: Seq<char>, table: Seq<char>, key: Seq<char>) -> Option<bool>;

/// `toml::Table` read from a text, then `get` of the table and of the key in
/// it, and `as_bool`: `None` where the text is no TOML document, where either
/// is not there, and where the value is no boolean; otherwise that boolean. It
/// depends on the three texts alone. Which texts are TOML is not stated.
#[verifier::external_body]
fn toml_flag(text: &str, table: &str, key: &str) -> (r: Option<bool>)
    ensures
        r == toml_boolean(text@, table@, key@),
{
    text.parse::<toml::Table>().ok()?.get(table)?.get(key)?.as_bool()
}

/// Whether a setting allows root: only where it is there and says so.
pub fn allows(setting: Option<bool>) -> (r: bool)
    ensures
        r == (setting == Some(true)),
{
    match setting {
        Some(value) => value,
        None => false,
    }
}

/// Whether a configuration allows root, given its text where it could be
/// read. Only that setting is looked at, so the rest need not be valid.
pub fn config_allows_root(text: Option<&str>) -> (r: bool)
    ensures
        r == (text_option(text) matches Some(text) && toml_boolean(
            text,
            "advanced"@,
            "allow_root"@,
        ) == Some(true)),
{
    match text {
        Some(text) => allows(toml_flag(text, "advanced", "allow_root")),
        None => false,
    }
}

/// Anyone but root runs, whatever the settings. Root does not run with another
/// user's home; with its own, or with none, the controller runs where that is
/// allowed, and an agent where its session sets an owner or a group.
pub proof fn law_root_runs_only_where_it_is_meant(
    identity: Identity,
    allowed: bool,
    owner: bool,
    group: bool,
)
    ensures
        identity.euid > 0 ==> controller_runs(identity, allowed) && agent_runs(
            identity,
            owner,
            group,
        ),
        identity.euid == 0 && identity.home_owner is Some && identity.home_owner->0 > 0
            ==> !controller_runs(identity, allowed) && !agent_runs(identity, owner, group),
        identity.euid == 0 && (identity.home_owner is None || identity.home_owner->0 == 0) ==> (
        controller_runs(identity, allowed) <==> allowed) && (agent_runs(identity, owner, group)
            <==> owner || group),
{
}

} // verus!
