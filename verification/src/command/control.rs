//! The smaller commands: starting and supervising, enabling and disabling,
//! comparing, and how the program ends.
use crate::command::resolve::push_line;
use crate::command::select::{steps, steps_of, text_option};
use crate::text::{
    chars_of, debug_text, debugged, decimal, decimal_text, holds_text, join_strings, joined,
    optional, same, same_text, strings, texts,
};
use vstd::prelude::*;

verus! {

// ---------------------------------------------------------------------------
// Launching
// ---------------------------------------------------------------------------

/// Whether a directory is where an application bundle keeps its executable.
pub open spec fn in_bundle(parent: Seq<char>) -> bool {
    let parts = steps(parent);
    let n = parts.len() as int;
    n >= 2 && parts[n - 2] == "Contents"@ && parts[n - 1] == "MacOS"@
}

/// Whether the program was launched as an application.
pub open spec fn launched_bundled(has_argument: bool, parent: Option<Seq<char>>) -> bool {
    !has_argument && (parent matches Some(parent) && in_bundle(parent))
}

/// Whether the program was launched as an application: without an argument,
/// from inside a bundle. `parent` is the executable's directory, where that is
/// known.
pub fn bundled_launch(has_argument: bool, parent: Option<&str>) -> (r: bool)
    ensures
        r == launched_bundled(has_argument, text_option(parent)),
{
    if has_argument {
        return false;
    }
    match parent {
        Some(parent) => {
            let parts = steps_of(parent);
            let n: usize = parts.len();
            assert(texts(parts@).len() == n);
            if n < 2 {
                return false;
            }
            assert(texts(parts@)[n - 2] == parts@[n - 2]@);
            assert(texts(parts@)[n - 1] == parts@[n - 1]@);
            same(parts[n - 2].as_slice(), chars_of("Contents").as_slice()) && same(
                parts[n - 1].as_slice(),
                chars_of("MacOS").as_slice(),
            )
        },
        None => false,
    }
}

/// What is synchronized by hand.
#[derive(Clone, Copy, Debug, PartialEq, Eq, Structural)]
pub enum SyncForm {
    /// Every configured session.
    Configured,
    /// Two roots.
    Roots,
    /// Nothing: only one root was given.
    OneRoot,
}

/// What is synchronized by hand, by which roots were given.
pub open spec fn form_of(alpha: bool, beta: bool) -> SyncForm {
    if alpha && beta {
        SyncForm::Roots
    } else if !alpha && !beta {
        SyncForm::Configured
    } else {
        SyncForm::OneRoot
    }
}

/// What is synchronized by hand, by which roots were given.
pub fn sync_form(alpha: bool, beta: bool) -> (r: SyncForm)
    ensures
        r == form_of(alpha, beta),
{
    if alpha && beta {
        SyncForm::Roots
    } else if !alpha && !beta {
        SyncForm::Configured
    } else {
        SyncForm::OneRoot
    }
}

/// How the program ends.
pub open spec fn ending(failed: bool, unsettled: bool) -> i32 {
    if !failed {
        0
    } else if unsettled {
        2
    } else {
        1
    }
}

/// How the program ends: with one after a failure, and with two where all
/// went well and something is left for someone.
pub fn exit_code(failed: bool, unsettled: bool) -> (r: i32)
    ensures
        r == ending(failed, unsettled),
{
    if !failed {
        0
    } else if unsettled {
        2
    } else {
        1
    }
}

// ---------------------------------------------------------------------------
// Supervising
// ---------------------------------------------------------------------------

/// How supervising begins.
#[derive(Clone, Copy, Debug, PartialEq, Eq, Structural)]
pub enum WatchStart {
    /// By following another machine.
    Peer,
    /// With the configuration.
    Configured,
    /// Not at all: a peer cannot have a configuration of its own.
    Both,
}

/// How supervising begins.
pub open spec fn start_of(named: bool, is_peer: bool, has_config: bool) -> WatchStart {
    if !named && is_peer {
        if has_config {
            WatchStart::Both
        } else {
            WatchStart::Peer
        }
    } else {
        WatchStart::Configured
    }
}

/// How supervising begins: a machine that is a peer follows, unless a
/// configuration is named.
pub fn watch_start(named: bool, is_peer: bool, has_config: bool) -> (r: WatchStart)
    ensures
        r == start_of(named, is_peer, has_config),
{
    if !named && is_peer {
        if has_config {
            WatchStart::Both
        } else {
            WatchStart::Peer
        }
    } else {
        WatchStart::Configured
    }
}

/// Whether the configuration is read before the service is started.
pub open spec fn config_checked(named: bool, is_peer: bool) -> bool {
    named || !is_peer
}

/// Whether the configuration is read before the service is started: a peer
/// has none to read.
pub fn checks_config(named: bool, is_peer: bool) -> (r: bool)
    ensures
        r == config_checked(named, is_peer),
{
    named || !is_peer
}

/// Whether sessions are shown as a peer's.
pub open spec fn peer_shown(named: bool, is_peer: bool, has_config: bool) -> bool {
    !named && is_peer && !has_config
}

/// Whether sessions are shown as a peer's.
pub fn shows_as_peer(named: bool, is_peer: bool, has_config: bool) -> (r: bool)
    ensures
        r == peer_shown(named, is_peer, has_config),
{
    !named && is_peer && !has_config
}

/// Whether the display is repainted.
pub open spec fn repainted(log: bool, terminal: bool) -> bool {
    !log && terminal
}

/// Whether the display is repainted.
pub fn live_display(log: bool, terminal: bool) -> (r: bool)
    ensures
        r == repainted(log, terminal),
{
    !log && terminal
}

/// The name of how much is logged, if anything says so.
pub open spec fn level_of(debug: bool, configured: Option<Seq<char>>) -> Option<Seq<char>> {
    if debug {
        Some("debug"@)
    } else {
        configured
    }
}

/// The name of how much is logged: everything where that was asked for on the
/// command line, and otherwise what the configuration says, if it says
/// anything.
pub fn log_level(debug: bool, configured: Option<String>) -> (r: Option<String>)
    ensures
        optional(r) == level_of(debug, optional(configured)),
{
    if debug {
        Some("debug".to_owned())
    } else {
        configured
    }
}

/// Whether some session asks for peering.
pub open spec fn asks_for_peers(peering: Seq<bool>) -> bool {
    peering.contains(true)
}

/// Whether this machine leads as the alpha of its peers: some session asks for
/// peering.
pub fn leads_peers(peering: &[bool]) -> (r: bool)
    ensures
        r == asks_for_peers(peering@),
{
    let mut i: usize = 0;
    while i < peering.len()
        invariant
            i <= peering@.len(),
            forall|k: int| 0 <= k < i ==> !#[trigger] peering@[k],
        decreases peering@.len() - i,
    {
        if peering[i] {
            assert(peering@[i as int]);
            return true;
        }
        i += 1;
    }
    false
}

/// What follows supervision that returned.
#[derive(Clone, Copy, Debug, PartialEq, Eq, Structural)]
pub enum AfterSupervision {
    /// The end: no edited configuration waits.
    Stop,
    /// The same sessions again: the edited configuration was refused.
    Resume,
    /// The edited configuration's sessions.
    Switch {
        /// Whether edits are still taken up.
        reload: bool,
    },
}

/// What follows supervision that returned, given the edited configuration
/// that waits.
pub open spec fn following(next: Option<(bool, bool)>) -> AfterSupervision {
    match next {
        None => AfterSupervision::Stop,
        Some((accepted, reload)) => if accepted {
            AfterSupervision::Switch { reload }
        } else {
            AfterSupervision::Resume
        },
    }
}

/// What follows supervision that returned, given the edited configuration
/// that waits: whether it is accepted, and whether it takes up edits.
pub fn after_supervision(next: Option<(bool, bool)>) -> (r: AfterSupervision)
    ensures
        r == following(next),
{
    match next {
        None => AfterSupervision::Stop,
        Some((accepted, reload)) => if accepted {
            AfterSupervision::Switch { reload }
        } else {
            AfterSupervision::Resume
        },
    }
}

/// What a peer knows of who leads.
#[derive(Debug)]
pub enum PeerStanding {
    /// The peer is not running.
    Stopped,
    /// It has seen no lease.
    NoLease,
    /// It has seen one.
    Lease {
        /// Who leads.
        leader: String,
        /// In which term.
        term: u64,
        /// How the lease stands, in a word.
        standing: String,
        /// For how long it has been stale.
        stale_seconds: u64,
        /// After how long this peer acts.
        wait_seconds: u64,
    },
}

/// What is said of a peer.
pub open spec fn peer_text(name: Seq<char>, standing: PeerStanding) -> Seq<char> {
    match standing {
        PeerStanding::Stopped => "peer "@ + name
            + ": not running; start it with `autobahn watch`\n"@,
        PeerStanding::NoLease => "peer "@ + name + ": no lease yet; waiting for the leader\n"@,
        PeerStanding::Lease { leader, term, standing, stale_seconds, wait_seconds } => {
            let line = "peer "@ + name + ": "@ + leader@ + " leads at term "@ + decimal_text(
                term as nat,
            ) + "; the lease is "@ + standing@;
            if standing@ == "fresh"@ {
                line + "\n"@
            } else {
                line + " for "@ + decimal_text(stale_seconds as nat) + "s (this peer acts after "@
                    + decimal_text(wait_seconds as nat) + "s)"@ + "\n"@
            }
        },
    }
}

/// What is said of a peer, above its sessions.
pub fn peer_header(name: &str, standing: &PeerStanding) -> (r: String)
    ensures
        r@ == peer_text(name@, *standing),
{
    let mut line = "peer ".to_owned();
    line.append(name);
    match standing {
        PeerStanding::Stopped => {
            line.append(": not running; start it with `autobahn watch`\n");
        },
        PeerStanding::NoLease => {
            line.append(": no lease yet; waiting for the leader\n");
        },
        PeerStanding::Lease { leader, term, standing, stale_seconds, wait_seconds } => {
            line.append(": ");
            line.append(leader.as_str());
            line.append(" leads at term ");
            let number = decimal(*term);
            line.append(number.as_str());
            line.append("; the lease is ");
            line.append(standing.as_str());
            if !same_text(standing.as_str(), "fresh") {
                line.append(" for ");
                let number = decimal(*stale_seconds);
                line.append(number.as_str());
                line.append("s (this peer acts after ");
                let number = decimal(*wait_seconds);
                line.append(number.as_str());
                line.append("s)");
            }
            line.append("\n");
        },
    }
    line
}

/// What is said where a supervisor did as it was asked.
pub fn applied_line(verb: &str, sessions: usize) -> (r: String)
    ensures
        r@ == verb@ + " "@ + decimal_text(sessions as nat) + " session(s)"@,
{
    let mut line = verb.to_owned();
    line.append(" ");
    let count = decimal(sessions as u64);
    line.append(count.as_str());
    line.append(" session(s)");
    line
}

/// What is said where a supervisor hands the lead over.
pub fn yielded_line(to: &str, sessions: usize) -> (r: String)
    ensures
        r@ == "handing the lead to "@ + to@ + "; "@ + decimal_text(sessions as nat)
            + " session(s) will pass it on"@,
{
    let mut line = "handing the lead to ".to_owned();
    line.append(to);
    line.append("; ");
    let count = decimal(sessions as u64);
    line.append(count.as_str());
    line.append(" session(s) will pass it on");
    line
}

// ---------------------------------------------------------------------------
// Enabling and disabling
// ---------------------------------------------------------------------------

/// What is enabled or disabled.
#[derive(Debug)]
pub enum Availability {
    /// A host.
    Host(String),
    /// A group.
    Group(String),
}

/// Why nothing is enabled or disabled.
#[derive(Debug)]
pub enum AvailabilityError {
    /// Neither a host nor a group was named, or both were.
    NotOne,
    /// No group mentions the host.
    UnknownHost {
        /// What is said.
        message: String,
    },
    /// There is no such group.
    UnknownGroup {
        /// What is said.
        message: String,
    },
}

/// What is said of a host that no group mentions.
pub open spec fn unknown_host_text(host: Seq<char>, known: Seq<Seq<char>>) -> Seq<char> {
    "no group mentions the host "@ + debugged(host) + ". The configuration names: "@ + joined(
        known,
        ", "@,
    )
}

/// What is said of a group that there is not.
pub open spec fn unknown_group_text(group: Seq<char>, known: Seq<Seq<char>>) -> Seq<char> {
    "no group named "@ + debugged(group) + ". The configuration names: "@ + joined(known, ", "@)
}

/// What is enabled or disabled: the one host or group that was named, where
/// the configuration knows it.
pub fn availability(
    host: Option<&str>,
    group: Option<&str>,
    hosts: &[String],
    groups: &[String],
) -> (r: Result<Availability, AvailabilityError>)
    ensures
        match (text_option(host), text_option(group)) {
            (Some(name), None) => if strings(hosts@).contains(name) {
                r matches Ok(Availability::Host(text)) && text@ == name
            } else {
                r matches Err(AvailabilityError::UnknownHost { message }) && message@
                    == unknown_host_text(name, strings(hosts@))
            },
            (None, Some(name)) => if strings(groups@).contains(name) {
                r matches Ok(Availability::Group(text)) && text@ == name
            } else {
                r matches Err(AvailabilityError::UnknownGroup { message }) && message@
                    == unknown_group_text(name, strings(groups@))
            },
            _ => r matches Err(AvailabilityError::NotOne),
        },
{
    match (host, group) {
        (Some(name), None) => {
            if holds_text(hosts, name) {
                return Ok(Availability::Host(name.to_owned()));
            }
            let mut message = "no group mentions the host ".to_owned();
            let quoted = debug_text(name);
            message.append(quoted.as_str());
            message.append(". The configuration names: ");
            let known = join_strings(hosts, ", ");
            message.append(known.as_str());
            Err(AvailabilityError::UnknownHost { message })
        },
        (None, Some(name)) => {
            if holds_text(groups, name) {
                return Ok(Availability::Group(name.to_owned()));
            }
            let mut message = "no group named ".to_owned();
            let quoted = debug_text(name);
            message.append(quoted.as_str());
            message.append(". The configuration names: ");
            let known = join_strings(groups, ", ");
            message.append(known.as_str());
            Err(AvailabilityError::UnknownGroup { message })
        },
        _ => Err(AvailabilityError::NotOne),
    }
}

/// What is enabled or disabled, in words.
pub open spec fn subject_text(what: Availability) -> Seq<char> {
    match what {
        Availability::Host(name) => "host "@ + name@,
        Availability::Group(name) => "group "@ + name@,
    }
}

fn subject(what: &Availability) -> (r: String)
    ensures
        r@ == subject_text(*what),
{
    match what {
        Availability::Host(name) => {
            let mut r = "host ".to_owned();
            r.append(name.as_str());
            r
        },
        Availability::Group(name) => {
            let mut r = "group ".to_owned();
            r.append(name.as_str());
            r
        },
    }
}

/// What is done, in words.
pub open spec fn availability_verb(enable: bool) -> Seq<char> {
    if enable {
        "enabled"@
    } else {
        "disabled"@
    }
}

/// What is said where nothing had to be changed.
pub open spec fn unchanged_text(what: Availability, enable: bool, path: Seq<char>) -> Seq<char> {
    subject_text(what) + " is already "@ + availability_verb(enable) + "; "@ + path
        + " is unchanged"@
}

/// What is said where nothing had to be changed.
pub fn unchanged_line(what: &Availability, enable: bool, path: &str) -> (r: String)
    ensures
        r@ == unchanged_text(*what, enable, path@),
{
    let mut line = subject(what);
    line.append(" is already ");
    if enable {
        line.append("enabled");
    } else {
        line.append("disabled");
    }
    line.append("; ");
    line.append(path);
    line.append(" is unchanged");
    line
}

/// What is said of a change: what was done, how many sessions there are, and
/// which groups come or go with a host that leads them.
pub open spec fn changed_lines(
    what: Availability,
    enable: bool,
    path: Seq<char>,
    now: nat,
    before: nat,
    led: Seq<Seq<char>>,
) -> Seq<Seq<char>> {
    let first = seq![
        availability_verb(enable) + " "@ + subject_text(what) + " in "@ + path,
        "  "@ + decimal_text(now) + " session(s) now, "@ + decimal_text(before) + " before"@,
    ];
    let second = if what is Host && led.len() > 0 {
        first.push(
            "  note: it is the alpha of "@ + joined(led, ", "@) + ", so "@ + decimal_text(led.len())
                + " group(s) "@ + (if enable {
                "return"@
            } else {
                "go"@
            }) + " with it"@,
        )
    } else {
        first
    };
    second.push("  the supervisor reads the configuration at startup: `autobahn restart`"@)
}

/// What is said of a change.
pub fn changed(
    what: &Availability,
    enable: bool,
    path: &str,
    now: usize,
    before: usize,
    led: &[String],
) -> (r: Vec<String>)
    ensures
        strings(r@) == changed_lines(
            *what,
            enable,
            path@,
            now as nat,
            before as nat,
            strings(led@),
        ),
{
    let mut lines: Vec<String> = Vec::new();
    assert(strings(lines@) =~= Seq::<Seq<char>>::empty());
    let mut line = if enable {
        "enabled".to_owned()
    } else {
        "disabled".to_owned()
    };
    line.append(" ");
    let name = subject(what);
    line.append(name.as_str());
    line.append(" in ");
    line.append(path);
    push_line(&mut lines, line);
    let mut line = "  ".to_owned();
    let count = decimal(now as u64);
    line.append(count.as_str());
    line.append(" session(s) now, ");
    let count = decimal(before as u64);
    line.append(count.as_str());
    line.append(" before");
    push_line(&mut lines, line);
    let is_host = match what {
        Availability::Host(_) => true,
        Availability::Group(_) => false,
    };
    if is_host && led.len() > 0 {
        let mut line = "  note: it is the alpha of ".to_owned();
        let names = join_strings(led, ", ");
        line.append(names.as_str());
        line.append(", so ");
        let count = decimal(led.len() as u64);
        line.append(count.as_str());
        line.append(" group(s) ");
        if enable {
            line.append("return");
        } else {
            line.append("go");
        }
        line.append(" with it");
        push_line(&mut lines, line);
    }
    push_line(
        &mut lines,
        "  the supervisor reads the configuration at startup: `autobahn restart`".to_owned(),
    );
    assert(strings(lines@) =~= changed_lines(
        *what,
        enable,
        path@,
        now as nat,
        before as nat,
        strings(led@),
    ));
    lines
}

/// Whether a configuration may be written.
pub open spec fn writable(exists_: bool, force: bool) -> bool {
    !exists_ || force
}

/// Whether a configuration may be written: over one that is there only where
/// that is asked for.
pub fn may_write_config(exists_: bool, force: bool) -> (r: bool)
    ensures
        r == writable(exists_, force),
{
    !exists_ || force
}

// ---------------------------------------------------------------------------
// Comparing
// ---------------------------------------------------------------------------

/// What two contents are to each other.
pub open spec fn same_content(a: Option<Seq<u8>>, b: Option<Seq<u8>>) -> bool {
    a == b
}

/// The bytes of a file, where there is one.
pub open spec fn bytes_option(content: Option<&[u8]>) -> Option<Seq<u8>> {
    match content {
        Some(bytes) => Some(bytes@),
        None => None,
    }
}

/// Whether a file is the same on both sides, or missing on both.
pub fn is_same_content(a: Option<&[u8]>, b: Option<&[u8]>) -> (r: bool)
    ensures
        r == same_content(bytes_option(a), bytes_option(b)),
{
    match (a, b) {
        (Some(x), Some(y)) => {
            if x.len() != y.len() {
                return false;
            }
            let mut i: usize = 0;
            while i < x.len()
                invariant
                    i <= x@.len(),
                    x@.len() == y@.len(),
                    bytes_option(a) == Some(x@),
                    bytes_option(b) == Some(y@),
                    forall|k: int| 0 <= k < i ==> x@[k] == y@[k],
                decreases x@.len() - i,
            {
                if x[i] != y[i] {
                    return false;
                }
                i += 1;
            }
            assert(x@ =~= y@);
            true
        },
        (None, None) => true,
        _ => false,
    }
}

/// What is said of a file that is the same on both sides.
pub fn identical_line(path: &str, host: &str) -> (r: String)
    ensures
        r@ == path@ + ": identical on alpha and "@ + host@,
{
    let mut line = path.to_owned();
    line.append(": identical on alpha and ");
    line.append(host);
    line
}

/// What is said of a file that one side does not have.
pub open spec fn presence_text(on_alpha: bool, on_beta: bool, host: Seq<char>) -> Option<Seq<char>> {
    if !on_alpha {
        Some("("@ + "absent"@ + " on "@ + "alpha"@ + ")"@)
    } else if !on_beta {
        Some("("@ + "present"@ + " on "@ + host + ")"@)
    } else {
        None
    }
}

/// What is said of a file that one side does not have.
pub fn presence_line(on_alpha: bool, on_beta: bool, host: &str) -> (r: Option<String>)
    ensures
        crate::text::optional(r) == presence_text(on_alpha, on_beta, host@),
{
    if on_alpha && on_beta {
        return None;
    }
    let mut line = "(".to_owned();
    if !on_alpha {
        line.append("absent");
        line.append(" on ");
        line.append("alpha");
    } else {
        line.append("present");
        line.append(" on ");
        line.append(host);
    }
    line.append(")");
    Some(line)
}

/// A file is the same on two sides exactly where both have it with the same
/// bytes, or neither has it.
pub proof fn law_content_is_the_same_byte_for_byte(a: Seq<u8>, b: Seq<u8>)
    ensures
        same_content(Some(a), Some(b)) <==> a.len() == b.len() && forall|i: int|
            0 <= i < a.len() ==> a[i] == b[i],
        !same_content(Some(a), None),
        !same_content(None, Some(a)),
        same_content(None, None),
{
    if a.len() == b.len() && forall|i: int| 0 <= i < a.len() ==> a[i] == b[i] {
        assert(a =~= b);
    }
}

/// Something is said of where a file is exactly where a side does not have it.
pub proof fn law_a_missing_file_is_told_of(on_alpha: bool, on_beta: bool, host: Seq<char>)
    ensures
        presence_text(on_alpha, on_beta, host) is None <==> on_alpha && on_beta,
{
}

/// An executable is in a bundle exactly where the last two directories above it
/// are those that a bundle has.
pub proof fn law_a_bundle_has_its_directories(above: Seq<char>, name: Seq<char>)
    requires
        name.len() > 0,
        !name.contains('/'),
        name != seq!['.'],
    ensures
        in_bundle(above + seq!['/'] + "Contents"@ + seq!['/'] + "MacOS"@),
        name != "MacOS"@ ==> !in_bundle(above + seq!['/'] + name),
        name != "Contents"@ ==> !in_bundle(above + seq!['/'] + name + seq!['/'] + "MacOS"@),
{
    reveal_strlit("Contents");
    reveal_strlit("MacOS");
    let outer = above + seq!['/'] + "Contents"@;
    crate::command::select::law_a_name_is_a_step(above, "Contents"@);
    crate::command::select::law_a_name_is_a_step(outer, "MacOS"@);
    crate::command::select::law_a_name_is_a_step(above, name);
    crate::command::select::law_a_name_is_a_step(above + seq!['/'] + name, "MacOS"@);
}

/// Supervision ends for good where no other configuration waits. One that is
/// accepted is switched to, and says itself whether it takes up edits; one that
/// is not leaves the present one in place.
pub proof fn law_only_an_accepted_configuration_is_switched_to(accepted: bool, reload: bool)
    ensures
        following(None) == AfterSupervision::Stop,
        following(Some((true, reload))) == (AfterSupervision::Switch { reload }),
        following(Some((false, reload))) == AfterSupervision::Resume,
{
}

/// A machine follows as a peer only where it is one and no configuration is
/// named. It then reads no configuration first, leads as well where it has one
/// of its own, and shows its sessions as a peer's where it has none.
pub proof fn law_a_named_configuration_makes_no_peer(named: bool, is_peer: bool, has_config: bool)
    ensures
        named || !is_peer ==> {
            &&& start_of(named, is_peer, has_config) == WatchStart::Configured
            &&& config_checked(named, is_peer)
            &&& !peer_shown(named, is_peer, has_config)
        },
        !named && is_peer ==> {
            &&& start_of(named, is_peer, true) == WatchStart::Both
            &&& start_of(named, is_peer, false) == WatchStart::Peer
            &&& !config_checked(named, is_peer)
            &&& peer_shown(named, is_peer, has_config) == !has_config
        },
{
}

/// The program ends with nothing where nothing failed, with two where what
/// failed is something left for someone, and with one otherwise.
pub proof fn law_how_the_program_ends(unsettled: bool)
    ensures
        ending(false, unsettled) == 0,
        ending(true, true) == 2,
        ending(true, false) == 1,
{
}

/// One session that asks for peering is enough to lead.
pub proof fn law_one_session_is_enough_to_lead(peering: Seq<bool>, other: bool)
    ensures
        asks_for_peers(peering.push(other)) <==> asks_for_peers(peering) || other,
        !asks_for_peers(Seq::empty()),
{
    if asks_for_peers(peering) {
        let i = choose|i: int| 0 <= i < peering.len() && peering[i] == true;
        assert(peering.push(other)[i]);
    }
    if other {
        assert(peering.push(other)[peering.len() as int]);
    }
    if asks_for_peers(peering.push(other)) && !other {
        let i = choose|i: int|
            0 <= i < peering.push(other).len() && peering.push(other)[i] == true;
        assert(peering[i]);
    }
}

/// A configuration that is there is written over only where that is asked for,
/// and a display is repainted only on a terminal that is not being logged to.
pub proof fn law_nothing_is_written_over_unasked(there: bool, asked: bool)
    ensures
        writable(false, asked),
        writable(true, asked) <==> asked,
        repainted(there, asked) <==> asked && !there,
        !repainted(there, false),
        !repainted(true, asked),
{
}

/// Two roots are synchronized as they are, none as configured, and one alone
/// is an error.
pub proof fn law_roots_come_in_pairs(alpha: bool, beta: bool)
    ensures
        form_of(true, true) == SyncForm::Roots,
        form_of(false, false) == SyncForm::Configured,
        alpha != beta ==> form_of(alpha, beta) == SyncForm::OneRoot,
{
}

/// Everything is logged where that was asked for, over what is configured.
pub proof fn law_what_was_asked_for_is_logged(configured: Option<Seq<char>>)
    ensures
        level_of(true, configured) == Some("debug"@),
        level_of(false, configured) == configured,
{
}

/// An argument makes it no application, nor does an executable outside a
/// bundle, or one whose place is not known.
pub proof fn law_an_argument_makes_it_no_application(parent: Seq<char>, place: Option<Seq<char>>)
    ensures
        !launched_bundled(true, place),
        !launched_bundled(false, None),
        launched_bundled(false, Some(parent)) <==> in_bundle(parent),
{
}

} // verus!
