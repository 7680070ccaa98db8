//! Peering: which supervisor leads, and what its followers keep.
//!
//! A lease says who leads, in which term, and until when that is to be
//! believed. A destination keeps the newest lease it has admitted and refuses
//! older ones, so a supervisor that has been replaced is fenced off.
use crate::clock::clock_millis;
use crate::command::select::text_option;
use crate::paths::{
    default_state_root, join_path, path_below, state_path, HomeError,
};
use crate::text::{
    chars_of, decimal, decimal_text, has_prefix, index_of, same_text, str_starts_with, string_of,
};
use vstd::prelude::*;
use vstd::slice::slice_subrange;

verus! {

/// Where peering keeps its files, below the state root.
pub const DIRECTORY: &'static str = "peering";

/// The lease's file.
pub const LEASE_FILE: &'static str = "lease.json";

/// What the supervisor with the configuration is called.
pub const ALPHA: &'static str = "alpha";

// ---------------------------------------------------------------------------
// Leases
// ---------------------------------------------------------------------------

/// Who leads.
#[derive(Debug)]
pub struct Lease {
    /// The leader.
    pub leader: String,
    /// Its term.
    pub term: u64,
    /// When the lease was renewed, in seconds.
    pub renewed_at: u64,
    /// For how long it holds, in seconds.
    pub ttl_seconds: u64,
}

/// Who leads.
#[verifier::ext_equal]
pub struct LeaseView {
    /// The leader.
    pub leader: Seq<char>,
    /// Its term.
    pub term: u64,
    /// When the lease was renewed, in seconds.
    pub renewed_at: u64,
    /// For how long it holds, in seconds.
    pub ttl_seconds: u64,
}

/// The last second at which a lease holds.
pub open spec fn holds_until(lease: LeaseView) -> u64 {
    if lease.renewed_at + lease.ttl_seconds > u64::MAX {
        u64::MAX
    } else {
        (lease.renewed_at + lease.ttl_seconds) as u64
    }
}

/// Whether a lease has run out.
pub open spec fn stale_at(lease: LeaseView, now: u64) -> bool {
    now > holds_until(lease)
}

/// For how long a lease has run out, in seconds.
pub open spec fn stale_seconds(lease: LeaseView, now: u64) -> int {
    if stale_at(lease, now) {
        now - holds_until(lease)
    } else {
        0
    }
}

/// Whether a held lease gives way to another: to one of a later term, and to
/// its own leader's in the same.
pub open spec fn admitted(held: LeaseView, incoming: LeaseView) -> bool {
    incoming.term > held.term || (incoming.term == held.term && incoming.leader == held.leader)
}

impl Lease {
    /// Who leads.
    pub open spec fn view(&self) -> LeaseView {
        LeaseView {
            leader: self.leader@,
            term: self.term,
            renewed_at: self.renewed_at,
            ttl_seconds: self.ttl_seconds,
        }
    }

    /// A lease renewed at `now`.
    pub fn new_at(leader: &str, term: u64, ttl_seconds: u64, now: u64) -> (r: Lease)
        ensures
            r.view() == (LeaseView { leader: leader@, term, renewed_at: now, ttl_seconds }),
    {
        Lease { leader: leader.to_owned(), term, renewed_at: now, ttl_seconds }
    }

    /// A lease renewed now.
    pub fn new(leader: &str, term: u64, ttl_seconds: u64) -> (r: Lease)
        ensures
            r.view() == (LeaseView {
                leader: leader@,
                term,
                renewed_at: r.renewed_at,
                ttl_seconds,
            }),
    {
        Lease::new_at(leader, term, ttl_seconds, now_seconds())
    }

    /// A copy of the lease.
    pub fn duplicate(&self) -> (r: Lease)
        ensures
            r.view() == self.view(),
    {
        Lease {
            leader: self.leader.clone(),
            term: self.term,
            renewed_at: self.renewed_at,
            ttl_seconds: self.ttl_seconds,
        }
    }

    /// Whether the lease has run out at `now`.
    pub fn is_stale_at(&self, now: u64) -> (r: bool)
        ensures
            r == stale_at(self.view(), now),
    {
        now > self.renewed_at.saturating_add(self.ttl_seconds)
    }

    /// For how long the lease has run out at `now`, in seconds.
    pub fn stale_for_at(&self, now: u64) -> (r: u64)
        ensures
            r == stale_seconds(self.view(), now),
    {
        now.saturating_sub(self.renewed_at.saturating_add(self.ttl_seconds))
    }

    /// Whether the lease gives way to another.
    pub fn admits(&self, incoming: &Lease) -> (r: bool)
        ensures
            r == admitted(self.view(), incoming.view()),
    {
        incoming.term > self.term || (incoming.term == self.term && same_text(
            incoming.leader.as_str(),
            self.leader.as_str(),
        ))
    }
}

/// The time, in seconds.
pub fn now_seconds() -> (r: u64)
    ensures
        r <= u64::MAX / 1000,
{
    clock_millis() / 1000
}

/// A lease never gives way to one of an earlier term, and in one term only to
/// its own leader's.
pub proof fn law_a_term_has_one_leader(held: LeaseView, incoming: LeaseView)
    requires
        admitted(held, incoming),
    ensures
        incoming.term >= held.term,
        incoming.term == held.term ==> incoming.leader == held.leader,
{
}

/// What a held lease gives way to, step by step, it gives way to at once.
pub proof fn law_admission_is_transitive(a: LeaseView, b: LeaseView, c: LeaseView)
    requires
        admitted(a, b),
        admitted(b, c),
    ensures
        admitted(a, c),
{
}

/// Once a later term is admitted, the leader of the earlier one is refused
/// unless it comes with a term later still.
pub proof fn law_a_replaced_leader_is_fenced(held: LeaseView, newer: LeaseView, back: LeaseView)
    requires
        admitted(held, newer),
        newer.term > held.term,
        back.leader != newer.leader,
    ensures
        admitted(newer, back) ==> back.term > newer.term,
        back.term == held.term ==> !admitted(newer, back),
{
}

/// A lease has run out exactly where it has done so for some time.
pub proof fn law_stale_is_stale_for_some_time(lease: LeaseView, now: u64)
    ensures
        stale_at(lease, now) <==> stale_seconds(lease, now) > 0,
{
}

/// What a destination answers to a lease.
#[derive(Debug)]
pub enum LeaseAnswer {
    /// It is the one held now.
    Accepted,
    /// It is not.
    Refused {
        /// The one that is held.
        current: Lease,
    },
}

/// What a destination holds for its leader.
#[derive(Debug)]
pub struct State {
    /// The lease.
    pub lease: Option<Lease>,
    /// The generation of what was agreed.
    pub generation: Option<u64>,
}

/// Whether a destination accepts a lease, given the one it holds.
pub open spec fn accepted(held: Option<LeaseView>, incoming: LeaseView) -> bool {
    held matches Some(lease) ==> admitted(lease, incoming)
}

/// What a destination answers to a lease: it is accepted where there is none,
/// or where the one held gives way to it.
pub fn answer(held: Option<&Lease>, incoming: &Lease) -> (r: LeaseAnswer)
    ensures
        r is Accepted <==> accepted(
            match held {
                Some(lease) => Some(lease.view()),
                None => None,
            },
            incoming.view(),
        ),
        match held {
            None => r is Accepted,
            Some(lease) => if admitted(lease.view(), incoming.view()) {
                r is Accepted
            } else {
                r matches LeaseAnswer::Refused { current } && current.view() == lease.view()
            },
        },
{
    match held {
        None => LeaseAnswer::Accepted,
        Some(lease) => if lease.admits(incoming) {
            LeaseAnswer::Accepted
        } else {
            LeaseAnswer::Refused { current: lease.duplicate() }
        },
    }
}

// ---------------------------------------------------------------------------
// Roles
// ---------------------------------------------------------------------------

/// The part a supervisor plays.
#[derive(Debug)]
pub enum Role {
    /// None: there is no peering.
    Off,
    /// It leads.
    Leader {
        /// Itself.
        leader: String,
        /// Its term.
        term: u64,
    },
    /// It follows.
    Follower {
        /// Who leads.
        leader: String,
        /// In which term.
        term: u64,
    },
}

impl Role {
    /// The word for the role.
    pub open spec fn text(&self) -> Seq<char> {
        match self {
            Role::Off => ""@,
            Role::Leader { .. } => "leader"@,
            Role::Follower { .. } => "follower"@,
        }
    }

    /// The word for the role.
    pub fn label(&self) -> (r: &'static str)
        ensures
            r@ == self.text(),
    {
        match self {
            Role::Off => "",
            Role::Leader { .. } => "leader",
            Role::Follower { .. } => "follower",
        }
    }

    /// The term of the role.
    pub fn term(&self) -> (r: u64)
        ensures
            r == (match self {
                Role::Off => 0,
                Role::Leader { term, .. } => *term,
                Role::Follower { term, .. } => *term,
            }),
    {
        match self {
            Role::Off => 0,
            Role::Leader { term, .. } => *term,
            Role::Follower { term, .. } => *term,
        }
    }
}

/// A lead that is held.
#[derive(Debug)]
pub struct Leadership {
    /// Who leads.
    pub leader: String,
    /// In which term.
    pub term: u64,
    /// For how long a lease holds, in seconds.
    pub ttl_seconds: u64,
}

impl Leadership {
    /// A lease for the lead, renewed now.
    pub fn lease(&self) -> (r: Lease)
        ensures
            r.view() == (LeaseView {
                leader: self.leader@,
                term: self.term,
                renewed_at: r.renewed_at,
                ttl_seconds: self.ttl_seconds,
            }),
    {
        Lease::new(self.leader.as_str(), self.term, self.ttl_seconds)
    }
}

/// A supervisor found another in its place.
#[derive(Debug)]
pub struct Fenced {
    /// The other's lease.
    pub current: Lease,
}

impl Fenced {
    /// What is said of it.
    pub fn message(&self) -> (r: String)
        ensures
            r@ == "fenced: "@ + self.current.leader@ + " at term "@ + decimal_text(
                self.current.term as nat,
            ) + " holds the lease on the beta; this supervisor stepped down"@,
    {
        let mut r = "fenced: ".to_owned();
        r.append(self.current.leader.as_str());
        r.append(" at term ");
        let term = decimal(self.current.term);
        r.append(term.as_str());
        r.append(" holds the lease on the beta; this supervisor stepped down");
        r
    }
}

/// How the supervisor with the configuration starts.
#[derive(Debug)]
pub enum AlphaStart {
    /// It leads.
    Lead {
        /// In which term.
        term: u64,
    },
    /// It follows.
    Follow {
        /// Whom.
        lease: Lease,
    },
}

/// The term in which the supervisor with the configuration leads, or `None`
/// where it follows.
pub open spec fn led_term(recorded: Option<LeaseView>) -> Option<u64> {
    match recorded {
        None => Some(1),
        Some(lease) => if lease.leader == ALPHA@ {
            Some(lease.term)
        } else {
            None
        },
    }
}

/// How the supervisor with the configuration starts, by the lease that was
/// recorded: it leads in the first term where there is none and in its own
/// term where it led, and follows another.
pub fn alpha_term(recorded: Option<&Lease>) -> (r: AlphaStart)
    ensures
        (match r {
            AlphaStart::Lead { term } => Some(term),
            AlphaStart::Follow { .. } => None,
        }) == led_term(
            match recorded {
                Some(lease) => Some(lease.view()),
                None => None,
            },
        ),
        match recorded {
            None => r == (AlphaStart::Lead { term: 1 }),
            Some(lease) => if lease.leader@ == ALPHA@ {
                r == (AlphaStart::Lead { term: lease.term })
            } else {
                r matches AlphaStart::Follow { lease: found } && found.view() == lease.view()
            },
        },
{
    match recorded {
        None => AlphaStart::Lead { term: 1 },
        Some(lease) => if same_text(lease.leader.as_str(), ALPHA) {
            AlphaStart::Lead { term: lease.term }
        } else {
            AlphaStart::Follow { lease: lease.duplicate() }
        },
    }
}

// ---------------------------------------------------------------------------
// Files
// ---------------------------------------------------------------------------

/// Where peering keeps its files: below the default state root, which
/// `AUTOBAHN_HOME` names, or the home.
pub fn directory(autobahn_home: Option<&str>, home: Option<&str>) -> (r: Result<String, HomeError>)
    ensures
        state_path(
            r,
            text_option(autobahn_home),
            text_option(home),
            |root: Seq<char>| path_below(root, DIRECTORY@),
        ),
{
    match default_state_root(autobahn_home, home) {
        Ok(root) => Ok(join_path(root.as_str(), DIRECTORY)),
        Err(error) => Err(error),
    }
}

/// Whether a file is one that a leader pushes: its configuration, the name of
/// the follower, or an ignore file by its own name.
pub open spec fn pushable(name: Seq<char>) -> bool {
    name == "config.toml"@ || name == "name"@ || (has_prefix(name, "ignores/"@) && ({
        let file = name.skip(8);
        file.len() > 0 && !file.contains('/') && file != "."@ && file != ".."@
    }))
}

/// Whether a file is one that a leader pushes.
pub fn is_pushable(name: &str) -> (r: bool)
    ensures
        r == pushable(name@),
{
    if same_text(name, "config.toml") || same_text(name, "name") {
        return true;
    }
    proof {
        reveal_strlit("ignores/");
    }
    if !str_starts_with(name, "ignores/") {
        return false;
    }
    let all = chars_of(name);
    let file = slice_subrange(all.as_slice(), 8, all.len());
    assert(file@ =~= name@.skip(8));
    let slash: usize = index_of(file, '/');
    proof {
        crate::text::lemma_first_index(file@, '/');
    }
    let text = string_of(file);
    file.len() > 0 && slash == file.len() && !same_text(text.as_str(), ".") && !same_text(
        text.as_str(),
        "..",
    )
}

/// Where a pushed file goes.
#[derive(Debug)]
pub struct PushedFile {
    /// Its place.
    pub path: String,
    /// The directory it is in.
    pub parent: String,
    /// Where it is written first.
    pub temporary: String,
}

/// A file that peering does not push.
#[derive(Debug)]
pub struct NotPushed {
    /// Its name.
    pub name: String,
}

/// What a file is called within its directory.
pub open spec fn pushed_name(name: Seq<char>) -> Seq<char> {
    if has_prefix(name, "ignores/"@) {
        name.skip(8)
    } else {
        name
    }
}

/// The directory a pushed file is in.
pub open spec fn pushed_parent(directory: Seq<char>, name: Seq<char>) -> Seq<char> {
    if has_prefix(name, "ignores/"@) {
        path_below(directory, "ignores"@)
    } else {
        directory
    }
}

/// Where a pushed file is written before it is moved to its place.
pub open spec fn pushed_temporary(directory: Seq<char>, name: Seq<char>, process: u32) -> Seq<char> {
    path_below(
        pushed_parent(directory, name),
        "."@ + pushed_name(name) + "."@ + decimal_text(process as nat) + ".tmp"@,
    )
}

/// Where a pushed file goes, and where it is written first: beside its place,
/// under a hidden name that holds the process. A file that is not one that a
/// leader pushes goes nowhere.
pub fn write_pushed_file(directory: &str, name: &str, process: u32) -> (r: Result<
    PushedFile,
    NotPushed,
>)
    ensures
        if pushable(name@) {
            r matches Ok(file) && file.path@ == path_below(directory@, name@) && file.parent@
                == pushed_parent(directory@, name@) && file.temporary@ == pushed_temporary(
                directory@,
                name@,
                process,
            )
        } else {
            r matches Err(refused) && refused.name@ == name@
        },
{
    if !is_pushable(name) {
        return Err(NotPushed { name: name.to_owned() });
    }
    proof {
        reveal_strlit("ignores/");
    }
    let (parent, file): (String, String) = if str_starts_with(name, "ignores/") {
        let all = chars_of(name);
        let file = slice_subrange(all.as_slice(), 8, all.len());
        assert(file@ =~= name@.skip(8));
        (join_path(directory, "ignores"), string_of(file))
    } else {
        (directory.to_owned(), name.to_owned())
    };
    let mut hidden = ".".to_owned();
    hidden.append(file.as_str());
    hidden.append(".");
    let number = decimal(process as u64);
    hidden.append(number.as_str());
    hidden.append(".tmp");
    let temporary = join_path(parent.as_str(), hidden.as_str());
    Ok(PushedFile { path: join_path(directory, name), parent, temporary })
}

/// What a leader may push stays in peering's directory: it names no directory
/// above it, and none below but the one for ignore files.
pub proof fn law_pushed_files_stay_inside(name: Seq<char>)
    requires
        pushable(name),
    ensures
        pushed_name(name).len() > 0,
        !pushed_name(name).contains('/'),
        pushed_name(name) != "."@,
        pushed_name(name) != ".."@,
{
    reveal_strlit("config.toml");
    reveal_strlit("name");
    reveal_strlit("ignores/");
    reveal_strlit(".");
    reveal_strlit("..");
    if name == "config.toml"@ {
        assert(name.take(8)[0] == 'c');
    } else if name == "name"@ {
        assert(name.len() < 8);
    }
}

/// Where a file that a leader pushed is read from.
pub fn pushed_path(directory: &str, name: &str) -> (r: String)
    ensures
        r@ == path_below(directory@, name@),
{
    join_path(directory, name)
}

/// Where the lease is.
pub fn lease_path(directory: &str) -> (r: String)
    ensures
        r@ == path_below(directory@, LEASE_FILE@),
{
    join_path(directory, LEASE_FILE)
}

proof fn lemma_below_apart(directory: Seq<char>, one: Seq<char>, other: Seq<char>)
    requires
        one.len() > 0,
        other.len() > 0,
        one[0] != '/',
        other[0] != '/',
        path_below(directory, one) == path_below(directory, other),
    ensures
        one == other,
{
    reveal_strlit("/");
    let base = if directory.len() == 0 || crate::text::has_suffix(directory, "/"@) {
        directory
    } else {
        directory + "/"@
    };
    assert(one.take(1)[0] != "/"@[0]);
    assert(other.take(1)[0] != "/"@[0]);
    let (a, b) = (base + one, base + other);
    assert(a == b);
    assert(one =~= a.skip(base.len() as int));
    assert(other =~= b.skip(base.len() as int));
}

/// What is stored under each path once a file was pushed: it was written
/// beside its place and moved there. A file that a leader does not push is not
/// written at all.
pub open spec fn after_push(
    disk: Map<Seq<char>, Seq<u8>>,
    directory: Seq<char>,
    name: Seq<char>,
    process: u32,
    bytes: Seq<u8>,
) -> Map<Seq<char>, Seq<u8>> {
    if pushable(name) {
        disk.remove(pushed_temporary(directory, name, process)).insert(
            path_below(directory, name),
            bytes,
        )
    } else {
        disk
    }
}

/// A pushed file reads back as it was pushed, and neither the lease nor
/// another file that a leader pushed changes, unless the other has the name of
/// the temporary. A push that is refused changes nothing.
pub proof fn law_a_pushed_file_reads_back(
    disk: Map<Seq<char>, Seq<u8>>,
    directory: Seq<char>,
    name: Seq<char>,
    process: u32,
    bytes: Seq<u8>,
    other: Seq<char>,
)
    requires
        pushable(other) || other == LEASE_FILE@,
        other != name ==> path_below(directory, other) != pushed_temporary(
            directory,
            name,
            process,
        ),
    ensures
        ({
            let written = after_push(disk, directory, name, process, bytes);
            let place = path_below(directory, other);
            if other == name && pushable(name) {
                written.contains_key(place) && written[place] == bytes
            } else {
                &&& written.contains_key(place) == disk.contains_key(place)
                &&& disk.contains_key(place) ==> written[place] == disk[place]
            }
        }),
{
    if pushable(name) {
        reveal_strlit("config.toml");
        reveal_strlit("name");
        reveal_strlit("ignores/");
        reveal_strlit("lease.json");
        assert(!pushable(LEASE_FILE@)) by {
            assert(LEASE_FILE@.take(8)[0] == 'l');
            assert(LEASE_FILE@[0] == 'l');
        }
        if has_prefix(name, "ignores/"@) {
            assert(name[0] == name.take(8)[0]);
        }
        if has_prefix(other, "ignores/"@) {
            assert(other[0] == other.take(8)[0]);
        }
        if other != name && path_below(directory, name) == path_below(directory, other) {
            lemma_below_apart(directory, name, other);
        }
    }
}

/// Where the copy of what a session agreed on is.
pub fn ancestor_copy_path(directory: &str, session: &str) -> (r: String)
    ensures
        r@ == path_below(
            path_below(path_below(directory@, "ancestors"@), session@),
            "ancestor"@,
        ),
{
    let below = join_path(directory, "ancestors");
    let below = join_path(below.as_str(), session);
    join_path(below.as_str(), "ancestor")
}

/// Whether a generation follows another.
pub open spec fn follows_on(current: u64, generation: u64) -> bool {
    current + 1 == generation
}

/// Whether a copy at a generation takes a record of another: only of the one
/// that follows.
pub fn takes_record(current: u64, generation: u64) -> (r: bool)
    ensures
        r == follows_on(current, generation),
{
    generation > 0 && generation - 1 == current
}

// ---------------------------------------------------------------------------
// Laws
// ---------------------------------------------------------------------------

/// A lease holds for its time from when it was renewed, and is stale from then
/// on, by as much as that is past.
pub proof fn law_a_lease_is_stale_once_its_time_is_over(lease: LeaseView, now: u64)
    ensures
        stale_at(lease, now) <==> now > lease.renewed_at + lease.ttl_seconds,
        now > lease.renewed_at + lease.ttl_seconds ==> stale_seconds(lease, now) == now - (
        lease.renewed_at + lease.ttl_seconds),
        now <= lease.renewed_at + lease.ttl_seconds ==> stale_seconds(lease, now) == 0,
{
}

/// A destination accepts a lease of a later term from anyone, one of the term
/// it holds from its leader alone, and one of an earlier term from no one.
/// Where it holds none, it accepts any.
pub proof fn law_a_later_term_is_accepted(held: LeaseView, incoming: LeaseView)
    ensures
        accepted(None, incoming),
        incoming.term > held.term ==> accepted(Some(held), incoming),
        incoming.term < held.term ==> !accepted(Some(held), incoming),
        incoming.term == held.term ==> (accepted(Some(held), incoming) <==> incoming.leader
            == held.leader),
{
}

/// The supervisor with the configuration leads where no lease was recorded, in
/// the first term, and where it was the leader itself, in that term; it
/// follows anyone else.
pub proof fn law_the_controller_leads_unless_another_does(lease: LeaseView)
    ensures
        led_term(None) == Some(1u64),
        lease.leader == "alpha"@ ==> led_term(Some(lease)) == Some(lease.term),
        lease.leader != "alpha"@ ==> led_term(Some(lease)) is None,
{
}

/// What may be pushed: the configuration, the peer's name, and files of the
/// directory of ignore files by their plain name; nothing in another
/// directory, and nothing deeper or further up.
pub proof fn law_only_known_files_are_pushed(file: Seq<char>, name: Seq<char>)
    ensures
        pushable("config.toml"@),
        pushable("name"@),
        file.len() > 0 && !file.contains('/') && file != "."@ && file != ".."@ ==> pushable(
            "ignores/"@ + file,
        ),
        file.len() == 0 || file.contains('/') || file == "."@ || file == ".."@ ==> !pushable(
            "ignores/"@ + file,
        ),
        !has_prefix(name, "ignores/"@) && name != "config.toml"@ && name != "name"@ ==> !pushable(
            name,
        ),
{
    reveal_strlit("ignores/");
    reveal_strlit("config.toml");
    reveal_strlit("name");
    let whole = "ignores/"@ + file;
    assert(whole.take(8) =~= "ignores/"@);
    assert(whole.skip(8) =~= file);
    assert(whole[0] == 'i' && "config.toml"@[0] == 'c' && "name"@[0] == 'n');
}

/// A copy takes the records of its machine in turn: none twice, none early,
/// and of each generation at most the one behind it.
pub proof fn law_records_are_taken_in_turn(current: u64, generation: u64, other: u64)
    ensures
        follows_on(current, generation) ==> current < generation && !follows_on(
            generation,
            generation,
        ) && !follows_on(generation, current),
        follows_on(current, generation) && follows_on(current, other) ==> generation == other,
        current < u64::MAX ==> follows_on(current, (current + 1) as u64),
{
}

} // verus!
