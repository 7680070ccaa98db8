//! What the controller and an agent say to each other.
use crate::digest::Digest;
use crate::peering::{Lease, LeaseAnswer, State};
use crate::rsync::Op;
use crate::scan::SymlinkMode;
use crate::text::{chars_of, same_text};
use vstd::prelude::*;

verus! {

/// What a handshake begins with.
pub const MAGIC: u32 = 0x41424E31;

/// The largest frame that is sent.
pub const MAXIMUM_FRAME_SIZE: u32 = 67108864;

/// What has to be the same on both sides for them to understand each other.
pub const COMPATIBILITY_EPOCH: u32 = 15;

/// The release, and what it can be spoken to by.
pub const VERSION: &'static str = "0.1.0+e15";

/// The first thing either side says.
#[derive(Debug)]
pub struct Handshake {
    /// Marks the protocol.
    pub magic: u32,
    /// The release.
    pub version: String,
}

/// What opens a session on an agent.
#[derive(Debug)]
pub struct Initialize {
    /// The root to synchronize.
    pub root: String,
    /// What tells the session from others.
    pub session: String,
    /// What is left out.
    pub ignores: Vec<String>,
    /// What becomes of symbolic links.
    pub symlink_mode: SymlinkMode,
    /// The permissions of new files.
    pub file_mode: Option<u32>,
    /// The permissions of new directories.
    pub directory_mode: Option<u32>,
    /// Which side of the session this is.
    pub side: String,
    /// The largest file that is synchronized.
    pub max_file_size: Option<u64>,
    /// The most entries that are synchronized.
    pub max_entry_count: Option<u64>,
    /// Whether other filesystems are left out.
    pub ignore_mounts: bool,
    /// Who owns what is created.
    pub default_owner: Option<String>,
    /// Which group does.
    pub default_group: Option<String>,
    /// Whether the session ends after one cycle.
    pub one_shot: bool,
}

/// Why a session is not opened.
#[derive(Debug)]
pub enum InitializeError {
    /// The identifier is none.
    Session {
        /// The identifier.
        session: String,
    },
    /// The side is none.
    Side {
        /// The side.
        side: String,
    },
}

/// Whether a character is a hexadecimal digit in lower case.
pub open spec fn lower_hex(c: char) -> bool {
    '0' <= c <= '9' || 'a' <= c <= 'f'
}

/// Whether a text identifies a session: as many digits as one has, and
/// nothing that a path could be made of.
pub open spec fn session_identifier(value: Seq<char>) -> bool {
    value.len() == 32 && forall|i: int| 0 <= i < value.len() ==> lower_hex(#[trigger] value[i])
}

/// Whether a text identifies a session.
pub fn is_session_identifier(value: &str) -> (r: bool)
    ensures
        r == session_identifier(value@),
{
    let all = chars_of(value);
    if all.len() != 32 {
        return false;
    }
    let mut i: usize = 0;
    while i < all.len()
        invariant
            i <= all@.len(),
            all@ == value@,
            all@.len() == 32,
            forall|k: int| 0 <= k < i ==> lower_hex(#[trigger] value@[k]),
        decreases all@.len() - i,
    {
        let c = all[i];
        if !(('0' <= c && c <= '9') || ('a' <= c && c <= 'f')) {
            assert(!lower_hex(value@[i as int]));
            return false;
        }
        i += 1;
    }
    true
}

impl Initialize {
    /// Whether the session and the side can be what they say: both become
    /// part of paths.
    pub fn validate(&self) -> (r: Result<(), InitializeError>)
        ensures
            if !session_identifier(self.session@) {
                r matches Err(InitializeError::Session { session }) && session@ == self.session@
            } else if self.side@ != "alpha"@ && self.side@ != "beta"@ {
                r matches Err(InitializeError::Side { side }) && side@ == self.side@
            } else {
                r is Ok
            },
    {
        if !is_session_identifier(self.session.as_str()) {
            return Err(InitializeError::Session { session: self.session.clone() });
        }
        if !same_text(self.side.as_str(), "alpha") && !same_text(self.side.as_str(), "beta") {
            return Err(InitializeError::Side { side: self.side.clone() });
        }
        Ok(())
    }
}

/// An identifier holds no separator and is no name for a directory above.
pub proof fn law_an_identifier_is_one_name(value: Seq<char>)
    requires
        session_identifier(value),
    ensures
        !value.contains('/'),
        value != "."@,
        value != ".."@,
{
    reveal_strlit(".");
    reveal_strlit("..");
    if value.contains('/') {
        let k = choose|k: int| 0 <= k < value.len() && value[k] == '/';
        assert(lower_hex(value[k]));
    }
}

/// Values of the endpoints, as they were encoded.
pub type Encoded = Vec<u8>;

/// What the controller asks of an agent.
#[derive(Debug)]
pub enum Request {
    /// A scan.
    Scan,
    /// A scan that reads every file.
    ScanVerified,
    /// Which of some files have to be moved.
    StageBegin(Vec<Encoded>),
    /// The supply of what has to be moved.
    SupplyOpen(Vec<Encoded>),
    /// The next of the supply, up to so many bytes.
    SupplyPull(usize),
    /// Takes what was supplied.
    StagePush(Vec<Encoded>),
    /// Makes changes.
    Transition(Vec<Encoded>),
    /// Waits for a change.
    AwaitChanges {
        /// For how long.
        milliseconds: u64,
        /// Since which generation.
        since: Option<u64>,
    },
    /// The next of a scan.
    ScanPull,
    /// A scan in full.
    ScanFull,
    /// A file's content.
    ReadFile(String),
    /// Another name for an entry.
    Rename(String, String),
    /// Takes a lease.
    Lease(Lease),
    /// Takes what was agreed, as changes.
    AncestorRecord {
        /// The generation they lead to.
        generation: u64,
        /// The changes.
        changes: Vec<Encoded>,
    },
    /// Takes what was agreed, in full.
    AncestorCheckpoint {
        /// Its generation.
        generation: u64,
        /// The tree, if there is one.
        ancestor: Option<Encoded>,
    },
    /// Takes a file for peering.
    PutPeeringFile {
        /// Its name.
        name: String,
        /// Its content.
        bytes: Vec<u8>,
    },
    /// What is held for the leader.
    PeeringState,
}

/// How a scan differs from the last.
#[derive(Debug)]
pub struct ScanDelta {
    /// The last, if it is built on one.
    pub baseline: Option<Digest>,
    /// The scan.
    pub digest: Digest,
    /// Its length.
    pub length: u64,
    /// The size of blocks.
    pub block_size: u32,
    /// Its generation.
    pub generation: u64,
}

/// What an agent answers.
#[derive(Debug)]
pub enum Response {
    /// The session is open.
    Initialized,
    /// What has to be moved.
    StageBegin(Vec<Encoded>),
    /// The supply is open.
    SupplyOpened,
    /// The next of the supply.
    SupplyPull(Vec<Encoded>),
    /// What was supplied is taken.
    StagePushed,
    /// Changes were made.
    Transition {
        /// What came of them.
        outcome: Encoded,
        /// The generation after them.
        generation: u64,
    },
    /// The scan is as it was.
    ScanUnchanged {
        /// Its generation.
        generation: u64,
    },
    /// Waiting ended.
    AwaitChanges {
        /// Whether something changed.
        changed: bool,
        /// Whether changes are seen.
        watching: bool,
    },
    /// It failed.
    Error(String),
    /// The scan differs.
    ScanDelta(ScanDelta),
    /// The next of a scan.
    ScanOps(Vec<Op>),
    /// A file's content, if there is one.
    File(Option<Vec<u8>>),
    /// What was to be written is.
    Written,
    /// The answer to a lease.
    Lease(LeaseAnswer),
    /// What was agreed is recorded.
    Recorded {
        /// The generation that is held.
        generation: u64,
    },
    /// What is held for the leader.
    PeeringState(State),
    /// How far a scan is.
    ScanProgress {
        /// The entries so far.
        entries: u64,
        /// The bytes so far.
        bytes: u64,
    },
}

/// What the controller says on one of several channels.
#[derive(Debug)]
pub enum MuxRequest {
    /// Opens a channel.
    Open {
        /// The channel.
        channel: u32,
        /// What it is for.
        initialize: Initialize,
    },
    /// Asks something.
    Request {
        /// The channel.
        channel: u32,
        /// What is asked.
        request: Request,
    },
    /// Closes a channel.
    Close {
        /// The channel.
        channel: u32,
    },
    /// Ends it all.
    Shutdown,
}

/// What an agent says on one of several channels.
#[derive(Debug)]
pub enum MuxResponse {
    /// An answer.
    Response {
        /// The channel.
        channel: u32,
        /// What is answered.
        response: Response,
    },
    /// That a request is still worked on.
    Progress {
        /// The channel.
        channel: u32,
        /// How often that was said.
        counter: u64,
    },
}

/// Whether a character means nothing to a shell.
pub open spec fn shell_plain(c: char) -> bool {
    '0' <= c <= '9' || 'A' <= c <= 'Z' || 'a' <= c <= 'z' || c == '.' || c == '_' || c == '+' || c
        == '-'
}

/// The release, and what it can be spoken to by. It goes unquoted into
/// commands that a shell reads, and holds nothing that one would interpret.
pub fn version() -> (r: String)
    ensures
        r@ == VERSION@,
        r@.len() > 0,
        forall|i: int| 0 <= i < r@.len() ==> shell_plain(#[trigger] r@[i]),
{
    proof {
        reveal_strlit("0.1.0+e15");
    }
    VERSION.to_owned()
}

/// A session identifier is thirty-two characters, each a digit or a letter
/// from `a` to `f`.
pub proof fn law_an_identifier_is_thirty_two_digits(value: Seq<char>, i: int)
    ensures
        session_identifier(value) ==> value.len() == 32,
        session_identifier(value) && 0 <= i < 32 ==> "0123456789abcdef"@.contains(value[i]),
        value.len() == 32 && (forall|k: int|
            0 <= k < 32 ==> "0123456789abcdef"@.contains(#[trigger] value[k]))
            ==> session_identifier(value),
{
    reveal_strlit("0123456789abcdef");
    let digits = "0123456789abcdef"@;
    if session_identifier(value) && 0 <= i < 32 {
        let c = value[i];
        assert(lower_hex(c));
        let k = if c <= '9' {
            c as int - '0' as int
        } else {
            c as int - 'a' as int + 10
        };
        assert(0 <= k < 16);
        assert(digits[k] == c);
    }
    if value.len() == 32 && (forall|k: int|
        0 <= k < 32 ==> "0123456789abcdef"@.contains(#[trigger] value[k])) {
        assert forall|k: int| 0 <= k < value.len() implies lower_hex(#[trigger] value[k]) by {
            assert(digits.contains(value[k]));
            let j = choose|j: int| 0 <= j < digits.len() && digits[j] == value[k];
            assert(lower_hex(digits[j]));
        }
    }
}

/// What a shell gives no meaning to: digits, letters, and four marks.
pub proof fn law_some_characters_are_plain_to_a_shell(c: char)
    ensures
        shell_plain(c) <==> {
            let n = c as u32;
            ||| 0x30 <= n <= 0x39
            ||| 0x41 <= n <= 0x5a
            ||| 0x61 <= n <= 0x7a
            ||| c == '.' || c == '_' || c == '+' || c == '-'
        },
{
}

} // verus!
