//! What is said of a refusal.
use crate::command::blocked::FilterError;
use crate::command::issues::IssuesError;
use crate::command::resolution::ResolveRefusal;
use crate::command::resolve::{ChooseError, KeepError, ModeRefusal};
use crate::command::select::{PathError, SelectError};
use crate::paths::{HomeError, HOME_VARIABLE};
use crate::peering::NotPushed;
use crate::protocol::InitializeError;
use crate::root::RootError;
use crate::rsync::{PatchError, SignatureError};
use crate::scan::ignore::PatternError;
use crate::scan::ignorefile::LocateError;
use crate::scan::ScanError;
use crate::service::prepare::PrepareError;
use crate::service::{RegistrationError, ServiceError};
use crate::text::{
    debug_escaped, debug_text, debugged, decimal, decimal_text, escape_debug, join_strings, joined,
    strings,
};
use vstd::prelude::*;

verus! {

impl RootError {
    /// The words for it.
    pub open spec fn text(&self) -> Seq<char> {
        match self {
            RootError::BorrowedHome { owner } => "refusing to run as root with $HOME belonging to uid "@ + decimal_text(*owner as nat) + " (this is what `sudo` does): the files written would be root's, in that user's ~/.autobahn, and every later run as that user would fail on them. Run autobahn as that user instead"@,
            RootError::Controller => "refusing to run as root. Autobahn keeps one user's files in sync and runs the commands in that user's configuration; as root, a configuration anyone else can edit runs as root, and a scanner race becomes a way to write anywhere. Run it as the user whose files these are, or pass --allow-root (or set `advanced.allow_root = true`) if root is really meant"@,
            RootError::Agent => "the agent refuses to run as root unless the session sets default_owner or default_group: as root, the races a scanner accepts become a way to write anywhere. Connect as the user whose files these are, or set default_owner in the group's configuration if root is really meant"@,
        }
    }

    /// The words for it.
    pub fn message(&self) -> (r: String)
        ensures
            r@ == self.text(),
    {
        match self {
            RootError::BorrowedHome { owner } => {
                let mut r = "refusing to run as root with $HOME belonging to uid ".to_owned();
                let part1 = decimal(*owner as u64);
                r.append(part1.as_str());
                r.append(" (this is what `sudo` does): the files written would be root's, in that user's ~/.autobahn, and every later run as that user would fail on them. Run autobahn as that user instead");
                r
            },
            RootError::Controller => "refusing to run as root. Autobahn keeps one user's files in sync and runs the commands in that user's configuration; as root, a configuration anyone else can edit runs as root, and a scanner race becomes a way to write anywhere. Run it as the user whose files these are, or pass --allow-root (or set `advanced.allow_root = true`) if root is really meant".to_owned(),
            RootError::Agent => "the agent refuses to run as root unless the session sets default_owner or default_group: as root, the races a scanner accepts become a way to write anywhere. Connect as the user whose files these are, or set default_owner in the group's configuration if root is really meant".to_owned(),
        }
    }
}

impl InitializeError {
    /// The words for it.
    pub open spec fn text(&self) -> Seq<char> {
        match self {
            InitializeError::Session { session } => "refusing session identifier "@ + debugged(session@),
            InitializeError::Side { side } => "refusing side "@ + debugged(side@),
        }
    }

    /// The words for it.
    pub fn message(&self) -> (r: String)
        ensures
            r@ == self.text(),
    {
        match self {
            InitializeError::Session { session } => {
                let mut r = "refusing session identifier ".to_owned();
                let part1 = debug_text(session.as_str());
                r.append(part1.as_str());
                r
            },
            InitializeError::Side { side } => {
                let mut r = "refusing side ".to_owned();
                let part1 = debug_text(side.as_str());
                r.append(part1.as_str());
                r
            },
        }
    }
}

impl RegistrationError {
    /// The words for it.
    pub open spec fn text(&self) -> Seq<char> {
        match self {
            RegistrationError::Control { what, text } => what@ + " ("@ + debug_escaped(text@) + ") holds a newline or another control character, which a service definition cannot carry; refusing to write one"@,
            RegistrationError::Executable { executable } => "systemd refuses to run an executable whose path holds a quote or a backslash ("@ + executable@ + "); move autobahn elsewhere and install again"@,
        }
    }

    /// The words for it.
    pub fn message(&self) -> (r: String)
        ensures
            r@ == self.text(),
    {
        match self {
            RegistrationError::Control { what, text } => {
                let mut r = String::new();
                r.append(what.as_str());
                r.append(" (");
                let part1 = escape_debug(text.as_str());
                r.append(part1.as_str());
                r.append(") holds a newline or another control character, which a service definition cannot carry; refusing to write one");
                r
            },
            RegistrationError::Executable { executable } => {
                let mut r = "systemd refuses to run an executable whose path holds a quote or a backslash (".to_owned();
                r.append(executable.as_str());
                r.append("); move autobahn elsewhere and install again");
                r
            },
        }
    }
}

impl ServiceError {
    /// The words for it.
    pub open spec fn text(&self, remedy: bool) -> Seq<char> {
        match self {
            ServiceError::NotInstalled => {
                if remedy {
                    "no service is installed; run `autobahn install` to register one, or `autobahn watch` to run in this terminal"@
                } else {
                    "no service is installed"@
                }
            },
            ServiceError::Unsupported => "login services are supported on macOS (launchd) and Linux (systemd) only"@,
        }
    }

    /// The words for it.
    pub fn message(&self, remedy: bool) -> (r: String)
        ensures
            r@ == self.text(remedy),
    {
        match self {
            ServiceError::NotInstalled => {
                if remedy {
                    "no service is installed; run `autobahn install` to register one, or `autobahn watch` to run in this terminal".to_owned()
                } else {
                    "no service is installed".to_owned()
                }
            },
            ServiceError::Unsupported => "login services are supported on macOS (launchd) and Linux (systemd) only".to_owned(),
        }
    }
}

impl HomeError {
    /// The words for it.
    pub open spec fn text(&self, expanding: bool) -> Seq<char> {
        match self {
            HomeError::Unset => {
                if expanding {
                    "unable to expand ~ (HOME is not set)"@
                } else {
                    "HOME is not set"@
                }
            },
            HomeError::Relative { home } => {
                if expanding {
                    "unable to expand ~: HOME ("@ + debugged(home@) + ") is not an absolute path"@
                } else {
                    "HOME ("@ + debugged(home@) + ") is not an absolute path"@
                }
            },
            HomeError::RelativeOverride { directory } => HOME_VARIABLE@ + " ("@ + debugged(
                directory@,
            ) + ") is not an absolute path"@,
        }
    }

    /// The words for it.
    pub fn message(&self, expanding: bool) -> (r: String)
        ensures
            r@ == self.text(expanding),
    {
        match self {
            HomeError::Unset => {
                if expanding {
                    "unable to expand ~ (HOME is not set)".to_owned()
                } else {
                    "HOME is not set".to_owned()
                }
            },
            HomeError::Relative { home } => {
                if expanding {
                    let mut r = "unable to expand ~: HOME (".to_owned();
                    let part1 = debug_text(home.as_str());
                    r.append(part1.as_str());
                    r.append(") is not an absolute path");
                    r
                } else {
                    let mut r = "HOME (".to_owned();
                    let part1 = debug_text(home.as_str());
                    r.append(part1.as_str());
                    r.append(") is not an absolute path");
                    r
                }
            },
            HomeError::RelativeOverride { directory } => {
                let mut r = HOME_VARIABLE.to_owned();
                r.append(" (");
                let part1 = debug_text(directory.as_str());
                r.append(part1.as_str());
                r.append(") is not an absolute path");
                r
            },
        }
    }
}

impl LocateError {
    /// The words for it.
    pub open spec fn text(&self, directory: Seq<char>) -> Seq<char> {
        match self {
            LocateError::Empty => "an ignore file entry cannot be empty"@,
            LocateError::Unnamed { entry, available } => {
                if available@.len() == 0 {
                    "no ignore file named "@ + debugged(entry@) + " in "@ + directory + " (the directory is empty or absent)"@
                } else {
                    "no ignore file named "@ + debugged(entry@) + " in "@ + directory + " (available: "@ + joined(strings(available@), ", "@) + ")"@
                }
            },
            LocateError::Unexpandable { entry } => "invalid ignore file path "@ + debugged(entry@),
            LocateError::Relative { entry } => "ignore file path "@ + debugged(entry@) + " is relative; give an absolute path (or one starting with ~/), because the supervisor's working directory is not the one this was written in"@,
            LocateError::Missing { path } => "no ignore file at "@ + path@,
        }
    }

    /// The words for it.
    pub fn message(&self, directory: &str) -> (r: String)
        ensures
            r@ == self.text(directory@),
    {
        match self {
            LocateError::Empty => "an ignore file entry cannot be empty".to_owned(),
            LocateError::Unnamed { entry, available } => {
                if available.len() == 0 {
                    let mut r = "no ignore file named ".to_owned();
                    let part1 = debug_text(entry.as_str());
                    r.append(part1.as_str());
                    r.append(" in ");
                    r.append(directory);
                    r.append(" (the directory is empty or absent)");
                    r
                } else {
                    let mut r = "no ignore file named ".to_owned();
                    let part1 = debug_text(entry.as_str());
                    r.append(part1.as_str());
                    r.append(" in ");
                    r.append(directory);
                    r.append(" (available: ");
                    let part2 = join_strings(available.as_slice(), ", ");
                    r.append(part2.as_str());
                    r.append(")");
                    r
                }
            },
            LocateError::Unexpandable { entry } => {
                let mut r = "invalid ignore file path ".to_owned();
                let part1 = debug_text(entry.as_str());
                r.append(part1.as_str());
                r
            },
            LocateError::Relative { entry } => {
                let mut r = "ignore file path ".to_owned();
                let part1 = debug_text(entry.as_str());
                r.append(part1.as_str());
                r.append(" is relative; give an absolute path (or one starting with ~/), because the supervisor's working directory is not the one this was written in");
                r
            },
            LocateError::Missing { path } => {
                let mut r = "no ignore file at ".to_owned();
                r.append(path.as_str());
                r
            },
        }
    }
}

impl PatternError {
    /// The words for it.
    pub open spec fn text(&self) -> Seq<char> {
        match self {
            PatternError::NoContent { pattern } => "invalid ignore pattern "@ + debugged(pattern@) + ": pattern has no content"@,
            PatternError::TooLarge { pattern } => "invalid ignore pattern "@ + debugged(pattern@) + ": it is too long or too deeply nested"@,
            PatternError::Invalid { pattern, cause } => "invalid ignore pattern "@ + debugged(pattern@) + ": "@ + cause@,
        }
    }

    /// The words for it.
    pub fn message(&self) -> (r: String)
        ensures
            r@ == self.text(),
    {
        match self {
            PatternError::NoContent { pattern } => {
                let mut r = "invalid ignore pattern ".to_owned();
                let part1 = debug_text(pattern.as_str());
                r.append(part1.as_str());
                r.append(": pattern has no content");
                r
            },
            PatternError::TooLarge { pattern } => {
                let mut r = "invalid ignore pattern ".to_owned();
                let part1 = debug_text(pattern.as_str());
                r.append(part1.as_str());
                r.append(": it is too long or too deeply nested");
                r
            },
            PatternError::Invalid { pattern, cause } => {
                let mut r = "invalid ignore pattern ".to_owned();
                let part1 = debug_text(pattern.as_str());
                r.append(part1.as_str());
                r.append(": ");
                r.append(cause.as_str());
                r
            },
        }
    }
}

impl FilterError {
    /// The words for it.
    pub open spec fn text(&self) -> Seq<char> {
        match self {
            FilterError::TooLarge => "it is too long or too deeply nested"@,
            FilterError::Invalid { cause } => cause@,
        }
    }

    /// The words for it.
    pub fn message(&self) -> (r: String)
        ensures
            r@ == self.text(),
    {
        match self {
            FilterError::TooLarge => "it is too long or too deeply nested".to_owned(),
            FilterError::Invalid { cause } => cause.as_str().to_owned(),
        }
    }
}

impl ScanError {
    /// The words for it.
    pub open spec fn text(&self, root: Seq<char>) -> Seq<char> {
        match self {
            ScanError::Unprobed { message } => "unable to probe synchronization root "@ + root + ": "@ + message@,
            ScanError::NotADirectory => "synchronization root "@ + root + " is not a directory"@,
        }
    }

    /// The words for it.
    pub fn message(&self, root: &str) -> (r: String)
        ensures
            r@ == self.text(root@),
    {
        match self {
            ScanError::Unprobed { message } => {
                let mut r = "unable to probe synchronization root ".to_owned();
                r.append(root);
                r.append(": ");
                r.append(message.as_str());
                r
            },
            ScanError::NotADirectory => {
                let mut r = "synchronization root ".to_owned();
                r.append(root);
                r.append(" is not a directory");
                r
            },
        }
    }
}

impl SignatureError {
    /// The words for it.
    pub open spec fn text(&self) -> Seq<char> {
        match self {
            SignatureError::EmptyWithLastBlock { last_block_size } => "empty signature specifies a non-zero last block size ("@ + decimal_text(*last_block_size as nat) + ")"@,
            SignatureError::EmptyWithHashes { count } => "empty signature carries "@ + decimal_text(*count as nat) + " block hash(es)"@,
            SignatureError::BlockSizeOutOfRange { block_size } => "block size "@ + decimal_text(*block_size as nat) + " is outside 1024..=65536"@,
            SignatureError::InvalidLastBlockSize { last_block_size, block_size } => "invalid last block size ("@ + decimal_text(*last_block_size as nat) + ") for block size "@ + decimal_text(*block_size as nat),
            SignatureError::NoHashes => "non-empty signature carries no block hashes"@,
            SignatureError::TooManyHashes { count, base_length } => "signature carries "@ + decimal_text(*count as nat) + " block hashes for a base of "@ + decimal_text(*base_length as nat) + " bytes"@,
        }
    }

    /// The words for it.
    pub fn message(&self) -> (r: String)
        ensures
            r@ == self.text(),
    {
        match self {
            SignatureError::EmptyWithLastBlock { last_block_size } => {
                let mut r = "empty signature specifies a non-zero last block size (".to_owned();
                let part1 = decimal(*last_block_size as u64);
                r.append(part1.as_str());
                r.append(")");
                r
            },
            SignatureError::EmptyWithHashes { count } => {
                let mut r = "empty signature carries ".to_owned();
                let part1 = decimal(*count as u64);
                r.append(part1.as_str());
                r.append(" block hash(es)");
                r
            },
            SignatureError::BlockSizeOutOfRange { block_size } => {
                let mut r = "block size ".to_owned();
                let part1 = decimal(*block_size as u64);
                r.append(part1.as_str());
                r.append(" is outside 1024..=65536");
                r
            },
            SignatureError::InvalidLastBlockSize { last_block_size, block_size } => {
                let mut r = "invalid last block size (".to_owned();
                let part1 = decimal(*last_block_size as u64);
                r.append(part1.as_str());
                r.append(") for block size ");
                let part2 = decimal(*block_size as u64);
                r.append(part2.as_str());
                r
            },
            SignatureError::NoHashes => "non-empty signature carries no block hashes".to_owned(),
            SignatureError::TooManyHashes { count, base_length } => {
                let mut r = "signature carries ".to_owned();
                let part1 = decimal(*count as u64);
                r.append(part1.as_str());
                r.append(" block hashes for a base of ");
                let part2 = decimal(*base_length);
                r.append(part2.as_str());
                r.append(" bytes");
                r
            },
        }
    }
}

impl PatchError {
    /// The words for it.
    pub open spec fn text(&self) -> Seq<char> {
        match self {
            PatchError::InvalidSignature { .. } => "unable to patch against an invalid signature"@,
            PatchError::RangeOverflows { start, count } => "block operation range overflows ("@ + decimal_text(*start as nat) + " + "@ + decimal_text(*count as nat) + ")"@,
            PatchError::RangeExceedsBase { start, end, block_count } => "block operation range "@ + decimal_text(*start as nat) + ".."@ + decimal_text(*end as nat) + " exceeds base block count "@ + decimal_text(*block_count as nat),
            PatchError::BaseTooShort { index } => "unable to read base block "@ + decimal_text(*index as nat),
        }
    }

    /// The words for it.
    pub fn message(&self) -> (r: String)
        ensures
            r@ == self.text(),
    {
        match self {
            PatchError::InvalidSignature { .. } => "unable to patch against an invalid signature".to_owned(),
            PatchError::RangeOverflows { start, count } => {
                let mut r = "block operation range overflows (".to_owned();
                let part1 = decimal(*start);
                r.append(part1.as_str());
                r.append(" + ");
                let part2 = decimal(*count);
                r.append(part2.as_str());
                r.append(")");
                r
            },
            PatchError::RangeExceedsBase { start, end, block_count } => {
                let mut r = "block operation range ".to_owned();
                let part1 = decimal(*start);
                r.append(part1.as_str());
                r.append("..");
                let part2 = decimal(*end);
                r.append(part2.as_str());
                r.append(" exceeds base block count ");
                let part3 = decimal(*block_count);
                r.append(part3.as_str());
                r
            },
            PatchError::BaseTooShort { index } => {
                let mut r = "unable to read base block ".to_owned();
                let part1 = decimal(*index);
                r.append(part1.as_str());
                r
            },
        }
    }
}

impl NotPushed {
    /// The words for it.
    pub open spec fn text(&self) -> Seq<char> {
        debugged(self.name@) + " is not a file peering pushes"@
    }

    /// The words for it.
    pub fn message(&self) -> (r: String)
        ensures
            r@ == self.text(),
    {
        let mut r = String::new();
        let part1 = debug_text(self.name.as_str());
        r.append(part1.as_str());
        r.append(" is not a file peering pushes");
        r
    }
}

impl SelectError {
    /// The words for it.
    pub open spec fn text(&self) -> Seq<char> {
        match self {
            SelectError::NoDestination { host } => "no destination named "@ + debugged(host@) + " in the selected group (destinations are named as `autobahn status` shows them)"@,
            SelectError::NotSynchronized { folder } => "no configured group synchronizes "@ + folder@ + " (or anything containing it)"@,
            SelectError::NoSession { group, host } => "no configured session matches "@ + group@ + "@"@ + host@,
            SelectError::NoGroup { group } => "no configured group named '"@ + group@ + "'"@,
            SelectError::NoSessions => "the configuration describes no sessions"@,
        }
    }

    /// The words for it.
    pub fn message(&self) -> (r: String)
        ensures
            r@ == self.text(),
    {
        match self {
            SelectError::NoDestination { host } => {
                let mut r = "no destination named ".to_owned();
                let part1 = debug_text(host.as_str());
                r.append(part1.as_str());
                r.append(" in the selected group (destinations are named as `autobahn status` shows them)");
                r
            },
            SelectError::NotSynchronized { folder } => {
                let mut r = "no configured group synchronizes ".to_owned();
                r.append(folder.as_str());
                r.append(" (or anything containing it)");
                r
            },
            SelectError::NoSession { group, host } => {
                let mut r = "no configured session matches ".to_owned();
                r.append(group.as_str());
                r.append("@");
                r.append(host.as_str());
                r
            },
            SelectError::NoGroup { group } => {
                let mut r = "no configured group named '".to_owned();
                r.append(group.as_str());
                r.append("'");
                r
            },
            SelectError::NoSessions => "the configuration describes no sessions".to_owned(),
        }
    }
}

impl PathError {
    /// The words for it.
    pub open spec fn text(&self) -> Seq<char> {
        match self {
            PathError::Unnamed => "name the file: a root-relative path after the group, or a path to the file itself"@,
            PathError::Nested => "that path lies in more than one group, nested one inside another; name the group and give the path relative to its root"@,
        }
    }

    /// The words for it.
    pub fn message(&self) -> (r: String)
        ensures
            r@ == self.text(),
    {
        match self {
            PathError::Unnamed => "name the file: a root-relative path after the group, or a path to the file itself".to_owned(),
            PathError::Nested => "that path lies in more than one group, nested one inside another; name the group and give the path relative to its root".to_owned(),
        }
    }
}

impl IssuesError {
    /// The words for it.
    pub open spec fn text(&self) -> Seq<char> {
        match self {
            IssuesError::NoDepth => "--depth counts path segments, so it starts at 1"@,
            IssuesError::DepthWithJson => "--depth is a display option; with --json, group the paths yourself"@,
        }
    }

    /// The words for it.
    pub fn message(&self) -> (r: String)
        ensures
            r@ == self.text(),
    {
        match self {
            IssuesError::NoDepth => "--depth counts path segments, so it starts at 1".to_owned(),
            IssuesError::DepthWithJson => "--depth is a display option; with --json, group the paths yourself".to_owned(),
        }
    }
}

impl KeepError {
    /// The words for it.
    pub open spec fn text(&self, keep: Seq<char>, group: Seq<char>, hosts: Seq<Seq<char>>) -> Seq<char> {
        match self {
            KeepError::Unknown => "--keep "@ + debugged(keep) + " names no destination of group '"@ + group + "'; expected alpha, both, or one of: "@ + joined(hosts, ", "@),
            KeepError::Ambiguous => "--keep "@ + debugged(keep) + " is ambiguous; name the destination as host:path"@,
        }
    }

    /// The words for it.
    pub fn message(&self, keep: &str, group: &str, hosts: &[String]) -> (r: String)
        ensures
            r@ == self.text(keep@, group@, strings(hosts@)),
    {
        match self {
            KeepError::Unknown => {
                let mut r = "--keep ".to_owned();
                let part1 = debug_text(keep);
                r.append(part1.as_str());
                r.append(" names no destination of group '");
                r.append(group);
                r.append("'; expected alpha, both, or one of: ");
                let part2 = join_strings(hosts, ", ");
                r.append(part2.as_str());
                r
            },
            KeepError::Ambiguous => {
                let mut r = "--keep ".to_owned();
                let part1 = debug_text(keep);
                r.append(part1.as_str());
                r.append(" is ambiguous; name the destination as host:path");
                r
            },
        }
    }
}

impl ChooseError {
    /// The words for it.
    pub open spec fn text(&self) -> Seq<char> {
        match self {
            ChooseError::AllCannotKeepBoth => "--all cannot keep both: choose whose version wins"@,
        }
    }

    /// The words for it.
    pub fn message(&self) -> (r: String)
        ensures
            r@ == self.text(),
    {
        match self {
            ChooseError::AllCannotKeepBoth => "--all cannot keep both: choose whose version wins".to_owned(),
        }
    }
}

impl ModeRefusal {
    /// The words for it.
    pub open spec fn text(&self, keep: Seq<char>, mode: Seq<char>, host: Seq<char>) -> Seq<char> {
        match self {
            ModeRefusal::NeverCarried => "--keep "@ + keep + " cannot work in "@ + mode + ": that mode never carries "@ + host + "'s content to alpha, so removing alpha's copy would not make it win. Nothing was changed"@,
            ModeRefusal::AsideWouldGo { .. } => "--keep both cannot work in "@ + mode + ": "@ + host + " is made identical to alpha, so the copy moved aside there would be deleted. Nothing was changed"@,
        }
    }

    /// The words for it.
    pub fn message(&self, keep: &str, mode: &str, host: &str) -> (r: String)
        ensures
            r@ == self.text(keep@, mode@, host@),
    {
        match self {
            ModeRefusal::NeverCarried => {
                let mut r = "--keep ".to_owned();
                r.append(keep);
                r.append(" cannot work in ");
                r.append(mode);
                r.append(": that mode never carries ");
                r.append(host);
                r.append("'s content to alpha, so removing alpha's copy would not make it win. Nothing was changed");
                r
            },
            ModeRefusal::AsideWouldGo { .. } => {
                let mut r = "--keep both cannot work in ".to_owned();
                r.append(mode);
                r.append(": ");
                r.append(host);
                r.append(" is made identical to alpha, so the copy moved aside there would be deleted. Nothing was changed");
                r
            },
        }
    }
}

impl ResolveRefusal {
    /// The words for it.
    pub open spec fn text(
        &self,
        keep: Seq<char>,
        group: Seq<char>,
        hosts: Seq<Seq<char>>,
    ) -> Seq<char> {
        match self {
            ResolveRefusal::Groups => "resolve works within one group; the selector matched several"@,
            ResolveRefusal::Keep { error } => error.text(keep, group, hosts),
            ResolveRefusal::Path { error } => error.text(),
            ResolveRefusal::AllCannotKeepBoth => ChooseError::AllCannotKeepBoth.text(),
            ResolveRefusal::Root => "resolve settles a path inside the root, not the root itself; name the file or folder to settle"@,
            ResolveRefusal::Mode { refusal, mode, host } => refusal.text(keep, mode.text(), host@),
        }
    }

    /// The words for it.
    pub fn message(&self, keep: &str, group: &str, hosts: &[String]) -> (r: String)
        ensures
            r@ == self.text(keep@, group@, strings(hosts@)),
    {
        match self {
            ResolveRefusal::Groups => "resolve works within one group; the selector matched several".to_owned(),
            ResolveRefusal::Keep { error } => error.message(keep, group, hosts),
            ResolveRefusal::Path { error } => error.message(),
            ResolveRefusal::AllCannotKeepBoth => ChooseError::AllCannotKeepBoth.message(),
            ResolveRefusal::Root => "resolve settles a path inside the root, not the root itself; name the file or folder to settle".to_owned(),
            ResolveRefusal::Mode { refusal, mode, host } => refusal.message(
                keep,
                mode.name(),
                host.as_str(),
            ),
        }
    }
}

impl PrepareError {
    /// The words for it.
    pub open spec fn text(&self) -> Seq<char> {
        match self {
            PrepareError::Registration { error } => error.text(),
            PrepareError::Service { error } => error.text(false),
        }
    }

    /// The words for it.
    pub fn message(&self) -> (r: String)
        ensures
            r@ == self.text(),
    {
        match self {
            PrepareError::Registration { error } => error.message(),
            PrepareError::Service { error } => error.message(false),
        }
    }
}

} // verus!
