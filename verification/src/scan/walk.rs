//! The walk: what a directory holds, from what was seen of it on disk, from
//! the tree of an earlier scan, and from the paths reported since.
use crate::digest::{same_digest, Digest};
use crate::order::{before, lemma_slot_is, precedes, slot};
use crate::scan::dirty::{dirty_child, DirtyNode};
use crate::scan::ignore::{left_out_within, walked, IgnoreSet};
use crate::scan::names::{
    autobahn_temporary, target_fault, temporary, validate_portable_target,
};
use crate::scan::probes::{recompose, recomposed, FilesystemBehavior};
use crate::text::{
    decimal, decimal_text, has_prefix, same_text, str_starts_with, strings,
};
use crate::tree::{
    duplicate_all, entries, joined_path, lemma_directory_view, named, node_option, node_views,
    path_join, Content, ContentView, FileMetadata, Node, NodeView,
};
use vstd::prelude::*;

verus! {

/// How symbolic links are treated.
#[derive(Clone, Copy, Debug, PartialEq, Eq, Structural)]
pub enum SymlinkMode {
    /// They are left alone.
    Ignore,
    /// Those that any machine can follow are carried.
    Portable,
    /// All are carried as they are.
    Raw,
}

impl Default for SymlinkMode {
    fn default() -> (mode: SymlinkMode)
        ensures
            mode == SymlinkMode::Raw,
    {
        SymlinkMode::Raw
    }
}

/// What reading a file for its digest gave.
#[derive(Debug)]
pub enum Reading {
    /// The file changed, or was not the one that was listed.
    Changed,
    /// It could not be read.
    Failed {
        /// Why.
        message: String,
    },
    /// Its digest, and how many bytes were read for it.
    Read {
        /// The digest.
        digest: Digest,
        /// The number of bytes.
        bytes: u64,
    },
}

/// What reading a symbolic link gave.
#[derive(Debug)]
pub enum LinkReading {
    /// It could not be read.
    Failed {
        /// Why.
        message: String,
    },
    /// Its target is not text.
    NotUtf8,
    /// Its target.
    Target {
        /// The target.
        target: String,
    },
}

/// What listing a directory gave.
#[derive(Debug)]
pub enum Listing {
    /// It could not be listed.
    Failed {
        /// Why.
        message: String,
        /// The entries that were looked at by name all the same.
        seen: Vec<Observed>,
    },
    /// Its entries.
    Entries(Vec<Observed>),
}

/// What looking at an entry gave.
#[derive(Debug)]
pub enum Probe {
    /// Nothing is there.
    Missing,
    /// It could not be looked at.
    Failed {
        /// Why.
        message: String,
    },
    /// A directory.
    Directory {
        /// The device it is on.
        device: u64,
        /// Its inode.
        inode: u64,
        /// What listing it gave.
        listing: Listing,
    },
    /// A file.
    File {
        /// What its entry says.
        metadata: FileMetadata,
        /// What reading it gave.
        reading: Reading,
    },
    /// A symbolic link.
    Symlink {
        /// What reading it gave.
        reading: LinkReading,
    },
    /// Something else.
    Other,
}

/// An entry of a directory as it was seen.
#[derive(Debug)]
pub struct Observed {
    /// Its name, with a replacement character for what is not text.
    pub name: String,
    /// Whether the name is text as it stands.
    pub utf8: bool,
    /// What looking at it gave.
    pub probe: Probe,
}

/// How a root is scanned.
pub struct ScanOptions {
    /// The patterns.
    pub ignores: IgnoreSet,
    /// What the filesystem does.
    pub behavior: FilesystemBehavior,
    /// How symbolic links are treated.
    pub symlink_mode: SymlinkMode,
    /// Files larger than this are left alone.
    pub max_file_size: Option<u64>,
    /// When the earlier scan took its digests.
    pub baseline_scanned_at: Option<i64>,
    /// Whether every file is read, whatever the earlier scan recorded.
    pub rehash: bool,
    /// Whether what is mounted below the root is left alone.
    pub ignore_mounts: bool,
    /// Device and inode of the directories that hold autobahn's own state.
    pub state_roots: Vec<(u64, u64)>,
    /// How many levels below the root are walked.
    pub max_depth: usize,
}

/// How many levels below the root are walked, where nothing else is said.
pub const MAX_SCAN_DEPTH: usize = 4096;

/// How close to a scan a modification may lie before the digest taken for it
/// is not relied on.
pub const RACY_MTIME_MARGIN_SECONDS: i64 = 2;

/// The bits of a mode that say what an entry is.
pub const MODE_TYPE_MASK: u32 = 61440;

/// The bits of a mode that let a file be executed.
pub const MODE_EXECUTABLE_MASK: u32 = 73;

/// A place in the walk.
pub struct Place {
    /// The path below the root.
    pub path: Seq<char>,
    /// Whether it lies in an ignored region.
    pub within: bool,
    /// The device the directory is on.
    pub device: u64,
    /// How deep it is.
    pub depth: int,
    /// Whether what was not reported is taken over from the earlier scan.
    pub incremental: bool,
}

/// What a walk counts.
#[verifier::ext_equal]
pub struct Counts {
    /// Directories.
    pub directories: int,
    /// Files.
    pub files: int,
    /// Symbolic links.
    pub symlinks: int,
    /// The size of the files.
    pub size: int,
    /// The paths of directories on another device than the one they are in.
    pub mounts: Seq<Seq<char>>,
    /// The paths of files that changed without their entries showing it.
    pub silent: Seq<Seq<char>>,
}

/// Nothing counted.
pub open spec fn nothing() -> Counts {
    Counts {
        directories: 0,
        files: 0,
        symlinks: 0,
        size: 0,
        mounts: Seq::empty(),
        silent: Seq::empty(),
    }
}

/// What two walks count together.
pub open spec fn together(a: Counts, b: Counts) -> Counts {
    Counts {
        directories: a.directories + b.directories,
        files: a.files + b.files,
        symlinks: a.symlinks + b.symlinks,
        size: a.size + b.size,
        mounts: a.mounts + b.mounts,
        silent: a.silent + b.silent,
    }
}

/// What a walk finds.
pub struct Scanned {
    /// The content.
    pub content: ContentView,
    /// What was counted.
    pub counts: Counts,
}

/// What a walk finds in a directory.
pub struct Gathered {
    /// The entries, as they came.
    pub nodes: Seq<NodeView>,
    /// What was counted.
    pub counts: Counts,
}

/// A content with nothing to count.
pub open spec fn uncounted(content: ContentView) -> Scanned {
    Scanned { content, counts: nothing() }
}

/// Something that could not be scanned.
pub open spec fn problem(message: Seq<char>) -> ContentView {
    ContentView::Problematic { message }
}

/// The digest an earlier scan recorded for a file, where it can be relied on:
/// the file's entry still says what it said then, and the file was not
/// modified around the scan that read it, when a later write may have left no
/// trace. Where it is not known when that scan was, nothing is relied on.
pub open spec fn reusable(
    baseline: Option<NodeView>,
    fresh: FileMetadata,
    scanned_at: Option<i64>,
) -> Option<Seq<u8>> {
    let start: int = match scanned_at {
        Some(at) => at as int,
        None => 0,
    };
    let margin: int = if start - RACY_MTIME_MARGIN_SECONDS < i64::MIN {
        i64::MIN as int
    } else {
        start - RACY_MTIME_MARGIN_SECONDS
    };
    match baseline {
        Some(node) => match node.content {
            ContentView::File { digest, metadata, .. } => {
                if start != 0 && metadata.mtime_seconds < margin && metadata.mtime_seconds
                    == fresh.mtime_seconds && metadata.mtime_nanos == fresh.mtime_nanos
                    && metadata.size == fresh.size && metadata.inode == fresh.inode
                    && metadata.mode & MODE_TYPE_MASK == fresh.mode & MODE_TYPE_MASK {
                    Some(digest)
                } else {
                    None
                }
            },
            _ => None,
        },
        None => None,
    }
}

/// The digest an earlier scan recorded for a file, where it can be relied on.
pub fn reusable_digest(
    baseline: Option<&Node>,
    fresh: &FileMetadata,
    baseline_scanned_at: Option<i64>,
) -> (r: Option<Digest>)
    ensures
        match r {
            Some(digest) => reusable(node_option(baseline), *fresh, baseline_scanned_at) == Some(
                digest@,
            ),
            None => reusable(node_option(baseline), *fresh, baseline_scanned_at) is None,
        },
{
    let start: i64 = match baseline_scanned_at {
        Some(at) => at,
        None => 0,
    };
    let margin: i64 = if start < i64::MIN + RACY_MTIME_MARGIN_SECONDS {
        i64::MIN
    } else {
        start - RACY_MTIME_MARGIN_SECONDS
    };
    match baseline {
        Some(node) => match &node.content {
            Content::File { digest, metadata, .. } => {
                if start != 0 && metadata.mtime_seconds < margin && metadata.mtime_seconds
                    == fresh.mtime_seconds && metadata.mtime_nanos == fresh.mtime_nanos
                    && metadata.size == fresh.size && metadata.inode == fresh.inode
                    && metadata.mode & MODE_TYPE_MASK == fresh.mode & MODE_TYPE_MASK {
                    Some(*digest)
                } else {
                    None
                }
            },
            _ => None,
        },
        None => None,
    }
}

/// Whether a file read anew has other content than an earlier scan recorded,
/// though its entry says what it said then.
pub open spec fn changed_silently(
    baseline: Option<NodeView>,
    fresh: FileMetadata,
    digest: Seq<u8>,
) -> bool {
    match baseline {
        Some(node) => match node.content {
            ContentView::File { digest: recorded, metadata, .. } => metadata.mtime_seconds
                == fresh.mtime_seconds && metadata.mtime_nanos == fresh.mtime_nanos
                && metadata.size == fresh.size && metadata.inode == fresh.inode && recorded
                != digest,
            _ => false,
        },
        None => false,
    }
}

/// A file found: its digest, and what is counted for it.
pub open spec fn file_found(
    path: Seq<char>,
    metadata: FileMetadata,
    digest: Seq<u8>,
    silent: bool,
) -> Scanned {
    Scanned {
        content: ContentView::File {
            digest,
            executable: metadata.mode & MODE_EXECUTABLE_MASK != 0,
            metadata,
        },
        counts: Counts {
            directories: 0,
            files: 1,
            symlinks: 0,
            size: metadata.size as int,
            mounts: Seq::empty(),
            silent: if silent {
                seq![path]
            } else {
                Seq::empty()
            },
        },
    }
}

/// What a file is.
pub open spec fn file_scanned(
    o: ScanOptions,
    path: Seq<char>,
    metadata: FileMetadata,
    reading: Reading,
    baseline: Option<NodeView>,
) -> Scanned {
    let kept = if o.rehash {
        None
    } else {
        reusable(baseline, metadata, o.baseline_scanned_at)
    };
    if o.max_file_size matches Some(limit) && metadata.size > limit {
        uncounted(ContentView::Untracked)
    } else {
        match kept {
            Some(digest) => file_found(path, metadata, digest, false),
            None => match reading {
                Reading::Changed => uncounted(
                    problem("changed during scan; it will be read again"@),
                ),
                Reading::Failed { message } => uncounted(
                    problem("unable to read file: "@ + message@),
                ),
                Reading::Read { digest, .. } => file_found(
                    path,
                    metadata,
                    digest@,
                    o.rehash && changed_silently(baseline, metadata, digest@),
                ),
            },
        }
    }
}

/// What a symbolic link is.
pub open spec fn link_scanned(o: ScanOptions, path: Seq<char>, reading: LinkReading) -> Scanned {
    if o.symlink_mode == SymlinkMode::Ignore {
        uncounted(ContentView::Untracked)
    } else {
        match reading {
            LinkReading::Failed { message } => uncounted(
                problem("unable to read symbolic link: "@ + message@),
            ),
            LinkReading::NotUtf8 => uncounted(problem("non-UTF-8 symbolic link target"@)),
            LinkReading::Target { target } => {
                if target@.len() == 0 {
                    uncounted(problem("empty symbolic link target"@))
                } else if o.symlink_mode == SymlinkMode::Portable && target_fault(
                    path,
                    target@,
                ) is Some {
                    uncounted(
                        problem(
                            "symbolic link target is not portable: "@ + target_fault(
                                path,
                                target@,
                            )->0.text(),
                        ),
                    )
                } else {
                    Scanned {
                        content: ContentView::Symlink { target: target@ },
                        counts: Counts { symlinks: 1, ..nothing() },
                    }
                }
            },
        }
    }
}

/// What an entry is, or `None` where nothing is there any more. A directory
/// that holds autobahn's own state, and what the patterns leave out, is left
/// alone; so is what is mounted, where mounts are.
pub open spec fn probe_scanned(
    o: ScanOptions,
    probe: Probe,
    place: Place,
    baseline: Option<NodeView>,
    dirty: Option<DirtyNode>,
) -> Option<Scanned>
    decreases probe, 0int, 0int,
{
    match probe {
        Probe::Missing => None,
        Probe::Failed { message } => Some(
            uncounted(problem("unable to probe entry: "@ + message@)),
        ),
        Probe::Directory { device, inode, listing } => {
            if o.state_roots@.contains((device, inode)) {
                Some(uncounted(ContentView::Untracked))
            } else {
                match walked(o.ignores.view(), place.path, true, place.within) {
                    None => Some(uncounted(ContentView::Untracked)),
                    Some(region) => {
                        let mounted = device != place.device;
                        let mounts = if mounted {
                            Counts { mounts: seq![place.path], ..nothing() }
                        } else {
                            nothing()
                        };
                        if mounted && o.ignore_mounts {
                            Some(Scanned { content: ContentView::Untracked, counts: mounts })
                        } else {
                            let inner = listing_scanned(
                                o,
                                listing,
                                Place { within: region, device, depth: place.depth + 1, ..place },
                                baseline,
                                dirty,
                            );
                            Some(
                                Scanned {
                                    content: inner.content,
                                    counts: together(mounts, inner.counts),
                                },
                            )
                        }
                    },
                }
            }
        },
        Probe::File { metadata, reading } => {
            if walked(o.ignores.view(), place.path, false, place.within) is None {
                Some(uncounted(ContentView::Untracked))
            } else {
                Some(file_scanned(o, place.path, metadata, reading, baseline))
            }
        },
        Probe::Symlink { reading } => {
            if walked(o.ignores.view(), place.path, false, place.within) is None {
                Some(uncounted(ContentView::Untracked))
            } else {
                Some(link_scanned(o, place.path, reading))
            }
        },
        Probe::Other => Some(uncounted(ContentView::Untracked)),
    }
}

/// Whether a probe found a directory; `None` where it found nothing.
pub open spec fn probe_kind(probe: Probe) -> Option<bool> {
    match probe {
        Probe::Missing => None,
        Probe::Failed { .. } => None,
        Probe::Directory { .. } => Some(true),
        _ => Some(false),
    }
}

/// The name an entry is recorded under.
pub open spec fn recorded_name(o: ScanOptions, entry: Observed) -> Seq<char> {
    if !entry.utf8 {
        entry.name@ + " (non-UTF-8)"@
    } else if o.behavior.decomposes_unicode {
        recomposed(entry.name@)
    } else {
        entry.name@
    }
}

/// The words for a name that is reserved.
pub open spec fn reserved_text() -> Seq<char> {
    "the name prefix '.autobahn-tmp' is reserved for autobahn temporaries; rename the entry to synchronize it"@
}

/// What a listed entry is, or `None` where it is not recorded: a temporary of
/// autobahn's own, or something that is gone. In an incremental walk, what was
/// not reported is what the earlier scan recorded, unless that could not scan
/// it.
pub open spec fn entry_scanned(
    o: ScanOptions,
    entry: Observed,
    place: Place,
    baseline: Option<NodeView>,
    dirty: Option<DirtyNode>,
) -> Option<(NodeView, Counts)>
    decreases entry, 0int, 0int,
{
    let name = recorded_name(o, entry);
    let path = joined_path(place.path, name);
    let known = match baseline {
        Some(node) => named(entries(node.content), name),
        None => None,
    };
    let reported = match dirty {
        Some(node) => dirty_child(node, name),
        None => None,
    };
    if has_prefix(entry.name@, ".autobahn-tmp"@) {
        if temporary(entry.name@) {
            None
        } else {
            Some((NodeView { name: entry.name@, content: problem(reserved_text()) }, nothing()))
        }
    } else if place.incremental && reported is None && entry.utf8 && known is Some && !(
    known->0.content is Problematic) {
        Some((known->0, nothing()))
    } else if !entry.utf8 {
        let ignored = match probe_kind(entry.probe) {
            Some(is_directory) => left_out_within(
                o.ignores.view(),
                path,
                is_directory,
                place.within,
            ),
            None => false,
        };
        let content = if ignored {
            ContentView::Untracked
        } else {
            problem("non-UTF-8 filename"@)
        };
        Some((NodeView { name, content }, nothing()))
    } else {
        match probe_scanned(o, entry.probe, Place { path, ..place }, known, reported) {
            None => None,
            Some(found) => Some((NodeView { name, content: found.content }, found.counts)),
        }
    }
}

/// What the first `n` listed entries are.
pub open spec fn listed_scanned(
    o: ScanOptions,
    listing: Listing,
    n: int,
    place: Place,
    baseline: Option<NodeView>,
    dirty: Option<DirtyNode>,
) -> Gathered
    decreases listing, 1int, n,
{
    if n <= 0 || !(listing is Entries) || n > listing->Entries_0@.len() {
        Gathered { nodes: Seq::empty(), counts: nothing() }
    } else {
        let front = listed_scanned(o, listing, n - 1, place, baseline, dirty);
        let entry = listing->Entries_0@[n - 1];
        match entry_scanned(o, entry, place, baseline, dirty) {
            None => front,
            Some((node, counts)) => Gathered {
                nodes: front.nodes.push(node),
                counts: together(front.counts, counts),
            },
        }
    }
}

/// Where the entry with a name is among the first `n` listed: the first of
/// them, or `n` where there is none.
pub open spec fn entry_index(list: Seq<Observed>, name: Seq<char>, n: int) -> int
    decreases n,
{
    if n <= 0 {
        0
    } else if entry_index(list, name, n - 1) < n - 1 {
        entry_index(list, name, n - 1)
    } else if list[n - 1].utf8 && list[n - 1].name@ == name {
        n - 1
    } else {
        n
    }
}

/// The entries of a directory that were looked at.
pub open spec fn looked_at(listing: Listing) -> Seq<Observed> {
    match listing {
        Listing::Entries(list) => list@,
        Listing::Failed { seen, .. } => seen@,
    }
}

/// What was looked at in a directory is less than the directory.
pub proof fn lemma_looked_at(listing: Listing, i: int)
    requires
        0 <= i < looked_at(listing).len(),
    ensures
        decreases_to!(listing => looked_at(listing)[i]),
        decreases_to!(listing => looked_at(listing)[i].probe),
{
    match listing {
        Listing::Entries(list) => {
            assert(decreases_to!(listing => listing->Entries_0));
            assert(decreases_to!(listing->Entries_0 => listing->Entries_0@));
            assert(decreases_to!(list@ => list@[i]));
            assert(decreases_to!(list@[i] => list@[i].probe));
        },
        Listing::Failed { message, seen } => {
            assert(decreases_to!(listing => listing->seen));
            assert(decreases_to!(listing->seen => listing->seen@));
            assert(decreases_to!(seen@ => seen@[i]));
            assert(decreases_to!(seen@[i] => seen@[i].probe));
        },
    }
}

/// The entries of a directory that is not listed again: each as the earlier
/// scan recorded it, but those reported, which are looked at.
pub open spec fn refreshed(
    o: ScanOptions,
    listing: Listing,
    children: Seq<NodeView>,
    n: int,
    place: Place,
    dirty: DirtyNode,
) -> Gathered
    decreases listing, 1int, n,
{
    if n <= 0 || n > children.len() {
        Gathered { nodes: Seq::empty(), counts: nothing() }
    } else {
        let front = refreshed(o, listing, children, n - 1, place, dirty);
        let child = children[n - 1];
        match dirty_child(dirty, child.name) {
            None => Gathered { nodes: front.nodes.push(child), counts: front.counts },
            Some(reported) => {
                let at = Place { path: joined_path(place.path, child.name), ..place };
                let list = looked_at(listing);
                let i = entry_index(list, child.name, list.len() as int);
                if 0 <= i < list.len() {
                    proof {
                        lemma_looked_at(listing, i);
                    }
                    match probe_scanned(
                        o,
                        looked_at(listing)[i].probe,
                        at,
                        Some(child),
                        Some(reported),
                    ) {
                        None => front,
                        Some(found) => Gathered {
                            nodes: front.nodes.push(
                                NodeView { name: child.name, content: found.content },
                            ),
                            counts: together(front.counts, found.counts),
                        },
                    }
                } else {
                    front
                }
            },
        }
    }
}

/// A list of entries with one more in its place, instead of one of its name.
pub open spec fn with_node(list: Seq<NodeView>, node: NodeView) -> Seq<NodeView> {
    let i = slot(node_names(list), node.name);
    if i < list.len() && list[i].name == node.name {
        list.update(i, node)
    } else {
        list.insert(i, node)
    }
}

/// The names of entries.
pub open spec fn node_names(list: Seq<NodeView>) -> Seq<Seq<char>> {
    Seq::new(list.len(), |i: int| list[i].name)
}

/// Entries in the order of their names; of several with one name, the last.
pub open spec fn settled(list: Seq<NodeView>) -> Seq<NodeView>
    decreases list.len(),
{
    if list.len() == 0 {
        Seq::empty()
    } else {
        with_node(settled(list.drop_last()), list.last())
    }
}

/// One directory counted.
pub open spec fn one_directory() -> Counts {
    Counts { directories: 1, ..nothing() }
}

/// What a directory holds. Too deep, it is a problem. In an incremental walk,
/// one without a report is what the earlier scan recorded, and one that was
/// reported itself is walked as though there were no reports: it may be
/// another directory. Otherwise it is listed, unless only entries further
/// down were reported and the earlier scan knows its names.
pub open spec fn listing_scanned(
    o: ScanOptions,
    listing: Listing,
    place: Place,
    baseline: Option<NodeView>,
    dirty: Option<DirtyNode>,
) -> Scanned
    decreases
            listing,
            if place.incremental {
                3int
            } else {
                2int
            },
            0int,
{
    let known = baseline is Some && baseline->0.content is Directory;
    if place.depth > o.max_depth {
        uncounted(
            problem(
                "too deep: more than "@ + decimal_text(o.max_depth as nat)
                    + " levels below the root"@,
            ),
        )
    } else if place.incremental && dirty is None && known {
        uncounted(baseline->0.content)
    } else if place.incremental && dirty is Some && dirty->0.marked {
        listing_scanned(o, listing, Place { incremental: false, ..place }, baseline, None)
    } else if dirty is Some && !dirty->0.relist && !o.behavior.decomposes_unicode && known {
        let children = entries(baseline->0.content);
        let found = refreshed(o, listing, children, children.len() as int, place, dirty->0);
        Scanned {
            content: ContentView::Directory(found.nodes),
            counts: together(one_directory(), found.counts),
        }
    } else {
        match listing {
            Listing::Failed { message, .. } => uncounted(
                problem("unable to read directory: "@ + message@),
            ),
            Listing::Entries(list) => {
                let found = listed_scanned(
                    o,
                    listing,
                    list@.len() as int,
                    place,
                    baseline,
                    dirty,
                );
                Scanned {
                    content: ContentView::Directory(settled(found.nodes)),
                    counts: together(one_directory(), found.counts),
                }
            },
        }
    }
}

// ---------------------------------------------------------------------------
// Walking
// ---------------------------------------------------------------------------

/// A count as far as it fits.
pub open spec fn capped(n: int) -> int {
    if n > u64::MAX {
        u64::MAX as int
    } else {
        n
    }
}

/// What a walk has counted so far.
pub struct Tally {
    /// Directories.
    pub directories: u64,
    /// Files.
    pub files: u64,
    /// Symbolic links.
    pub symlinks: u64,
    /// The size of the files.
    pub total_file_size: u64,
    /// The paths of directories on another device than the one they are in.
    pub mount_points: Vec<String>,
    /// The paths of files that changed without their entries showing it.
    pub changed_silently: Vec<String>,
}

/// Whether a tally holds some counts.
pub open spec fn tallies(tally: Tally, counts: Counts) -> bool {
    &&& counts.directories >= 0
    &&& counts.files >= 0
    &&& counts.symlinks >= 0
    &&& counts.size >= 0
    &&& tally.directories == capped(counts.directories)
    &&& tally.files == capped(counts.files)
    &&& tally.symlinks == capped(counts.symlinks)
    &&& tally.total_file_size == capped(counts.size)
    &&& strings(tally.mount_points@) == counts.mounts
    &&& strings(tally.changed_silently@) == counts.silent
}

/// A tally that holds nothing.
pub fn empty_tally() -> (tally: Tally)
    ensures
        tallies(tally, nothing()),
{
    let tally = Tally {
        directories: 0,
        files: 0,
        symlinks: 0,
        total_file_size: 0,
        mount_points: Vec::new(),
        changed_silently: Vec::new(),
    };
    assert(strings(tally.mount_points@) =~= Seq::<Seq<char>>::empty());
    assert(strings(tally.changed_silently@) =~= Seq::<Seq<char>>::empty());
    tally
}

/// Adding nothing changes nothing.
proof fn lemma_nothing(c: Counts)
    ensures
        together(c, nothing()) == c,
        together(nothing(), c) == c,
{
    assert(together(c, nothing()) =~= c);
    assert(together(nothing(), c) =~= c);
}

/// Counts add up in any grouping.
proof fn lemma_together(a: Counts, b: Counts, c: Counts)
    ensures
        together(together(a, b), c) == together(a, together(b, c)),
{
    assert(together(together(a, b), c) =~= together(a, together(b, c)));
}

fn count_directory(tally: &mut Tally, Ghost(c): Ghost<Counts>)
    requires
        tallies(*old(tally), c),
    ensures
        tallies(*final(tally), together(c, one_directory())),
{
    tally.directories = tally.directories.saturating_add(1);
    proof {
        assert(c.mounts + Seq::<Seq<char>>::empty() =~= c.mounts);
        assert(c.silent + Seq::<Seq<char>>::empty() =~= c.silent);
    }
}

fn count_mount(tally: &mut Tally, path: &str, Ghost(c): Ghost<Counts>)
    requires
        tallies(*old(tally), c),
    ensures
        tallies(*final(tally), together(c, (Counts { mounts: seq![path@], ..nothing() }))),
{
    let ghost before = strings(tally.mount_points@);
    tally.mount_points.push(path.to_owned());
    proof {
        assert(strings(tally.mount_points@) =~= before + seq![path@]);
        assert(c.silent + Seq::<Seq<char>>::empty() =~= c.silent);
    }
}

/// What an entry could not be scanned for.
fn problematic(lead: &str, message: &str) -> (content: Content)
    ensures
        content.view() == problem(lead@ + message@),
{
    let mut text = lead.to_owned();
    text.append(message);
    Content::Problematic { message: text }
}

fn problem_only(message: &str) -> (content: Content)
    ensures
        content.view() == problem(message@),
{
    Content::Problematic { message: message.to_owned() }
}

/// What a file is.
fn scan_file(
    o: &ScanOptions,
    path: &str,
    metadata: &FileMetadata,
    reading: &Reading,
    baseline: Option<&Node>,
    tally: &mut Tally,
    Ghost(c): Ghost<Counts>,
) -> (content: Content)
    requires
        tallies(*old(tally), c),
    ensures
        content.view() == file_scanned(
            *o,
            path@,
            *metadata,
            *reading,
            node_option(baseline),
        ).content,
        tallies(
            *final(tally),
            together(
                c,
                file_scanned(*o, path@, *metadata, *reading, node_option(baseline)).counts,
            ),
        ),
{
    proof {
        lemma_nothing(c);
    }
    if let Some(limit) = o.max_file_size {
        if metadata.size > limit {
            return Content::Untracked;
        }
    }
    let kept = if o.rehash {
        None
    } else {
        reusable_digest(baseline, metadata, o.baseline_scanned_at)
    };
    let mut silent: bool = false;
    let digest: Digest = match kept {
        Some(digest) => digest,
        None => match reading {
            Reading::Changed => {
                return problem_only("changed during scan; it will be read again");
            },
            Reading::Failed { message } => {
                return problematic("unable to read file: ", message.as_str());
            },
            Reading::Read { digest, .. } => {
                if o.rehash {
                    if let Some(node) = baseline {
                        if let Content::File { digest: recorded, metadata: earlier, .. } =
                            &node.content {
                            silent = earlier.mtime_seconds == metadata.mtime_seconds
                                && earlier.mtime_nanos == metadata.mtime_nanos && earlier.size
                                == metadata.size && earlier.inode == metadata.inode
                                && !same_digest(recorded, digest);
                        }
                    }
                }
                *digest
            },
        },
    };
    tally.files = tally.files.saturating_add(1);
    tally.total_file_size = tally.total_file_size.saturating_add(metadata.size);
    proof {
        assert(c.mounts + Seq::<Seq<char>>::empty() =~= c.mounts);
        assert(c.silent + Seq::<Seq<char>>::empty() =~= c.silent);
    }
    if silent {
        let ghost before = strings(tally.changed_silently@);
        tally.changed_silently.push(path.to_owned());
        assert(strings(tally.changed_silently@) =~= before + seq![path@]);
    }
    Content::File {
        digest,
        executable: metadata.mode & MODE_EXECUTABLE_MASK != 0,
        metadata: *metadata,
    }
}

/// What a symbolic link is.
fn scan_symlink(
    o: &ScanOptions,
    path: &str,
    reading: &LinkReading,
    tally: &mut Tally,
    Ghost(c): Ghost<Counts>,
) -> (content: Content)
    requires
        tallies(*old(tally), c),
    ensures
        content.view() == link_scanned(*o, path@, *reading).content,
        tallies(*final(tally), together(c, link_scanned(*o, path@, *reading).counts)),
{
    proof {
        lemma_nothing(c);
    }
    if o.symlink_mode == SymlinkMode::Ignore {
        return Content::Untracked;
    }
    let target: &String = match reading {
        LinkReading::Failed { message } => {
            return problematic("unable to read symbolic link: ", message.as_str());
        },
        LinkReading::NotUtf8 => {
            return problem_only("non-UTF-8 symbolic link target");
        },
        LinkReading::Target { target } => target,
    };
    if target.as_str().is_empty() {
        return problem_only("empty symbolic link target");
    }
    if o.symlink_mode == SymlinkMode::Portable {
        match validate_portable_target(path, target.as_str()) {
            Err(fault) => {
                let words = fault.message();
                return problematic("symbolic link target is not portable: ", words.as_str());
            },
            Ok(()) => {},
        }
    }
    tally.symlinks = tally.symlinks.saturating_add(1);
    proof {
        assert(c.mounts + Seq::<Seq<char>>::empty() =~= c.mounts);
        assert(c.silent + Seq::<Seq<char>>::empty() =~= c.silent);
    }
    Content::Symlink { target: target.clone() }
}

/// Whether a directory is one of autobahn's own.
fn is_state_root(roots: &Vec<(u64, u64)>, device: u64, inode: u64) -> (r: bool)
    ensures
        r == roots@.contains((device, inode)),
{
    let mut i: usize = 0;
    while i < roots.len()
        invariant
            i <= roots@.len(),
            forall|k: int| 0 <= k < i ==> roots@[k] != (device, inode),
        decreases roots@.len() - i,
    {
        if roots[i].0 == device && roots[i].1 == inode {
            assert(roots@[i as int] == (device, inode));
            return true;
        }
        i += 1;
    }
    false
}

/// What a walk does with a directory, from what a look at it says: the region
/// that its entries stand in, or `None` where nothing that it holds is of
/// interest. It is one of autobahn's own, the patterns leave it out, it is on
/// another device and mounts are left alone, or it is too deep.
pub open spec fn entered(o: ScanOptions, device: u64, inode: u64, place: Place) -> Option<bool> {
    if o.state_roots@.contains((device, inode)) || (device != place.device && o.ignore_mounts)
        || place.depth >= o.max_depth {
        None
    } else {
        walked(o.ignores.view(), place.path, true, place.within)
    }
}

/// Whether a directory is worth opening: the region that its entries stand
/// in, where it is. The directory around it is `depth` levels below the root
/// and on the device `around`.
pub fn opens_directory(
    o: &ScanOptions,
    device: u64,
    inode: u64,
    path: &str,
    within: bool,
    around: u64,
    depth: usize,
) -> (r: Option<bool>)
    requires
        o.ignores.well_formed(),
    ensures
        forall|incremental: bool|
            r == #[trigger] entered(
                *o,
                device,
                inode,
                Place { path: path@, within, device: around, depth: depth as int, incremental },
            ),
{
    if is_state_root(&o.state_roots, device, inode) || (device != around && o.ignore_mounts)
        || depth >= o.max_depth {
        None
    } else {
        o.ignores.traversal(path, true, within)
    }
}

/// A directory that is not worth opening is scanned alike whatever it holds.
pub proof fn law_what_is_not_opened_does_not_count(
    o: ScanOptions,
    device: u64,
    inode: u64,
    one: Listing,
    other: Listing,
    place: Place,
    baseline: Option<NodeView>,
    dirty: Option<DirtyNode>,
)
    requires
        entered(o, device, inode, place) is None,
    ensures
        probe_scanned(o, Probe::Directory { device, inode, listing: one }, place, baseline, dirty)
            == probe_scanned(
            o,
            Probe::Directory { device, inode, listing: other },
            place,
            baseline,
            dirty,
        ),
{
}

/// The report on an optional node, in a specification.
pub open spec fn dirty_option(dirty: Option<&DirtyNode>) -> Option<DirtyNode> {
    match dirty {
        Some(node) => Some(*node),
        None => None,
    }
}

/// What an entry is.
fn scan_probe(
    o: &ScanOptions,
    probe: &Probe,
    path: &str,
    within: bool,
    device: u64,
    depth: usize,
    incremental: bool,
    baseline: Option<&Node>,
    dirty: Option<&DirtyNode>,
    tally: &mut Tally,
    Ghost(c): Ghost<Counts>,
) -> (r: Option<Content>)
    requires
        o.ignores.well_formed(),
        o.max_depth < usize::MAX,
        depth <= o.max_depth,
        tallies(*old(tally), c),
    ensures
        ({
            let place = Place { path: path@, within, device, depth: depth as int, incremental };
            let found = probe_scanned(
                *o,
                *probe,
                place,
                node_option(baseline),
                dirty_option(dirty),
            );
            match r {
                Some(content) => found is Some && content.view() == found->0.content && tallies(
                    *final(tally),
                    together(c, found->0.counts),
                ),
                None => found is None && tallies(*final(tally), c),
            }
        }),
    decreases probe, 0int, 0int,
{
    proof {
        lemma_nothing(c);
    }
    match probe {
        Probe::Missing => None,
        Probe::Failed { message } => Some(problematic("unable to probe entry: ", message.as_str())),
        Probe::Directory { device: own, inode, listing } => {
            if is_state_root(&o.state_roots, *own, *inode) {
                return Some(Content::Untracked);
            }
            let region = match o.ignores.traversal(path, true, within) {
                None => {
                    return Some(Content::Untracked);
                },
                Some(region) => region,
            };
            let ghost mut counted = c;
            let ghost mounts = if *own != device {
                Counts { mounts: seq![path@], ..nothing() }
            } else {
                nothing()
            };
            if *own != device {
                count_mount(tally, path, Ghost(c));
                proof {
                    counted = together(c, mounts);
                }
                if o.ignore_mounts {
                    return Some(Content::Untracked);
                }
            }
            assert(counted == together(c, mounts));
            proof {
                assert(decreases_to!(*probe => probe->listing));
            }
            let content = scan_listing(
                o,
                listing,
                path,
                region,
                *own,
                depth + 1,
                incremental,
                baseline,
                dirty,
                tally,
                Ghost(counted),
            );
            proof {
                let inner = listing_scanned(
                    *o,
                    *listing,
                    Place {
                        path: path@,
                        within: region,
                        device: *own,
                        depth: depth + 1,
                        incremental,
                    },
                    node_option(baseline),
                    dirty_option(dirty),
                );
                lemma_together(c, mounts, inner.counts);
            }
            Some(content)
        },
        Probe::File { metadata, reading } => {
            if o.ignores.traversal(path, false, within).is_none() {
                return Some(Content::Untracked);
            }
            Some(scan_file(o, path, metadata, reading, baseline, tally, Ghost(c)))
        },
        Probe::Symlink { reading } => {
            if o.ignores.traversal(path, false, within).is_none() {
                return Some(Content::Untracked);
            }
            Some(scan_symlink(o, path, reading, tally, Ghost(c)))
        },
        Probe::Other => Some(Content::Untracked),
    }
}

/// What a listed entry is.
fn scan_entry(
    o: &ScanOptions,
    entry: &Observed,
    path: &str,
    within: bool,
    device: u64,
    depth: usize,
    incremental: bool,
    baseline: Option<&Node>,
    dirty: Option<&DirtyNode>,
    tally: &mut Tally,
    Ghost(c): Ghost<Counts>,
) -> (r: Option<Node>)
    requires
        o.ignores.well_formed(),
        o.max_depth < usize::MAX,
        depth <= o.max_depth,
        tallies(*old(tally), c),
    ensures
        ({
            let place = Place { path: path@, within, device, depth: depth as int, incremental };
            let found = entry_scanned(
                *o,
                *entry,
                place,
                node_option(baseline),
                dirty_option(dirty),
            );
            match r {
                Some(node) => found is Some && node.view() == (found->0).0 && tallies(
                    *final(tally),
                    together(c, (found->0).1),
                ),
                None => found is None && tallies(*final(tally), c),
            }
        }),
    decreases entry, 0int, 0int,
{
    proof {
        lemma_nothing(c);
    }
    if str_starts_with(entry.name.as_str(), ".autobahn-tmp") {
        if autobahn_temporary(entry.name.as_str()) {
            return None;
        }
        return Some(
            Node {
                name: entry.name.clone(),
                content: problem_only(
                    "the name prefix '.autobahn-tmp' is reserved for autobahn temporaries; rename the entry to synchronize it",
                ),
            },
        );
    }
    let name: String = if !entry.utf8 {
        let mut name = entry.name.clone();
        name.append(" (non-UTF-8)");
        name
    } else if o.behavior.decomposes_unicode {
        recompose(entry.name.as_str())
    } else {
        entry.name.clone()
    };
    let child_path = path_join(path, name.as_str());
    let known: Option<&Node> = match baseline {
        Some(node) => node.child(name.as_str()),
        None => None,
    };
    let reported: Option<&DirtyNode> = match dirty {
        Some(node) => node.child(name.as_str()),
        None => None,
    };
    if incremental && reported.is_none() && entry.utf8 {
        if let Some(node) = known {
            let adopted = match &node.content {
                Content::Problematic { .. } => false,
                _ => true,
            };
            if adopted {
                return Some(node.duplicate());
            }
        }
    }
    if !entry.utf8 {
        let ignored = match &entry.probe {
            Probe::Missing => false,
            Probe::Failed { .. } => false,
            Probe::Directory { .. } => o.ignores.ignored_within(child_path.as_str(), true, within),
            Probe::File { .. } => o.ignores.ignored_within(child_path.as_str(), false, within),
            Probe::Symlink { .. } => o.ignores.ignored_within(child_path.as_str(), false, within),
            Probe::Other => o.ignores.ignored_within(child_path.as_str(), false, within),
        };
        let content = if ignored {
            Content::Untracked
        } else {
            problem_only("non-UTF-8 filename")
        };
        return Some(Node { name, content });
    }
    match scan_probe(
        o,
        &entry.probe,
        child_path.as_str(),
        within,
        device,
        depth,
        incremental,
        known,
        reported,
        tally,
        Ghost(c),
    ) {
        None => None,
        Some(content) => Some(Node { name, content }),
    }
}

/// Where the entry with a name is in a listing.
fn find_entry(list: &Vec<Observed>, name: &str) -> (i: usize)
    ensures
        i == entry_index(list@, name@, list@.len() as int),
        i <= list@.len(),
{
    let mut found: usize = 0;
    let mut n: usize = 0;
    while n < list.len()
        invariant
            n <= list@.len(),
            found <= n,
            found == entry_index(list@, name@, n as int),
        decreases list@.len() - n,
    {
        if found == n && !(list[n].utf8 && same_text(list[n].name.as_str(), name)) {
            found = n + 1;
        }
        n += 1;
    }
    found
}

/// Puts an entry in its place, instead of one of its name.
fn insert_node(list: &mut Vec<Node>, node: Node)
    ensures
        node_views(final(list)@) == with_node(node_views(old(list)@), node.view()),
{
    let ghost views = node_views(list@);
    let mut i: usize = 0;
    while i < list.len() && precedes(list[i].name.as_str(), node.name.as_str())
        invariant
            i <= list@.len(),
            views == node_views(list@),
            forall|k: int|
                0 <= k < i ==> before(#[trigger] node_names(views)[k], node.name@),
        decreases list@.len() - i,
    {
        i += 1;
    }
    proof {
        lemma_slot_is(node_names(views), node.name@, i as int);
    }
    let ghost added = node.view();
    if i < list.len() && list[i].name == node.name {
        list.set(i, node);
        assert(node_views(list@) =~= views.update(i as int, added));
    } else {
        list.insert(i, node);
        assert(node_views(list@) =~= views.insert(i as int, added));
    }
}

/// What a directory holds.
fn scan_listing(
    o: &ScanOptions,
    listing: &Listing,
    path: &str,
    within: bool,
    device: u64,
    depth: usize,
    incremental: bool,
    baseline: Option<&Node>,
    dirty: Option<&DirtyNode>,
    tally: &mut Tally,
    Ghost(c): Ghost<Counts>,
) -> (content: Content)
    requires
        o.ignores.well_formed(),
        o.max_depth < usize::MAX,
        depth <= o.max_depth + 1,
        tallies(*old(tally), c),
    ensures
        ({
            let place = Place { path: path@, within, device, depth: depth as int, incremental };
            let found = listing_scanned(
                *o,
                *listing,
                place,
                node_option(baseline),
                dirty_option(dirty),
            );
            content.view() == found.content && tallies(*final(tally), together(c, found.counts))
        }),
    decreases
            listing,
            if incremental {
                3int
            } else {
                2int
            },
            0int,
{
    let ghost place = Place { path: path@, within, device, depth: depth as int, incremental };
    proof {
        lemma_nothing(c);
    }
    if depth > o.max_depth {
        let mut text = "too deep: more than ".to_owned();
        let levels = decimal(o.max_depth as u64);
        text.append(levels.as_str());
        text.append(" levels below the root");
        return Content::Problematic { message: text };
    }
    let known: Option<&Vec<Node>> = match baseline {
        Some(node) => match &node.content {
            Content::Directory(children) => Some(children),
            _ => None,
        },
        None => None,
    };
    if incremental {
        match dirty {
            None => {
                if let Some(children) = known {
                    let copies = duplicate_all(children.as_slice());
                    proof {
                        lemma_directory_view(*children);
                        lemma_directory_view(copies);
                    }
                    return Content::Directory(copies);
                }
            },
            Some(node) => {
                if node.marked {
                    return scan_listing(
                        o,
                        listing,
                        path,
                        within,
                        device,
                        depth,
                        false,
                        baseline,
                        None,
                        tally,
                        Ghost(c),
                    );
                }
            },
        }
    }
    if let Some(reports) = dirty {
        if !reports.relist && !o.behavior.decomposes_unicode {
            if let Some(children) = known {
                let nodes = refresh(
                    o,
                    listing,
                    children,
                    path,
                    within,
                    device,
                    depth,
                    incremental,
                    reports,
                    tally,
                    Ghost(c),
                );
                proof {
                    lemma_directory_view(*children);
                    lemma_directory_view(nodes);
                }
                return Content::Directory(nodes);
            }
        }
    }
    match listing {
        Listing::Failed { message, .. } => problematic("unable to read directory: ", message.as_str()),
        Listing::Entries(list) => {
            count_directory(tally, Ghost(c));
            let ghost base = together(c, one_directory());
            let mut nodes: Vec<Node> = Vec::new();
            let mut i: usize = 0;
            let ghost known_view = node_option(baseline);
            let ghost reports = dirty_option(dirty);
            proof {
                lemma_nothing(base);
                assert(node_views(nodes@) =~= settled(Seq::<NodeView>::empty()));
            }
            while i < list.len()
                invariant
                    i <= list@.len(),
                    *listing == Listing::Entries(*list),
                    o.ignores.well_formed(),
                    o.max_depth < usize::MAX,
                    depth <= o.max_depth,
                    place == (Place {
                        path: path@,
                        within,
                        device,
                        depth: depth as int,
                        incremental,
                    }),
                    known_view == node_option(baseline),
                    reports == dirty_option(dirty),
                    base == together(c, one_directory()),
                    node_views(nodes@) == settled(
                        listed_scanned(
                            *o,
                            *listing,
                            i as int,
                            place,
                            known_view,
                            reports,
                        ).nodes,
                    ),
                    tallies(
                        *tally,
                        together(
                            base,
                            listed_scanned(
                                *o,
                                *listing,
                                i as int,
                                place,
                                known_view,
                                reports,
                            ).counts,
                        ),
                    ),
                decreases list@.len() - i,
            {
                let ghost front = listed_scanned(
                    *o,
                    *listing,
                    i as int,
                    place,
                    known_view,
                    reports,
                );
                proof {
                    assert(decreases_to!(*listing => listing->Entries_0));
                    assert(decreases_to!(*list => list@));
                    assert(decreases_to!(list@ => list@[i as int]));
                    assert(listing->Entries_0@[i + 1 - 1] == list@[i as int]);
                }
                match scan_entry(
                    o,
                    &list[i],
                    path,
                    within,
                    device,
                    depth,
                    incremental,
                    baseline,
                    dirty,
                    tally,
                    Ghost(together(base, front.counts)),
                ) {
                    None => {},
                    Some(node) => {
                        proof {
                            let entry_found = entry_scanned(
                                *o,
                                list@[i as int],
                                place,
                                known_view,
                                reports,
                            );
                            let counts = (entry_found->0).1;
                            lemma_together(base, front.counts, counts);
                            assert(front.nodes.push(node.view()).drop_last() =~= front.nodes);
                        }
                        insert_node(&mut nodes, node);
                    },
                }
                i += 1;
            }
            proof {
                let found = listed_scanned(
                    *o,
                    *listing,
                    list@.len() as int,
                    place,
                    known_view,
                    reports,
                );
                lemma_together(c, one_directory(), found.counts);
                lemma_directory_view(nodes);
            }
            Content::Directory(nodes)
        },
    }
}

/// The entries of a directory that is not listed again.
fn refresh(
    o: &ScanOptions,
    listing: &Listing,
    children: &Vec<Node>,
    path: &str,
    within: bool,
    device: u64,
    depth: usize,
    incremental: bool,
    reports: &DirtyNode,
    tally: &mut Tally,
    Ghost(c): Ghost<Counts>,
) -> (nodes: Vec<Node>)
    requires
        o.ignores.well_formed(),
        o.max_depth < usize::MAX,
        depth <= o.max_depth,
        tallies(*old(tally), c),
    ensures
        ({
            let place = Place { path: path@, within, device, depth: depth as int, incremental };
            let found = refreshed(
                *o,
                *listing,
                node_views(children@),
                children@.len() as int,
                place,
                *reports,
            );
            node_views(nodes@) == found.nodes && tallies(
                *final(tally),
                together(c, together(one_directory(), found.counts)),
            )
        }),
    decreases listing, 1int, 0int,
{
    let ghost place = Place { path: path@, within, device, depth: depth as int, incremental };
    let ghost views = node_views(children@);
    count_directory(tally, Ghost(c));
    let ghost base = together(c, one_directory());
    let mut nodes: Vec<Node> = Vec::new();
    let mut i: usize = 0;
    proof {
        lemma_nothing(base);
        assert(node_views(nodes@) =~= Seq::<NodeView>::empty());
    }
    while i < children.len()
        invariant
            i <= children@.len(),
            o.ignores.well_formed(),
            o.max_depth < usize::MAX,
            depth <= o.max_depth,
            place == (Place { path: path@, within, device, depth: depth as int, incremental }),
            views == node_views(children@),
            base == together(c, one_directory()),
            node_views(nodes@) == refreshed(*o, *listing, views, i as int, place, *reports).nodes,
            tallies(
                *tally,
                together(
                    base,
                    refreshed(*o, *listing, views, i as int, place, *reports).counts,
                ),
            ),
        decreases children@.len() - i,
    {
        let ghost front = refreshed(*o, *listing, views, i as int, place, *reports);
        let child = &children[i];
        let ghost before = node_views(nodes@);
        assert(views[i + 1 - 1] == child.view());
        match reports.child(child.name.as_str()) {
            None => {
                nodes.push(child.duplicate());
                assert(node_views(nodes@) =~= before.push(child.view()));
            },
            Some(reported) => {
                let list: &Vec<Observed> = match listing {
                    Listing::Entries(list) => list,
                    Listing::Failed { seen, .. } => seen,
                };
                let at = find_entry(list, child.name.as_str());
                if at < list.len() {
                    let child_path = path_join(path, child.name.as_str());
                    proof {
                        lemma_looked_at(*listing, at as int);
                    }
                    match scan_probe(
                        o,
                        &list[at].probe,
                        child_path.as_str(),
                        within,
                        device,
                        depth,
                        incremental,
                        Some(child),
                        Some(reported),
                        tally,
                        Ghost(together(base, front.counts)),
                    ) {
                        None => {},
                        Some(content) => {
                            proof {
                                let found = probe_scanned(
                                    *o,
                                    list@[at as int].probe,
                                    Place { path: child_path@, ..place },
                                    Some(child.view()),
                                    Some(*reported),
                                );
                                lemma_together(base, front.counts, found->0.counts);
                            }
                            let node = Node { name: child.name.clone(), content };
                            let ghost added = node.view();
                            nodes.push(node);
                            assert(node_views(nodes@) =~= before.push(added));
                        },
                    }
                }
            },
        }
        i += 1;
    }
    proof {
        let found = refreshed(*o, *listing, views, children@.len() as int, place, *reports);
        lemma_together(c, one_directory(), found.counts);
    }
    nodes
}

/// What a root directory holds, and what was counted in walking it.
pub fn scan_root(
    o: &ScanOptions,
    listing: &Listing,
    device: u64,
    baseline: Option<&Node>,
    dirty: Option<&DirtyNode>,
) -> (r: (Content, Tally))
    requires
        o.ignores.well_formed(),
        o.max_depth < usize::MAX,
    ensures
        ({
            let found = root_scanned(
                *o,
                *listing,
                device,
                node_option(baseline),
                dirty_option(dirty),
            );
            r.0.view() == found.content && tallies(r.1, found.counts)
        }),
{
    let mut tally = empty_tally();
    let content = scan_listing(
        o,
        listing,
        "",
        false,
        device,
        0,
        dirty.is_some(),
        baseline,
        dirty,
        &mut tally,
        Ghost(nothing()),
    );
    proof {
        reveal_strlit("");
        assert(""@ =~= Seq::<char>::empty());
        lemma_nothing(
            root_scanned(
                *o,
                *listing,
                device,
                node_option(baseline),
                dirty_option(dirty),
            ).counts,
        );
    }
    (content, tally)
}

/// What a root directory holds: a walk from the top, incremental where there
/// are reports.
pub open spec fn root_scanned(
    o: ScanOptions,
    listing: Listing,
    device: u64,
    baseline: Option<NodeView>,
    dirty: Option<DirtyNode>,
) -> Scanned {
    listing_scanned(
        o,
        listing,
        Place {
            path: Seq::empty(),
            within: false,
            device,
            depth: 0,
            incremental: dirty is Some,
        },
        baseline,
        dirty,
    )
}

} // verus!
