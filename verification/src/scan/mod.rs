//! Scanning a root into a tree.
use crate::order::{sort_texts, sorted};
use crate::scan::dirty::DirtyNode;
use crate::scan::walk::{
    capped, dirty_option, nothing, one_directory, root_scanned, scan_root, together, Counts,
    Listing, Tally,
};
use crate::text::{holds_text, strings};
use crate::tree::{
    at_path, lemma_directory_view, node_at, node_option, node_views, Content, ContentView, Node,
    NodeView, Snapshot,
};
use vstd::prelude::*;

pub mod agreement;
pub mod dirty;
pub mod ignore;
pub mod ignorefile;
pub mod laws;
pub mod names;
pub mod probes;
pub mod walk;

pub use dirty::DirtyPaths;
pub use ignore::IgnoreSet;
pub use names::{autobahn_temporary, validate_portable_target};
pub use probes::{probe, recompose, FilesystemBehavior};
pub use walk::{ScanOptions, SymlinkMode};

verus! {

/// What looking at a root gave.
#[derive(Debug)]
pub enum RootProbe {
    /// Nothing is there.
    Missing,
    /// It could not be looked at.
    Failed {
        /// Why.
        message: String,
    },
    /// It is no directory.
    NotADirectory,
    /// A directory.
    Directory {
        /// The device it is on.
        device: u64,
        /// What listing it gave.
        listing: Listing,
    },
}

/// Why a root cannot be scanned.
#[derive(Debug)]
pub enum ScanError {
    /// It could not be looked at.
    Unprobed {
        /// Why.
        message: String,
    },
    /// It is no directory.
    NotADirectory,
}

/// What a content counts for: itself, and what it holds.
pub open spec fn held(content: ContentView) -> Counts
    decreases content,
{
    match content {
        ContentView::Directory(children) => together(one_directory(), held_all(children)),
        ContentView::File { metadata, .. } => Counts {
            files: 1,
            size: metadata.size as int,
            ..nothing()
        },
        ContentView::Symlink { .. } => Counts { symlinks: 1, ..nothing() },
        _ => nothing(),
    }
}

/// What entries count for.
pub open spec fn held_all(children: Seq<NodeView>) -> Counts
    decreases children,
{
    if children.len() == 0 {
        nothing()
    } else {
        together(held_all(children.drop_last()), held(children.last().content))
    }
}

/// The numbers of a count, as far as they fit.
struct Numbers {
    directories: u64,
    files: u64,
    symlinks: u64,
    size: u64,
}

spec fn numbers_are(n: Numbers, c: Counts) -> bool {
    &&& c.directories >= 0
    &&& c.files >= 0
    &&& c.symlinks >= 0
    &&& c.size >= 0
    &&& n.directories == capped(c.directories)
    &&& n.files == capped(c.files)
    &&& n.symlinks == capped(c.symlinks)
    &&& n.size == capped(c.size)
}

/// Adds what an entry counts for.
fn count_node(node: &Node, numbers: &mut Numbers, Ghost(c): Ghost<Counts>)
    requires
        numbers_are(*old(numbers), c),
    ensures
        numbers_are(*final(numbers), together(c, held(node.view().content))),
    decreases node,
{
    match &node.content {
        Content::Directory(children) => {
            numbers.directories = numbers.directories.saturating_add(1);
            let ghost views = node_views(children@);
            proof {
                lemma_directory_view(*children);
            }
            let mut i: usize = 0;
            let ghost base = together(c, one_directory());
            while i < children.len()
                invariant
                    i <= children@.len(),
                    node.content == Content::Directory(*children),
                    views == node_views(children@),
                    base == together(c, one_directory()),
                    numbers_are(*numbers, together(base, held_all(views.take(i as int)))),
                decreases children@.len() - i,
            {
                proof {
                    assert(views.take(i + 1).drop_last() =~= views.take(i as int));
                    assert(views.take(i + 1).last() == children@[i as int].view());
                    assert(decreases_to!(*node => node.content));
                    assert(decreases_to!(node.content => node.content->Directory_0));
                    assert(decreases_to!(*children => children@));
                    assert(decreases_to!(children@ => children@[i as int]));
                }
                count_node(
                    &children[i],
                    numbers,
                    Ghost(together(base, held_all(views.take(i as int)))),
                );
                i += 1;
            }
            assert(views.take(views.len() as int) =~= views);
        },
        Content::File { metadata, .. } => {
            numbers.files = numbers.files.saturating_add(1);
            numbers.size = numbers.size.saturating_add(metadata.size);
        },
        Content::Symlink { .. } => {
            numbers.symlinks = numbers.symlinks.saturating_add(1);
        },
        Content::Untracked => {},
        Content::Problematic { .. } => {},
    }
}

/// What a snapshot's tree counts for.
pub open spec fn held_by(root: Option<NodeView>) -> Counts {
    match root {
        Some(node) => held(node.content),
        None => nothing(),
    }
}

/// Counts a snapshot's tree anew.
pub fn recount(snapshot: &mut Snapshot)
    ensures
        final(snapshot).root == old(snapshot).root,
        final(snapshot).mount_points == old(snapshot).mount_points,
        final(snapshot).preserves_executability == old(snapshot).preserves_executability,
        final(snapshot).scanned_at_seconds == old(snapshot).scanned_at_seconds,
        ({
            let c = held_by(
                match old(snapshot).root {
                    Some(node) => Some(node.view()),
                    None => None,
                },
            );
            &&& final(snapshot).directories == capped(c.directories)
            &&& final(snapshot).files == capped(c.files)
            &&& final(snapshot).symlinks == capped(c.symlinks)
            &&& final(snapshot).total_file_size == capped(c.size)
        }),
{
    let mut numbers = Numbers { directories: 0, files: 0, symlinks: 0, size: 0 };
    match &snapshot.root {
        Some(node) => {
            count_node(node, &mut numbers, Ghost(nothing()));
        },
        None => {},
    }
    snapshot.directories = numbers.directories;
    snapshot.files = numbers.files;
    snapshot.symlinks = numbers.symlinks;
    snapshot.total_file_size = numbers.size;
}

/// Whether a mount point of an earlier scan is still one: what is there was
/// left alone, or is what the earlier scan recorded.
pub open spec fn still_mounted(
    root: NodeView,
    earlier: Option<NodeView>,
    point: Seq<char>,
) -> bool {
    let now = at_path(Some(root), point);
    let then_ = at_path(earlier, point);
    now is Some && (now->0.content is Untracked || (now->0.content is Directory && now == then_))
}

/// Those of the first `n` mount points of an earlier scan that still are.
pub open spec fn carried(
    points: Seq<Seq<char>>,
    n: int,
    root: NodeView,
    earlier: Option<NodeView>,
) -> Seq<Seq<char>>
    decreases n,
{
    if n <= 0 {
        Seq::empty()
    } else if still_mounted(root, earlier, points[n - 1]) {
        carried(points, n - 1, root, earlier).push(points[n - 1])
    } else {
        carried(points, n - 1, root, earlier)
    }
}

/// The mount points of a scan: those found, and those of the earlier scan
/// that still are, in order.
fn gather_mounts(found: Vec<String>, root: &Node, baseline: Option<&Snapshot>) -> (r: Vec<String>)
    ensures
        strings(r@) == sorted(
            strings(found@) + (match baseline {
                Some(snapshot) => carried(
                    strings(snapshot.mount_points@),
                    snapshot.mount_points@.len() as int,
                    root.view(),
                    snapshot_root(*snapshot),
                ),
                None => Seq::empty(),
            }),
        ),
{
    let mut points = found;
    let ghost start = strings(points@);
    match baseline {
        None => {
            assert(start + Seq::<Seq<char>>::empty() =~= start);
        },
        Some(snapshot) => {
            let ghost all = strings(snapshot.mount_points@);
            let ghost earlier = snapshot_root(*snapshot);
            let old_root: Option<&Node> = snapshot.root.as_ref();
            assert(node_option(old_root) == earlier);
            let mut i: usize = 0;
            assert(strings(points@) =~= start + carried(all, 0, root.view(), earlier));
            while i < snapshot.mount_points.len()
                invariant
                    i <= snapshot.mount_points@.len(),
                    all == strings(snapshot.mount_points@),
                    node_option(old_root) == earlier,
                    strings(points@) == start + carried(all, i as int, root.view(), earlier),
                decreases snapshot.mount_points@.len() - i,
            {
                let point = &snapshot.mount_points[i];
                let keep = match node_at(Some(root), point.as_str()) {
                    None => false,
                    Some(now) => match &now.content {
                        Content::Untracked => true,
                        Content::Directory(_) => match node_at(old_root, point.as_str()) {
                            Some(then_) => now.identical(then_),
                            None => false,
                        },
                        _ => false,
                    },
                };
                assert(keep == still_mounted(root.view(), earlier, all[i as int]));
                if keep {
                    let ghost before = strings(points@);
                    points.push(point.clone());
                    assert(strings(points@) =~= before.push(point@));
                    assert(strings(points@) =~= start + carried(
                        all,
                        i + 1,
                        root.view(),
                        earlier,
                    ));
                }
                i += 1;
            }
        },
    }
    sort_texts(points.as_slice())
}

/// What a snapshot's root is.
pub open spec fn snapshot_root(snapshot: Snapshot) -> Option<NodeView> {
    match snapshot.root {
        Some(node) => Some(node.view()),
        None => None,
    }
}

/// When the digests of a snapshot were taken.
pub open spec fn taken_at(baseline: Option<&Snapshot>) -> Option<i64> {
    match baseline {
        Some(snapshot) => Some(snapshot.scanned_at_seconds),
        None => None,
    }
}

/// The reports a scan goes by: none where there is no earlier tree.
pub open spec fn reports_used(
    baseline: Option<&Snapshot>,
    dirty: Option<&DirtyPaths>,
) -> Option<DirtyNode> {
    match (baseline, dirty) {
        (Some(snapshot), Some(paths)) => if snapshot.root is Some {
            Some(paths.root)
        } else {
            None
        },
        _ => None,
    }
}

/// The time that a snapshot is stamped with: that of the scan, or that of the
/// baseline where a part of it was taken over.
pub open spec fn stamped(partial: bool, baseline: Option<&Snapshot>, now: i64) -> i64 {
    if partial && taken_at(baseline)->0 < now {
        taken_at(baseline)->0
    } else {
        now
    }
}

/// The root of an earlier snapshot.
pub open spec fn earlier_root(baseline: Option<&Snapshot>) -> Option<NodeView> {
    match baseline {
        Some(snapshot) => snapshot_root(*snapshot),
        None => None,
    }
}

/// Scans a root: a missing one is an empty snapshot, and one that is no
/// directory is an error. With reports and an earlier snapshot, the scan is
/// incremental: what was not reported is taken over, and the snapshot's
/// digests count as taken when the older of the two scans took its own. The
/// second result is the paths of files that a rereading scan found changed
/// though their entries had not.
pub fn scan(
    root: &RootProbe,
    baseline: Option<&Snapshot>,
    dirty: Option<&DirtyPaths>,
    options: ScanOptions,
    now_seconds: i64,
) -> (r: Result<(Snapshot, Vec<String>), ScanError>)
    requires
        options.ignores.well_formed(),
        options.max_depth < usize::MAX,
    ensures
        match *root {
            RootProbe::Missing => {
                &&& r matches Ok(found)
                &&& found.0.root is None
                &&& found.0.mount_points@.len() == 0
                &&& found.0.preserves_executability == options.behavior.preserves_executability
                &&& found.0.directories == 0 && found.0.files == 0 && found.0.symlinks == 0
                &&& found.0.total_file_size == 0 && found.0.scanned_at_seconds == 0
                &&& found.1@.len() == 0
            },
            RootProbe::Failed { message } => r matches Err(ScanError::Unprobed { message: m })
                && m@ == message@,
            RootProbe::NotADirectory => r matches Err(ScanError::NotADirectory),
            RootProbe::Directory { device, listing } => {
                let o = ScanOptions { baseline_scanned_at: taken_at(baseline), ..options };
                let reports = reports_used(baseline, dirty);
                let found = root_scanned(o, listing, device, earlier_root(baseline), reports);
                let tree = NodeView { name: Seq::empty(), content: found.content };
                let counts = if reports is Some {
                    held(found.content)
                } else {
                    found.counts
                };
                &&& r matches Ok(done)
                &&& snapshot_root(done.0) == Some(tree)
                &&& done.0.preserves_executability == options.behavior.preserves_executability
                &&& done.0.directories == capped(counts.directories)
                &&& done.0.files == capped(counts.files)
                &&& done.0.symlinks == capped(counts.symlinks)
                &&& done.0.total_file_size == capped(counts.size)
                &&& done.0.scanned_at_seconds == stamped(reports is Some, baseline, now_seconds)
                &&& strings(done.0.mount_points@) == sorted(
                    found.counts.mounts + (match baseline {
                        Some(snapshot) => carried(
                            strings(snapshot.mount_points@),
                            snapshot.mount_points@.len() as int,
                            tree,
                            snapshot_root(*snapshot),
                        ),
                        None => Seq::empty(),
                    }),
                )
                &&& strings(done.1@) == found.counts.silent
            },
        },
{
    match root {
        RootProbe::Missing => Ok(
            (
                Snapshot {
                    root: None,
                    mount_points: Vec::new(),
                    preserves_executability: options.behavior.preserves_executability,
                    directories: 0,
                    files: 0,
                    symlinks: 0,
                    total_file_size: 0,
                    scanned_at_seconds: 0,
                },
                Vec::new(),
            ),
        ),
        RootProbe::Failed { message } => Err(ScanError::Unprobed { message: message.clone() }),
        RootProbe::NotADirectory => Err(ScanError::NotADirectory),
        RootProbe::Directory { device, listing } => {
            let mut o = options;
            o.baseline_scanned_at = match baseline {
                Some(snapshot) => Some(snapshot.scanned_at_seconds),
                None => None,
            };
            let earlier: Option<&Node> = match baseline {
                Some(snapshot) => snapshot.root.as_ref(),
                None => None,
            };
            let reports: Option<&DirtyNode> = match dirty {
                Some(paths) => if earlier.is_some() {
                    Some(&paths.root)
                } else {
                    None
                },
                None => None,
            };
            let ghost found = root_scanned(
                o,
                *listing,
                *device,
                earlier_root(baseline),
                reports_used(baseline, dirty),
            );
            assert(node_option(earlier) == earlier_root(baseline));
            assert(dirty_option(reports) == reports_used(baseline, dirty));
            let incremental = reports.is_some();
            let (content, tally) = scan_root(&o, listing, *device, earlier, reports);
            let tree = Node { name: String::new(), content };
            let Tally {
                directories,
                files,
                symlinks,
                total_file_size,
                mount_points,
                changed_silently,
            } = tally;
            let points = gather_mounts(mount_points, &tree, baseline);
            let taken: i64 = match (incremental, baseline) {
                (true, Some(snapshot)) => if snapshot.scanned_at_seconds < now_seconds {
                    snapshot.scanned_at_seconds
                } else {
                    now_seconds
                },
                _ => now_seconds,
            };
            let mut snapshot = Snapshot {
                root: Some(tree),
                mount_points: points,
                preserves_executability: o.behavior.preserves_executability,
                directories,
                files,
                symlinks,
                total_file_size,
                scanned_at_seconds: taken,
            };
            if incremental {
                recount(&mut snapshot);
            }
            Ok((snapshot, changed_silently))
        },
    }
}

/// Some directories and one more, unless it is among them.
pub open spec fn with_root(roots: Seq<Seq<char>>, root: Seq<char>) -> Seq<Seq<char>> {
    if roots.contains(root) {
        roots
    } else {
        roots.push(root)
    }
}

/// Adds a directory to those that hold autobahn's own state, unless it is
/// among them.
pub fn exclude_state_root(roots: &mut Vec<String>, state_root: &str)
    ensures
        strings(final(roots)@) == with_root(strings(old(roots)@), state_root@),
{
    if !holds_text(roots.as_slice(), state_root) {
        let ghost before = strings(roots@);
        roots.push(state_root.to_owned());
        assert(strings(roots@) =~= before.push(state_root@));
    }
}

/// A snapshot is never stamped later than anything in it was read: with the
/// time of its scan, and with the baseline's where that is earlier and only
/// what was reported was read again.
pub proof fn law_a_snapshot_is_as_old_as_its_oldest_part(
    partial: bool,
    baseline: Option<&Snapshot>,
    now: i64,
)
    requires
        partial ==> baseline is Some,
    ensures
        !partial ==> stamped(partial, baseline, now) == now,
        partial ==> {
            let then_ = baseline->0.scanned_at_seconds;
            &&& stamped(partial, baseline, now) <= now
            &&& stamped(partial, baseline, now) <= then_
            &&& stamped(partial, baseline, now) == now || stamped(partial, baseline, now) == then_
        },
{
}

/// Reports are gone by only where there is a tree to take the rest from;
/// otherwise everything is read.
pub proof fn law_reports_need_a_baseline(baseline: Option<&Snapshot>, dirty: Option<&DirtyPaths>)
    ensures
        reports_used(baseline, dirty) is Some <==> baseline is Some && baseline->0.root is Some
            && dirty is Some,
        reports_used(baseline, dirty) is Some ==> reports_used(baseline, dirty)->0
            == dirty->0.root,
{
}

/// A directory that holds state is among those that are left out, once more at
/// most, and none that was among them is lost.
pub proof fn law_a_state_root_is_left_out(roots: Seq<Seq<char>>, root: Seq<char>)
    ensures
        with_root(roots, root).contains(root),
        forall|other: Seq<char>|
            other != root ==> (#[trigger] with_root(roots, root).contains(other) <==> roots.contains(
                other,
            )),
        with_root(with_root(roots, root), root) == with_root(roots, root),
        forall|i: int|
            0 <= i < roots.len() ==> #[trigger] with_root(roots, root)[i] == roots[i],
        roots.contains(root) ==> with_root(roots, root).len() == roots.len(),
{
    let all = with_root(roots, root);
    if !roots.contains(root) {
        assert(all[all.len() - 1] == root);
        assert forall|other: Seq<char>| other != root implies (#[trigger] all.contains(other)
            <==> roots.contains(other)) by {
            if roots.contains(other) {
                let i = choose|i: int| 0 <= i < roots.len() && roots[i] == other;
                assert(all[i] == other);
            }
            if all.contains(other) {
                let i = choose|i: int| 0 <= i < all.len() && all[i] == other;
                assert(roots[i] == other);
            }
        }
    }
}

} // verus!
