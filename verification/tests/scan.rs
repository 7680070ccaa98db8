//! Scans of observed trees.
use autobahn::digest::{digest_of, Digest, DigestRun, DIGEST_GROWTH_ALLOWANCE};
use autobahn::scan::names::TargetError;
use autobahn::scan::probes::{keeps_executability, probe_name, reads_back_decomposed};
use autobahn::scan::walk::{
    opens_directory, reusable_digest, LinkReading, Listing, Observed, Probe, Reading, MAX_SCAN_DEPTH,
    MODE_TYPE_MASK,
};
use autobahn::scan::{
    autobahn_temporary, exclude_state_root, probe, recompose, recount, scan,
    validate_portable_target, DirtyPaths, FilesystemBehavior, IgnoreSet, RootProbe, ScanError,
    ScanOptions, SymlinkMode,
};
use autobahn::tree::{node_at, Content, FileMetadata, Node, Snapshot};

/// When every scan here is made, unless a test says otherwise.
const NOW: i64 = 2_000_000_000;
const DEVICE: u64 = 7;

/// What a test puts on its disk.
enum Entry {
    File { contents: String, mode: u32, mtime: i64 },
    Link(String),
    Directory { device: u64, children: Vec<(String, Entry)> },
    Unreadable,
    Other,
}

/// A disk, as the probes will observe it.
struct Disk {
    root: Entry,
}

impl Disk {
    fn new() -> Disk {
        Disk { root: Entry::Directory { device: DEVICE, children: Vec::new() } }
    }

    fn children(&mut self, path: &str) -> &mut Vec<(String, Entry)> {
        let mut current = &mut self.root;
        for component in path.split('/').filter(|component| !component.is_empty()) {
            let children = match current {
                Entry::Directory { children, .. } => children,
                _ => panic!("{path} runs through something else"),
            };
            let at = match children.iter().position(|(name, _)| name == component) {
                Some(at) => at,
                None => {
                    let made = Entry::Directory { device: DEVICE, children: Vec::new() };
                    children.push((component.to_owned(), made));
                    children.len() - 1
                }
            };
            current = &mut children[at].1;
        }
        match current {
            Entry::Directory { children, .. } => children,
            _ => panic!("{path} is no directory"),
        }
    }

    fn put(&mut self, path: &str, entry: Entry) {
        let (parent, name) = path.rsplit_once('/').unwrap_or(("", path));
        let children = self.children(parent);
        children.retain(|(other, _)| other != name);
        children.push((name.to_owned(), entry));
    }

    fn write(&mut self, path: &str, contents: &str) {
        self.put(
            path,
            Entry::File { contents: contents.to_owned(), mode: 0o100644, mtime: 1_000_000_000 },
        );
    }

    fn remove(&mut self, path: &str) -> Entry {
        let (parent, name) = path.rsplit_once('/').unwrap_or(("", path));
        let children = self.children(parent);
        match children.iter().position(|(other, _)| other == name) {
            Some(at) => children.remove(at).1,
            None => panic!("{path} is not there"),
        }
    }

    fn rename(&mut self, from: &str, to: &str) {
        let entry = self.remove(from);
        self.put(to, entry);
    }

    fn observe(&self) -> RootProbe {
        match &self.root {
            Entry::Directory { device, .. } => {
                RootProbe::Directory { device: *device, listing: listing(&self.root) }
            }
            _ => RootProbe::NotADirectory,
        }
    }
}

fn inode(name: &str) -> u64 {
    name.bytes().fold(1, |inode, byte| (inode * 31 + byte as u64) % 1_000_003) + 1
}

fn listing(entry: &Entry) -> Listing {
    match entry {
        Entry::Directory { children, .. } => Listing::Entries(
            children
                .iter()
                .map(|(name, child)| Observed {
                    name: name.clone(),
                    utf8: true,
                    probe: observed(name, child),
                })
                .collect(),
        ),
        _ => Listing::Failed { message: "unable to list".to_owned(), seen: Vec::new() },
    }
}

fn observed(name: &str, entry: &Entry) -> Probe {
    match entry {
        Entry::File { contents, mode, mtime } => Probe::File {
            metadata: FileMetadata {
                mtime_seconds: *mtime,
                mtime_nanos: 0,
                size: contents.len() as u64,
                inode: inode(name),
                mode: *mode,
            },
            reading: Reading::Read {
                digest: digest_of(contents.as_bytes()),
                bytes: contents.len() as u64,
            },
        },
        Entry::Link(target) => {
            Probe::Symlink { reading: LinkReading::Target { target: target.clone() } }
        }
        Entry::Directory { device, .. } => {
            Probe::Directory { device: *device, inode: inode(name), listing: listing(entry) }
        }
        Entry::Unreadable => Probe::Directory {
            device: DEVICE,
            inode: inode(name),
            listing: Listing::Failed {
                message: "permission denied".to_owned(),
                seen: Vec::new(),
            },
        },
        Entry::Other => Probe::Other,
    }
}

fn ignores(patterns: &[&str]) -> IgnoreSet {
    let patterns: Vec<String> = patterns.iter().map(|p| (*p).to_owned()).collect();
    match IgnoreSet::new(&patterns) {
        Ok(set) => set,
        Err(error) => panic!("patterns should compile: {error:?}"),
    }
}

fn options(patterns: &[&str]) -> ScanOptions {
    ScanOptions {
        ignores: ignores(patterns),
        behavior: FilesystemBehavior::default(),
        symlink_mode: SymlinkMode::default(),
        max_file_size: None,
        baseline_scanned_at: None,
        rehash: false,
        ignore_mounts: true,
        state_roots: Vec::new(),
        max_depth: MAX_SCAN_DEPTH,
    }
}

fn scan_with(disk: &Disk, baseline: Option<&Snapshot>, options: ScanOptions) -> Snapshot {
    scan(&disk.observe(), baseline, None, options, NOW).expect("scan should succeed").0
}

fn scan_fixture(disk: &Disk, baseline: Option<&Snapshot>) -> Snapshot {
    let mut options = options(&["excluded/"]);
    options.baseline_scanned_at = baseline.map(|baseline| baseline.scanned_at_seconds);
    scan_with(disk, baseline, options)
}

fn blake3_of(contents: &str) -> Digest {
    *blake3::hash(contents.as_bytes()).as_bytes()
}

fn child<'a>(node: &'a Node, path: &str) -> &'a Node {
    node_at(Some(node), path).unwrap_or_else(|| panic!("{path} should exist"))
}

fn file_content(node: &Node, path: &str) -> (Digest, bool) {
    match &child(node, path).content {
        Content::File { digest, executable, .. } => (*digest, *executable),
        other => panic!("{path} should be a file, found {other:?}"),
    }
}

fn names(node: &Node) -> Vec<&str> {
    node.children().iter().map(|child| child.name.as_str()).collect()
}

/// A hierarchy exercising every content kind the scanner produces.
fn fixture() -> Disk {
    let mut disk = Disk::new();
    disk.write("alpha.txt", "alpha");
    disk.write("beta.txt", "beta contents");
    disk.write("nested/inner.txt", "inner");
    disk.write("nested/deeper/leaf.txt", "leaf");
    disk.put(
        "tool.sh",
        Entry::File { contents: "#!/bin/sh\n".to_owned(), mode: 0o100755, mtime: 1_000_000_000 },
    );
    disk.put("link", Entry::Link("alpha.txt".to_owned()));
    disk.write("excluded/secret.txt", "secret");
    disk.write(".autobahn-tmp-staging-s1-beta", "staging");
    disk
}

#[test]
fn reserved_prefix_hides_only_real_temporaries() {
    assert!(autobahn_temporary(".autobahn-tmp-staging-s1-beta"));
    assert!(autobahn_temporary(".autobahn-tmp-recv-1234-7"));
    assert!(autobahn_temporary(".autobahn-tmp-probe-1234-7-token"));
    assert!(!autobahn_temporary(".autobahn-tmp-notes"));
    assert!(!autobahn_temporary(".autobahn-tmp"));
    assert!(!autobahn_temporary(".autobahn-tmp-"));
    assert!(!autobahn_temporary(".autobahn-tmp-staging-"));
    assert!(!autobahn_temporary(".autobahn-tmp-staging-notes"));
    assert!(!autobahn_temporary(".autobahn-tmp-staging-s1-gamma"));
    assert!(!autobahn_temporary(".autobahn-tmp-staging--beta"));
    assert!(!autobahn_temporary(".autobahn-tmp-staging-my notes-beta"));
    assert!(!autobahn_temporary(".autobahn-tmp-recv-x-7"));
    assert!(!autobahn_temporary(".autobahn-tmpother"));

    let mut disk = Disk::new();
    disk.write("normal.txt", "hello");
    disk.write(".autobahn-tmp-notes", "user content");
    disk.write(".autobahn-tmp-recv-1-1", "in-flight");
    let snapshot = scan_fixture(&disk, None);
    let root = snapshot.root.as_ref().expect("root");
    let names = names(root);
    assert!(names.contains(&"normal.txt"));
    assert!(
        names.contains(&".autobahn-tmp-notes"),
        "a user's reserved-prefix name must be visible: {names:?}"
    );
    assert!(
        !names.contains(&".autobahn-tmp-recv-1-1"),
        "a real temporary must stay hidden: {names:?}"
    );
    let notes = root.child(".autobahn-tmp-notes").expect("present");
    assert!(
        matches!(notes.content, Content::Problematic { .. }),
        "surfaced as a problem, not synchronized"
    );
}

#[test]
fn a_same_granule_rewrite_is_reread_not_trusted() {
    let at_now =
        |contents: &str| Entry::File { contents: contents.to_owned(), mode: 0o100644, mtime: NOW };
    let mut disk = Disk::new();
    disk.put("racy.txt", at_now("version-one"));
    let baseline = scan_fixture(&disk, None);

    // Same length, same modification time: the metadata cannot tell the
    // versions apart. Only the racy rule forces the re-read.
    disk.put("racy.txt", at_now("version-TWO"));
    let rescan = scan_fixture(&disk, Some(&baseline));
    assert_eq!(
        file_content(rescan.root.as_ref().expect("root"), "racy.txt").0,
        blake3_of("version-TWO"),
    );
}

#[test]
fn a_directory_past_the_depth_cap_is_problematic() {
    let mut disk = Disk::new();
    disk.write("a/b/c/d/e/f.txt", "deep");
    disk.write("a/shallow.txt", "shallow");
    let mut options = options(&["excluded/"]);
    options.max_depth = 3;
    let snapshot = scan_with(&disk, None, options);
    let root_node = snapshot.root.as_ref().expect("root");
    assert!(matches!(child(root_node, "a/shallow.txt").content, Content::File { .. }));
    assert!(matches!(child(root_node, "a/b/c").content, Content::Directory(_)));
    match &child(root_node, "a/b/c/d").content {
        Content::Problematic { message } => {
            assert!(message.contains("too deep"), "unexpected message: {message}")
        }
        other => panic!("expected a problem past the cap, found {other:?}"),
    }
}

#[test]
fn an_unmarked_tree_is_adopted_whole() {
    let mut disk = Disk::new();
    disk.write("a/one.txt", "one");
    disk.write("a/b/two.txt", "two");
    let baseline = scan_fixture(&disk, None);

    // With nothing marked, an incremental scan reproduces the baseline without
    // reading the filesystem at all, so even a change made behind its back is
    // invisible.
    disk.write("a/b/two.txt", "changed behind the scan's back");
    let mut dirty = DirtyPaths::default();
    dirty.mark("unrelated/elsewhere.txt");
    let (incremental, _) =
        scan(&disk.observe(), Some(&baseline), Some(&dirty), options(&[]), NOW)
            .expect("incremental scan should succeed");
    let before = baseline.root.as_ref().expect("root");
    let after = incremental.root.as_ref().expect("root");
    assert!(after.content_equal(before, true));
    assert!(after.identical(before));
}

/// Scans a disk twice from the same baseline, once reading everything, once
/// consulting only the marks, and asserts that the two agree exactly.
fn assert_incremental_matches_full(disk: &Disk, baseline: &Snapshot, marks: &[&str]) {
    let mut dirty = DirtyPaths::new();
    for mark in marks {
        dirty.mark(mark);
    }
    let (full, _) = scan(&disk.observe(), Some(baseline), None, options(&["excluded/"]), NOW)
        .expect("full scan should succeed");
    let (incremental, _) =
        scan(&disk.observe(), Some(baseline), Some(&dirty), options(&["excluded/"]), NOW)
            .expect("incremental scan should succeed");
    let (whole, part) = (full.root.as_ref().unwrap(), incremental.root.as_ref().unwrap());
    assert!(whole.identical(part), "full: {whole:#?}\nincremental: {part:#?}");
    assert_eq!(full.files, incremental.files, "file counts differ");
    assert_eq!(full.directories, incremental.directories, "directory counts differ");
    assert_eq!(full.symlinks, incremental.symlinks, "symlink counts differ");
    assert_eq!(full.total_file_size, incremental.total_file_size, "sizes differ");
}

#[test]
fn incremental_scans_agree_with_full_scans() {
    let mut disk = Disk::new();
    disk.write("top.txt", "top");
    disk.write("a/one.txt", "one");
    disk.write("a/b/two.txt", "two");
    disk.write("a/b/three.txt", "three");
    disk.write("c/four.txt", "four");
    let baseline = scan_fixture(&disk, None);

    // A modification deep in the tree.
    disk.write("a/b/two.txt", "two, revised");
    assert_incremental_matches_full(&disk, &baseline, &["a/b/two.txt"]);

    // A creation (its parent must be listed again to see it).
    disk.write("a/b/new.txt", "new");
    assert_incremental_matches_full(&disk, &baseline, &["a/b/two.txt", "a/b/new.txt"]);

    // A removal.
    disk.remove("a/b/three.txt");
    let mut marks = vec!["a/b/two.txt", "a/b/new.txt", "a/b/three.txt"];
    assert_incremental_matches_full(&disk, &baseline, &marks);

    // A whole new subtree.
    disk.write("d/deep/deeper/five.txt", "five");
    marks.push("d");
    assert_incremental_matches_full(&disk, &baseline, &marks);

    // A directory removed with content beneath it.
    disk.remove("c");
    marks.push("c");
    assert_incremental_matches_full(&disk, &baseline, &marks);

    // A file replaced by a directory of the same name.
    disk.remove("top.txt");
    disk.write("top.txt/inside.txt", "inside");
    marks.push("top.txt");
    assert_incremental_matches_full(&disk, &baseline, &marks);

    // A directory replaced by a file.
    disk.write("d", "a file where a directory was");
    assert_incremental_matches_full(&disk, &baseline, &marks);
}

#[test]
fn a_replaced_directory_is_read_again_not_adopted() {
    // An atomic deploy swap, with the same names at every level.
    let later =
        |contents: &str| Entry::File { contents: contents.to_owned(), mode: 0o100644, mtime: 5 };
    let mut disk = Disk::new();
    disk.write("live/f1", "old content");
    disk.write("live/sub/f2", "old deeper");
    disk.put("staging/f1", later("new content"));
    disk.put("staging/sub/f2", later("new deeper"));
    let baseline = scan_fixture(&disk, None);
    disk.rename("live", "old");
    disk.rename("staging", "live");
    assert_incremental_matches_full(&disk, &baseline, &["live", "old", "staging"]);
    let mut dirty = DirtyPaths::new();
    for mark in ["live", "old", "staging"] {
        dirty.mark(mark);
    }
    let (scanned, _) = scan(&disk.observe(), Some(&baseline), Some(&dirty), options(&[]), NOW)
        .expect("a scan");
    let root = scanned.root.as_ref().expect("root");
    assert_eq!(file_content(root, "live/f1").0, blake3_of("new content"));
    assert_eq!(file_content(root, "live/sub/f2").0, blake3_of("new deeper"));

    // A directory removed, made again, and populated.
    let mut disk = Disk::new();
    disk.write("x/keep", "old");
    disk.write("x/gone", "old");
    disk.write("x/sub/deep", "old");
    let baseline = scan_fixture(&disk, None);
    disk.remove("x");
    disk.put("x/keep", later("new"));
    disk.put("x/sub/deep", later("new"));
    assert_incremental_matches_full(&disk, &baseline, &["x", "x/keep", "x/sub"]);

    // A directory renamed over an empty one.
    let mut disk = Disk::new();
    disk.write("full/f1", "content");
    disk.write("full/sub/f2", "content");
    disk.put("empty", Entry::Directory { device: DEVICE, children: Vec::new() });
    let baseline = scan_fixture(&disk, None);
    disk.rename("full", "empty");
    assert_incremental_matches_full(&disk, &baseline, &["full", "empty"]);
}

#[test]
fn directory_swaps_at_any_depth_agree_with_full_scans() {
    let mut disk = Disk::new();
    for (round, level) in ["", "a/", "a/b/", "a/b/c/"].iter().enumerate() {
        let at = |name: &str| format!("{level}{name}");
        disk.write(&at("one/f"), &format!("one {round}"));
        disk.write(&at("one/deeper/g"), &format!("one deeper {round}"));
        disk.write(&at("two/f"), &format!("two {round}!"));
        disk.write(&at("two/deeper/g"), &format!("two deeper {round}!"));
        let baseline = scan_fixture(&disk, None);
        disk.rename(&at("one"), &at("spare"));
        disk.rename(&at("two"), &at("one"));
        disk.rename(&at("spare"), &at("two"));
        assert_incremental_matches_full(
            &disk,
            &baseline,
            &[&at("one"), &at("two"), &at("spare")],
        );
    }
}

#[test]
fn an_adopted_digest_keeps_the_recent_write_rule_of_its_scan() {
    let at_now =
        |contents: &str| Entry::File { contents: contents.to_owned(), mode: 0o100644, mtime: NOW };
    let mut disk = Disk::new();
    disk.put("racy.txt", at_now("version-one"));
    let full = scan_fixture(&disk, None);

    // Same length, same modification time, and by now long past: only when
    // the digest was recorded tells that it cannot be trusted.
    disk.put("racy.txt", at_now("version-TWO"));
    let mut dirty = DirtyPaths::default();
    dirty.mark("elsewhere.txt");
    let (incremental, _) =
        scan(&disk.observe(), Some(&full), Some(&dirty), options(&["excluded/"]), NOW + 100)
            .expect("incremental scan should succeed");
    let mut again = options(&["excluded/"]);
    again.baseline_scanned_at = Some(incremental.scanned_at_seconds);
    let (rescan, _) = scan(&disk.observe(), Some(&incremental), None, again, NOW + 200)
        .expect("a scan");
    assert_eq!(
        file_content(rescan.root.as_ref().expect("root"), "racy.txt").0,
        blake3_of("version-TWO"),
    );
}

#[test]
fn a_directory_that_is_not_listed_again_need_not_be_listable() {
    let mut disk = Disk::new();
    disk.write("other.txt", "other");
    disk.write("a/b/two.txt", "two");
    let baseline = scan_fixture(&disk, None);
    disk.write("a/b/two.txt", "two, revised");
    // Only the directory that holds the change is listed again: of those above
    // it, the one entry on the way is looked at, and the rest is adopted.
    let unlistable = |name: &str, listing: Listing| {
        let probe = Probe::Directory { device: DEVICE, inode: inode(name), listing };
        let seen = vec![Observed { name: name.to_owned(), utf8: true, probe }];
        Listing::Failed { message: "permission denied".to_owned(), seen }
    };
    let inner = match disk.remove("a") {
        Entry::Directory { children, .. } => listing(&children[0].1),
        _ => panic!("a directory"),
    };
    let root = RootProbe::Directory {
        device: DEVICE,
        listing: unlistable("a", unlistable("b", inner)),
    };
    let mut dirty = DirtyPaths::new();
    dirty.mark("a/b/two.txt");
    let (snapshot, _) =
        scan(&root, Some(&baseline), Some(&dirty), options(&[]), NOW).expect("a scan");
    let node = snapshot.root.as_ref().expect("root");
    assert_eq!(names(node), vec!["a", "other.txt"]);
    assert_eq!(file_content(node, "a/b/two.txt").0, blake3_of("two, revised"));
    // A full scan lists everything.
    let read = scan(&root, Some(&baseline), None, options(&[]), NOW);
    let failed = match read {
        Err(_) => true,
        Ok((snapshot, _)) => {
            matches!(snapshot.root.expect("root").content, Content::Problematic { .. })
        }
    };
    assert!(failed);
}

#[test]
fn symlink_modes_govern_scanning() {
    let mut disk = Disk::new();
    disk.write("file.txt", "content");
    disk.put("relative", Entry::Link("file.txt".to_owned()));
    disk.put("absolute", Entry::Link("/etc/passwd".to_owned()));
    disk.put("escaping", Entry::Link("../escape".to_owned()));
    let scan_as = |mode: SymlinkMode| {
        let mut options = options(&[]);
        options.symlink_mode = mode;
        scan_with(&disk, None, options)
    };

    // Raw records everything verbatim.
    assert_eq!(scan_as(SymlinkMode::Raw).symlinks, 3);

    // Ignore makes symbolic links invisible (untracked).
    let snapshot = scan_as(SymlinkMode::Ignore);
    assert_eq!(snapshot.symlinks, 0);
    let root = snapshot.root.as_ref().expect("root should exist");
    assert!(matches!(child(root, "relative").content, Content::Untracked));

    // Portable records only validated targets; the rest are problems.
    let snapshot = scan_as(SymlinkMode::Portable);
    assert_eq!(snapshot.symlinks, 1);
    let root = snapshot.root.as_ref().expect("root should exist");
    assert!(matches!(child(root, "relative").content, Content::Symlink { .. }));
    for name in ["absolute", "escaping"] {
        assert!(
            matches!(child(root, name).content, Content::Problematic { .. }),
            "{name} should be problematic"
        );
    }
}

#[test]
fn portable_target_validation() {
    assert!(validate_portable_target("link", "sibling.txt").is_ok());
    assert!(validate_portable_target("dir/link", "../top.txt").is_ok());
    assert!(validate_portable_target("dir/link", "sub/./inner").is_ok());
    assert!(validate_portable_target("link", "/absolute").is_err());
    assert!(validate_portable_target("link", "../escapes").is_err());
    assert!(validate_portable_target("dir/link", "../../escapes").is_err());
    assert!(validate_portable_target("link", "c:drive").is_err());
    assert!(matches!(validate_portable_target("link", "c:drive"), Err(TargetError::Colon)));
    assert!(matches!(validate_portable_target("link", "/a"), Err(TargetError::Absolute)));
    assert!(matches!(validate_portable_target("link", ".."), Err(TargetError::Escapes)));
}

#[test]
fn decomposing_volumes_yield_recomposed_names() {
    let mut disk = Disk::new();
    disk.write("cafe\u{0301}.txt", "decomposed on disk");
    let mut decomposing = options(&[]);
    decomposing.behavior =
        FilesystemBehavior { decomposes_unicode: true, ..FilesystemBehavior::default() };
    let snapshot = scan_with(&disk, None, decomposing);
    let root = snapshot.root.expect("root should exist");
    assert!(root.child("caf\u{00E9}.txt").is_some(), "{root:?}");
    assert!(root.child("cafe\u{0301}.txt").is_none());

    // Without the flag, names pass through byte-exact.
    let snapshot = scan_with(&disk, None, options(&[]));
    let root = snapshot.root.expect("root should exist");
    assert!(root.child("cafe\u{0301}.txt").is_some());
}

#[test]
fn missing_root_yields_empty_snapshot() {
    let (snapshot, _) = scan(&RootProbe::Missing, None, None, options(&[]), NOW)
        .expect("a missing root is not an error");
    assert!(snapshot.root.is_none());
    assert!(snapshot.preserves_executability);
    assert_eq!(snapshot.directories, 0);
    assert_eq!(snapshot.files, 0);
    assert_eq!(snapshot.symlinks, 0);
    assert_eq!(snapshot.total_file_size, 0);
}

#[test]
fn non_directory_root_is_rejected() {
    let read = scan(&RootProbe::NotADirectory, None, None, options(&[]), NOW);
    let error = read.expect_err("rejected");
    assert_eq!(error.message("/r"), "synchronization root /r is not a directory");
    let unprobed = RootProbe::Failed { message: "denied".to_owned() };
    let read = scan(&unprobed, None, None, options(&[]), NOW);
    assert!(matches!(read, Err(ScanError::Unprobed { .. })));
}

#[test]
fn scans_a_mixed_hierarchy() {
    let snapshot = scan_fixture(&fixture(), None);
    let root = snapshot.root.as_ref().expect("root should exist");
    assert_eq!(root.name, "");

    // Children are name-sorted, and the staging temporary is invisible.
    assert_eq!(
        names(root),
        vec!["alpha.txt", "beta.txt", "excluded", "link", "nested", "tool.sh"]
    );

    // Files carry correct digests and executability.
    assert_eq!(file_content(root, "alpha.txt"), (blake3_of("alpha"), false));
    assert_eq!(file_content(root, "nested/deeper/leaf.txt"), (blake3_of("leaf"), false));
    assert_eq!(file_content(root, "tool.sh"), (blake3_of("#!/bin/sh\n"), true));

    // Symbolic link targets are stored verbatim.
    match &child(root, "link").content {
        Content::Symlink { target } => assert_eq!(target, "alpha.txt"),
        other => panic!("expected a symlink, found {other:?}"),
    }

    // Ignored directories are untracked and never descended.
    let excluded = child(root, "excluded");
    assert!(matches!(excluded.content, Content::Untracked));
    assert!(excluded.children().is_empty());

    // File metadata is recorded for digest reuse.
    match &child(root, "alpha.txt").content {
        Content::File { metadata, .. } => {
            assert_eq!(metadata.size, 5);
            assert_ne!(metadata.inode, 0);
            assert_eq!(metadata.mode & MODE_TYPE_MASK, 0o100000);
        }
        other => panic!("expected a file, found {other:?}"),
    }
}

#[test]
fn statistics_count_synchronizable_content() {
    let mut snapshot = scan_fixture(&fixture(), None);
    // The root, "nested", and "nested/deeper": the ignored directory is
    // untracked and therefore uncounted.
    assert_eq!(snapshot.directories, 3);
    assert_eq!(snapshot.files, 5);
    assert_eq!(snapshot.symlinks, 1);
    let size = ("alpha".len()
        + "beta contents".len()
        + "inner".len()
        + "leaf".len()
        + "#!/bin/sh\n".len()) as u64;
    assert_eq!(snapshot.total_file_size, size);
    assert!(snapshot.preserves_executability);
    snapshot.files = 0;
    recount(&mut snapshot);
    assert_eq!((snapshot.files, snapshot.total_file_size), (5, size));
}

#[test]
fn unchanged_rescan_adopts_the_entire_hierarchy() {
    let disk = fixture();
    let baseline = scan_fixture(&disk, None);
    let rescan = scan_fixture(&disk, Some(&baseline));
    assert!(baseline.root.as_ref().unwrap().identical(rescan.root.as_ref().unwrap()));
    let fresh = scan_fixture(&disk, None);
    assert_eq!(rescan.directories, fresh.directories);
    assert_eq!(rescan.files, fresh.files);
    assert_eq!(rescan.symlinks, fresh.symlinks);
    assert_eq!(rescan.total_file_size, fresh.total_file_size);
}

#[test]
fn rescan_rehashes_changes_and_adopts_untouched_siblings() {
    let mut disk = fixture();
    let baseline = scan_fixture(&disk, None);
    let baseline_root = baseline.root.as_ref().expect("root should exist");

    // Rewrite one root-level file with content of a different length, so that
    // the change is visible regardless of mtime granularity.
    disk.write("alpha.txt", "alpha, revised");
    let rescan = scan_fixture(&disk, Some(&baseline));
    let rescan_root = rescan.root.as_ref().expect("root should exist");

    // The rewritten file is re-digested...
    assert_eq!(file_content(rescan_root, "alpha.txt").0, blake3_of("alpha, revised"));
    // ...the changed directory is fresh...
    assert!(!baseline_root.identical(rescan_root));
    // ...but the untouched sibling subtree is adopted wholesale.
    assert!(child(baseline_root, "nested").identical(child(rescan_root, "nested")));
    assert_eq!(
        rescan.total_file_size,
        baseline.total_file_size + ("alpha, revised".len() - "alpha".len()) as u64
    );
}

#[test]
fn matching_metadata_reuses_the_baseline_digest() {
    let mut disk = fixture();
    let mut baseline = scan_fixture(&disk, None);

    // Poison a baseline digest without touching the file. Only a scan that
    // reused the recorded one can reproduce the poison.
    let poison = [0xAB; 32];
    let root = baseline.root.as_mut().expect("root should exist");
    if let Content::Directory(children) = &mut root.content {
        for child in children {
            if child.name == "alpha.txt" {
                if let Content::File { digest, .. } = &mut child.content {
                    *digest = poison;
                }
            }
        }
    }
    let rescan = scan_fixture(&disk, Some(&baseline));
    let rescan_root = rescan.root.as_ref().expect("root should exist");
    assert_eq!(file_content(rescan_root, "alpha.txt").0, poison);
    // A file whose size changed is re-read despite the baseline entry.
    disk.write("beta.txt", "beta contents, extended");
    let third = scan_fixture(&disk, Some(&rescan));
    let third_root = third.root.as_ref().expect("root should exist");
    assert_eq!(file_content(third_root, "beta.txt").0, blake3_of("beta contents, extended"));

    // Asked to read everything again, a scan finds the poison and says so.
    let mut verifying = options(&["excluded/"]);
    verifying.baseline_scanned_at = Some(baseline.scanned_at_seconds);
    verifying.rehash = true;
    let disk = fixture();
    let (verified, silent) =
        scan(&disk.observe(), Some(&baseline), None, verifying, NOW).expect("a scan");
    assert_eq!(
        file_content(verified.root.as_ref().expect("root"), "alpha.txt").0,
        blake3_of("alpha")
    );
    assert_eq!(silent, vec!["alpha.txt"]);
}

#[test]
fn a_digest_of_unknown_age_is_not_relied_on() {
    let metadata = |mtime_seconds: i64| FileMetadata {
        mtime_seconds,
        mtime_nanos: 0,
        size: 3,
        inode: 9,
        mode: 0o100644,
    };
    let recorded = |mtime_seconds: i64| Node {
        name: "f".to_owned(),
        content: Content::File {
            digest: [7; 32],
            executable: false,
            metadata: metadata(mtime_seconds),
        },
    };
    let reused = |mtime: i64, scanned_at: Option<i64>| {
        reusable_digest(Some(&recorded(mtime)), &metadata(mtime), scanned_at).is_some()
    };
    assert!(reused(997, Some(1_000)));
    assert!(!reused(998, Some(1_000)));
    for mtime in [1, -1_000] {
        assert!(!reused(mtime, None));
        assert!(!reused(mtime, Some(0)));
    }
    assert!(reusable_digest(Some(&recorded(5)), &metadata(6), Some(1_000)).is_none());
    assert!(reusable_digest(None, &metadata(5), Some(1_000)).is_none());
}

#[test]
fn a_file_that_is_known_is_not_read() {
    let baseline = scan_fixture(&fixture(), None);
    // Every reading fails, and nothing but the ignored file was ever due.
    fn unreadable(listing: Listing) -> Listing {
        match listing {
            Listing::Failed { message, seen } => Listing::Failed { message, seen },
            Listing::Entries(list) => Listing::Entries(
                list.into_iter()
                    .map(|entry| Observed {
                        name: entry.name,
                        utf8: entry.utf8,
                        probe: match entry.probe {
                            Probe::File { metadata, .. } => {
                                Probe::File { metadata, reading: Reading::Changed }
                            }
                            Probe::Directory { device, inode, listing } => Probe::Directory {
                                device,
                                inode,
                                listing: unreadable(listing),
                            },
                            other => other,
                        },
                    })
                    .collect(),
            ),
        }
    }
    let root = match fixture().observe() {
        RootProbe::Directory { device, listing } => {
            RootProbe::Directory { device, listing: unreadable(listing) }
        }
        other => other,
    };
    let mut again = options(&["excluded/"]);
    again.baseline_scanned_at = Some(baseline.scanned_at_seconds);
    let (rescan, _) = scan(&root, Some(&baseline), None, again, NOW).expect("a scan");
    assert!(rescan.root.as_ref().unwrap().identical(baseline.root.as_ref().unwrap()));
    // Without the baseline, they would have been.
    let (fresh, _) = scan(&root, None, None, options(&["excluded/"]), NOW).expect("a scan");
    assert!(matches!(
        child(fresh.root.as_ref().unwrap(), "alpha.txt").content,
        Content::Problematic { .. }
    ));
}

#[test]
fn unicode_names_are_scanned_and_sorted() {
    let mut disk = Disk::new();
    disk.write("Ünicode.txt", "u");
    disk.write("日本語/файл.txt", "b");
    disk.write("a.txt", "a");
    let snapshot = scan_with(&disk, None, options(&[]));
    let root = snapshot.root.as_ref().expect("root should exist");

    // Sorting is by UTF-8 byte order, so ASCII precedes the rest.
    assert_eq!(names(root), vec!["a.txt", "Ünicode.txt", "日本語"]);
    assert_eq!(file_content(root, "Ünicode.txt").0, blake3_of("u"));
    assert_eq!(file_content(root, "日本語/файл.txt").0, blake3_of("b"));
}

#[test]
fn non_utf8_names_are_marked_and_deduplicated() {
    // Two names that render to the same text, beside an ordinary file.
    let bad = || Observed {
        name: "\u{FFFD}\u{FFFD}".to_owned(),
        utf8: false,
        probe: Probe::Other,
    };
    let plain = Entry::File { contents: "plain".to_owned(), mode: 0o100644, mtime: 0 };
    let root = RootProbe::Directory {
        device: DEVICE,
        listing: Listing::Entries(vec![
            bad(),
            Observed {
                name: "plain.txt".to_owned(),
                utf8: true,
                probe: observed("plain.txt", &plain),
            },
            bad(),
        ]),
    };
    let (snapshot, _) = scan(&root, None, None, options(&[]), NOW).expect("a scan");
    let root = snapshot.root.expect("root");
    assert_eq!(root.children().len(), 2);
    let marked = root
        .children()
        .iter()
        .find(|child| child.name.ends_with(" (non-UTF-8)"))
        .expect("the non-UTF-8 entry should be recorded");
    match &marked.content {
        Content::Problematic { message } => assert_eq!(message, "non-UTF-8 filename"),
        other => panic!("expected problematic content, found {other:?}"),
    }
    assert_eq!(snapshot.files, 1);
}

#[test]
fn an_ignored_directory_with_no_re_inclusion_is_never_descended() {
    let mut disk = Disk::new();
    disk.write("vendor/junk.txt", "junk");
    disk.write("src/main.rs", "fn main() {}");
    let snapshot = scan_with(&disk, None, options(&["vendor"]));
    let root = snapshot.root.as_ref().expect("root should exist");

    let vendor = child(root, "vendor");
    assert!(matches!(vendor.content, Content::Untracked));
    assert!(vendor.child("junk.txt").is_none(), "never opened");
    assert_eq!(snapshot.files, 1);
    assert_eq!(snapshot.directories, 2);
}

#[test]
fn a_negation_beneath_an_ignored_directory_is_honoured() {
    let mut disk = Disk::new();
    disk.write("vendor/keep.txt", "keep");
    disk.write("vendor/junk.txt", "junk");
    disk.write("src/main.rs", "fn main() {}");
    let snapshot = scan_with(&disk, None, options(&["vendor", "!vendor/keep.txt"]));
    let root = snapshot.root.as_ref().expect("root should exist");

    let vendor = child(root, "vendor");
    assert!(
        matches!(vendor.content, Content::Directory(_)),
        "walked, because a negation names something inside"
    );
    let keep = vendor.child("keep.txt").expect("re-included");
    assert!(matches!(keep.content, Content::File { .. }));
    let junk = vendor.child("junk.txt").expect("present but untracked");
    assert!(
        matches!(junk.content, Content::Untracked),
        "inside the region, everything not re-included stays ignored"
    );
    assert_eq!(snapshot.files, 2);
    assert_eq!(snapshot.directories, 3);
}

#[test]
fn a_re_included_directory_comes_back_with_its_contents() {
    let mut disk = Disk::new();
    disk.write("vendor/keep/deep/file.txt", "deep");
    disk.write("vendor/junk.txt", "junk");
    let snapshot = scan_with(&disk, None, options(&["vendor", "!vendor/keep"]));
    let root = snapshot.root.as_ref().expect("root should exist");

    let keep = child(child(root, "vendor"), "keep");
    assert!(matches!(keep.content, Content::Directory(_)));
    let file = child(child(keep, "deep"), "file.txt");
    assert!(
        matches!(file.content, Content::File { .. }),
        "nothing inside a re-included directory is still in the region"
    );
    assert!(matches!(
        child(root, "vendor").child("junk.txt").expect("present").content,
        Content::Untracked
    ));
}

#[test]
fn unreadable_directories_become_problematic() {
    let mut disk = Disk::new();
    disk.put("locked", Entry::Unreadable);
    disk.put("pipe", Entry::Other);
    let snapshot = scan_with(&disk, None, options(&[]));
    let root = snapshot.root.as_ref().expect("root");
    assert!(matches!(child(root, "locked").content, Content::Problematic { .. }));
    assert!(!matches!(child(root, "pipe").content, Content::File { .. }));
}

#[test]
fn a_directory_on_another_device_is_recorded_and_left_alone() {
    let mut disk = Disk::new();
    disk.write("here.txt", "here");
    let inside = Entry::File { contents: "x".to_owned(), mode: 0o100644, mtime: 0 };
    disk.put(
        "mount",
        Entry::Directory { device: DEVICE + 1, children: vec![("inside".to_owned(), inside)] },
    );
    let left_alone = scan_with(&disk, None, options(&[]));
    assert_eq!(left_alone.mount_points, vec!["mount"]);
    assert_eq!(left_alone.files, 1);
    assert!(matches!(
        child(left_alone.root.as_ref().unwrap(), "mount").content,
        Content::Untracked
    ));
    // An incremental scan that relists the root adopts the mount points it
    // does not probe again, and must still report them.
    let mut dirty = DirtyPaths::default();
    dirty.mark("here.txt");
    let (again, _) =
        scan(&disk.observe(), Some(&left_alone), Some(&dirty), options(&[]), NOW).expect("a scan");
    assert_eq!(again.mount_points, vec!["mount"]);

    // Followed, they are still recorded, and walked.
    let mut crossing = options(&[]);
    crossing.ignore_mounts = false;
    let followed = scan_with(&disk, None, crossing);
    assert_eq!(followed.mount_points, vec!["mount"]);
    assert_eq!(followed.files, 2);
    assert!(matches!(
        child(followed.root.as_ref().unwrap(), "mount").content,
        Content::Directory(_)
    ));
}

#[test]
fn a_state_root_inside_the_root_is_untracked() {
    let mut disk = Disk::new();
    disk.write(".autobahn/sessions/s1/ancestor", "state");
    disk.write("kept.txt", "kept");
    let mut options = options(&[]);
    options.state_roots = vec![(DEVICE, inode(".autobahn"))];
    let snapshot = scan_with(&disk, None, options);
    let root = snapshot.root.as_ref().expect("root");
    assert!(matches!(child(root, ".autobahn").content, Content::Untracked));
    assert_eq!(snapshot.files, 1);
    let mut roots = vec!["/a".to_owned()];
    exclude_state_root(&mut roots, "/b");
    exclude_state_root(&mut roots, "/b");
    assert_eq!(roots, vec!["/a", "/b"]);
}

#[test]
fn a_file_over_the_limit_is_untracked() {
    let mut disk = Disk::new();
    disk.write("big.bin", "12345678");
    disk.write("small.bin", "1234");
    let mut options = options(&[]);
    options.max_file_size = Some(4);
    let snapshot = scan_with(&disk, None, options);
    let root = snapshot.root.as_ref().expect("root");
    assert!(matches!(child(root, "big.bin").content, Content::Untracked));
    assert!(matches!(child(root, "small.bin").content, Content::File { .. }));
}

#[test]
fn recomposition_normalizes_to_nfc() {
    assert_eq!(recompose("plain-ascii.txt"), "plain-ascii.txt");
    // "e" + combining acute accent recomposes to é.
    assert_eq!(recompose("cafe\u{0301}.txt"), "caf\u{00E9}.txt");
    // Already-composed names are unchanged.
    assert_eq!(recompose("caf\u{00E9}.txt"), "caf\u{00E9}.txt");
}

#[test]
fn probing_reports_what_was_observed() {
    let behavior = probe(None, None, None);
    assert!(behavior.preserves_executability);
    assert!(!behavior.decomposes_unicode);
    assert!(!behavior.case_insensitive);
    let behavior = probe(Some(false), Some((true, false)), Some(true));
    assert!(!behavior.preserves_executability);
    assert!(behavior.normalization_insensitive, "a decomposing volume finds either form");
    assert!(behavior.case_insensitive);
    assert!(keeps_executability(0o600, 0o700));
    assert!(!keeps_executability(0o700, 0o700));
    // Probe files are names no scan records.
    assert!(autobahn_temporary(&probe_name(1234, 7, "token")));
    assert_eq!(reads_back_decomposed(&[], "marker"), None);
}

#[test]
fn a_digest_read_in_pieces_is_the_digest_of_the_whole() {
    let mut run = DigestRun::new(6);
    assert!(run.feed(b"abc"));
    assert!(run.feed(b"def"));
    let (digest, read) = run.finish();
    assert_eq!(digest, blake3_of("abcdef"));
    assert_eq!(digest, digest_of(b"abcdef"));
    assert_eq!(read, 6);
    // A file that grows past its allowance is given up on.
    let mut run = DigestRun::new(0);
    let chunk = vec![0u8; DIGEST_GROWTH_ALLOWANCE as usize];
    assert!(run.feed(&chunk));
    assert!(!run.feed(b"x"));
}

#[test]
fn marks_made_twice_or_in_another_order_are_the_same() {
    let mut disk = Disk::new();
    disk.write("a/one.txt", "one");
    disk.write("b/two.txt", "two");
    let baseline = scan_fixture(&disk, None);
    disk.write("a/one.txt", "one, changed");
    disk.write("b/two.txt", "two, changed");
    let scanned = |marks: &[&str]| {
        let mut dirty = DirtyPaths::new();
        assert!(dirty.is_empty());
        for mark in marks {
            dirty.mark(mark);
        }
        scan(&disk.observe(), Some(&baseline), Some(&dirty), options(&[]), NOW)
            .expect("a scan")
            .0
            .root
            .expect("root")
    };
    let once = scanned(&["a/one.txt", "b/two.txt"]);
    assert!(once.identical(&scanned(&["b/two.txt", "a/one.txt"])));
    assert!(once.identical(&scanned(&["a/one.txt", "a/one.txt", "b/two.txt"])));
    assert_eq!(file_content(&once, "b/two.txt").0, blake3_of("two, changed"));
}

#[test]
fn a_directory_that_is_not_walked_is_not_opened() {
    let mut asked = options(&["excluded/", "kept/*", "!kept/this"]);
    asked.state_roots = vec![(DEVICE, 42)];
    asked.max_depth = 2;
    let opens = |device: u64, inode: u64, path: &str, depth: usize| {
        opens_directory(&asked, device, inode, path, false, DEVICE, depth)
    };
    assert_eq!(opens(DEVICE, 1, "a", 0), Some(false));
    assert_eq!(opens(DEVICE, 42, "a", 0), None);
    assert_eq!(opens(DEVICE + 1, 42, "a", 0), None);
    assert_eq!(opens(DEVICE, 1, "excluded", 0), None);
    assert_eq!(opens(DEVICE, 1, "kept/this", 1), Some(false));
    assert_eq!(opens(DEVICE, 1, "kept/that", 1), None);
    assert_eq!(opens(DEVICE, 1, "a/b/c", 2), None);
    asked.ignore_mounts = false;
    let mounted = opens_directory(&asked, DEVICE + 1, 42, "a", false, DEVICE, 0);
    assert_eq!(mounted, Some(false));
}

#[test]
fn what_is_not_opened_changes_no_scan() {
    for filled in [false, true] {
        let mut disk = Disk::new();
        disk.write("one.txt", "one");
        let mut children = Vec::new();
        if filled {
            let entry =
                Entry::File { contents: "x".to_owned(), mode: 0o100644, mtime: 1_000_000_000 };
            children.push(("x".to_owned(), entry));
        }
        disk.put("mounted", Entry::Directory { device: DEVICE + 1, children });
        let scanned = scan_with(&disk, None, options(&[]));
        let root = scanned.root.as_ref().expect("root");
        assert!(matches!(child(root, "mounted").content, Content::Untracked));
        assert_eq!((scanned.files, scanned.directories), (1, 1));
    }
}

/// A listing with a name that is not text and one that is reserved, beside a
/// directory that cannot be read and one that holds a file.
fn odd_listing(contents: &str) -> RootProbe {
    let file = Entry::File { contents: contents.to_owned(), mode: 0o100644, mtime: 1_000_000_000 };
    let seen = |name: &str, utf8: bool, entry: &Entry| Observed {
        name: name.to_owned(),
        utf8,
        probe: observed(name, entry),
    };
    let held = Entry::Directory { device: DEVICE, children: vec![("f".to_owned(), file)] };
    RootProbe::Directory {
        device: DEVICE,
        listing: Listing::Entries(vec![
            seen(".autobahn-tmp-notes", true, &Entry::Other),
            seen("caf\u{fffd}", false, &Entry::Other),
            seen("caf\u{fffd}", false, &Entry::Other),
            seen("held", true, &held),
            seen("locked", true, &Entry::Unreadable),
        ]),
    }
}

#[test]
fn marking_what_changed_is_enough_beside_what_cannot_be_recorded() {
    let (baseline, _) =
        scan(&odd_listing("one"), None, None, options(&[]), NOW).expect("a first scan");
    for marks in [&["held/f"][..], &["held"], &["held/f", "locked"]] {
        let mut dirty = DirtyPaths::new();
        for mark in marks {
            dirty.mark(mark);
        }
        let now = odd_listing("other");
        let (full, _) = scan(&now, None, None, options(&[]), NOW).expect("a full scan");
        let (part, _) = scan(&now, Some(&baseline), Some(&dirty), options(&[]), NOW)
            .expect("an incremental scan");
        let (whole, part) = (full.root.as_ref().unwrap(), part.root.as_ref().unwrap());
        assert!(whole.identical(part), "full: {whole:#?}\nincremental: {part:#?}");
        assert_eq!(
            names(whole),
            [".autobahn-tmp-notes", "caf\u{fffd} (non-UTF-8)", "held", "locked"]
        );
    }
}
