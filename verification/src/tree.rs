//! Trees of scanned content.
use crate::digest::{same_digest, Digest};
use crate::text::{chars_of, same_text, segments, split, string_of, texts};
use vstd::prelude::*;

verus! {

/// What a file's entry said when its content was read.
#[derive(Clone, Copy, Debug, PartialEq, Eq)]
pub struct FileMetadata {
    /// The modification time, in seconds.
    pub mtime_seconds: i64,
    /// The rest of the modification time, in nanoseconds.
    pub mtime_nanos: u32,
    /// The size, in bytes.
    pub size: u64,
    /// The inode.
    pub inode: u64,
    /// The mode, with the type bits.
    pub mode: u32,
}

/// What an entry holds.
#[derive(Debug)]
pub enum Content {
    /// A directory, with its entries.
    Directory(Vec<Node>),
    /// A file.
    File {
        /// The digest of its content.
        digest: Digest,
        /// Whether it may be executed.
        executable: bool,
        /// What its entry said.
        metadata: FileMetadata,
    },
    /// A symbolic link.
    Symlink {
        /// Where it points.
        target: String,
    },
    /// Something that is left alone.
    Untracked,
    /// Something that could not be scanned.
    Problematic {
        /// Why.
        message: String,
    },
}

/// An entry of a tree.
#[derive(Debug)]
pub struct Node {
    /// Its name; the root's is empty.
    pub name: String,
    /// What it holds.
    pub content: Content,
}

/// What an entry's content is.
#[verifier::ext_equal]
pub enum ContentView {
    /// A directory, with its entries.
    Directory(Seq<NodeView>),
    /// A file.
    File {
        /// The digest of its content.
        digest: Seq<u8>,
        /// Whether it may be executed.
        executable: bool,
        /// What its entry said.
        metadata: FileMetadata,
    },
    /// A symbolic link.
    Symlink {
        /// Where it points.
        target: Seq<char>,
    },
    /// Something that is left alone.
    Untracked,
    /// Something that could not be scanned.
    Problematic {
        /// Why.
        message: Seq<char>,
    },
}

/// What an entry is.
#[verifier::ext_equal]
pub struct NodeView {
    /// Its name.
    pub name: Seq<char>,
    /// What it holds.
    pub content: ContentView,
}

impl Content {
    /// What the content is.
    pub open spec fn view(self) -> ContentView
        decreases self,
    {
        match self {
            Content::Directory(children) => ContentView::Directory(
                Seq::new(
                    children@.len(),
                    |i: int|
                        if 0 <= i < children@.len() {
                            children@[i].view()
                        } else {
                            arbitrary()
                        },
                ),
            ),
            Content::File { digest, executable, metadata } => ContentView::File {
                digest: digest@,
                executable,
                metadata,
            },
            Content::Symlink { target } => ContentView::Symlink { target: target@ },
            Content::Untracked => ContentView::Untracked,
            Content::Problematic { message } => ContentView::Problematic { message: message@ },
        }
    }
}

impl Node {
    /// What the entry is.
    pub open spec fn view(self) -> NodeView
        decreases self,
    {
        NodeView { name: self.name@, content: self.content.view() }
    }
}

/// What the entries of a list are.
pub open spec fn node_views(nodes: Seq<Node>) -> Seq<NodeView> {
    Seq::new(nodes.len(), |i: int| nodes[i].view())
}

/// The entries of a directory, and none of anything else.
pub open spec fn entries(content: ContentView) -> Seq<NodeView> {
    match content {
        ContentView::Directory(children) => children,
        _ => Seq::empty(),
    }
}

/// What an optional node is.
pub open spec fn node_option(node: Option<&Node>) -> Option<NodeView> {
    match node {
        Some(node) => Some(node.view()),
        None => None,
    }
}

/// What an optional node of one's own is.
pub open spec fn owned_option(node: Option<Node>) -> Option<NodeView> {
    match node {
        Some(node) => Some(node.view()),
        None => None,
    }
}

/// A directory's view is the views of its entries.
pub proof fn lemma_directory_view(children: Vec<Node>)
    ensures
        Content::Directory(children).view() == ContentView::Directory(node_views(children@)),
{
    assert(Content::Directory(children).view()->Directory_0 =~= node_views(children@));
}

/// The entry with the given name, the first where there are several.
pub open spec fn named(nodes: Seq<NodeView>, name: Seq<char>) -> Option<NodeView>
    decreases nodes.len(),
{
    if nodes.len() == 0 {
        None
    } else {
        match named(nodes.drop_last(), name) {
            Some(node) => Some(node),
            None => if nodes.last().name == name {
                Some(nodes.last())
            } else {
                None
            },
        }
    }
}

/// A name that no entry has finds none.
pub proof fn lemma_unnamed(nodes: Seq<NodeView>, name: Seq<char>)
    requires
        forall|k: int| 0 <= k < nodes.len() ==> (#[trigger] nodes[k]).name != name,
    ensures
        named(nodes, name) is None,
    decreases nodes.len(),
{
    if nodes.len() > 0 {
        assert forall|k: int| 0 <= k < nodes.drop_last().len() implies (
        #[trigger] nodes.drop_last()[k]).name != name by {
            assert(nodes[k].name != name);
        }
        lemma_unnamed(nodes.drop_last(), name);
        assert(nodes[nodes.len() - 1].name != name);
    }
}

/// The first entry with a name is the one found.
pub proof fn lemma_named_at(nodes: Seq<NodeView>, name: Seq<char>, i: int)
    requires
        0 <= i < nodes.len(),
        nodes[i].name == name,
        forall|k: int| 0 <= k < i ==> (#[trigger] nodes[k]).name != name,
    ensures
        named(nodes, name) == Some(nodes[i]),
    decreases nodes.len(),
{
    if i == nodes.len() - 1 {
        assert forall|k: int| 0 <= k < nodes.drop_last().len() implies (
        #[trigger] nodes.drop_last()[k]).name != name by {
            assert(nodes[k].name != name);
        }
        lemma_unnamed(nodes.drop_last(), name);
    } else {
        assert forall|k: int| 0 <= k < i implies (#[trigger] nodes.drop_last()[k]).name
            != name by {
            assert(nodes[k].name != name);
        }
        lemma_named_at(nodes.drop_last(), name, i);
    }
}

/// Where the entry with the given name is.
pub fn position_named(nodes: &[Node], name: &str) -> (r: Option<usize>)
    ensures
        match r {
            Some(i) => i < nodes@.len() && named(node_views(nodes@), name@) == Some(
                nodes@[i as int].view(),
            ),
            None => named(node_views(nodes@), name@) is None,
        },
{
    let mut i: usize = 0;
    while i < nodes.len()
        invariant
            i <= nodes.len(),
            forall|k: int| 0 <= k < i ==> (#[trigger] node_views(nodes@)[k]).name != name@,
        decreases nodes.len() - i,
    {
        if same_text(nodes[i].name.as_str(), name) {
            proof {
                lemma_named_at(node_views(nodes@), name@, i as int);
            }
            return Some(i);
        }
        i += 1;
    }
    proof {
        lemma_unnamed(node_views(nodes@), name@);
    }
    None
}

impl Node {
    /// The entries of a directory, and none of anything else.
    pub fn children(&self) -> (r: &[Node])
        ensures
            node_views(r@) == entries(self.view().content),
    {
        match &self.content {
            Content::Directory(children) => {
                proof {
                    lemma_directory_view(*children);
                }
                children.as_slice()
            },
            _ => {
                let none: &[Node] = &[];
                assert(node_views(none@) =~= Seq::<NodeView>::empty());
                none
            },
        }
    }

    /// The entry with the given name.
    pub fn child(&self, name: &str) -> (r: Option<&Node>)
        ensures
            node_option(r) == named(entries(self.view().content), name@),
    {
        let children = self.children();
        match position_named(children, name) {
            Some(i) => Some(&children[i]),
            None => None,
        }
    }

    /// Whether the entry is a directory.
    pub fn is_directory(&self) -> (r: bool)
        ensures
            r == (self.view().content is Directory),
    {
        match &self.content {
            Content::Directory(_) => true,
            _ => false,
        }
    }

    /// A copy of the entry.
    pub fn duplicate(&self) -> (r: Node)
        ensures
            r.view() == self.view(),
        decreases self,
    {
        let content = match &self.content {
            Content::Directory(children) => {
                let mut copies: Vec<Node> = Vec::new();
                let mut i: usize = 0;
                while i < children.len()
                    invariant
                        i <= children.len(),
                        copies.len() == i,
                        self.content == Content::Directory(*children),
                        forall|k: int|
                            0 <= k < i ==> (#[trigger] copies@[k]).view() == children@[k].view(),
                    decreases children.len() - i,
                {
                    proof {
                        assert(decreases_to!(*self => self.content));
                        assert(decreases_to!(self.content => self.content->Directory_0));
                        assert(decreases_to!(*children => children@));
                        assert(decreases_to!(children@ => children@[i as int]));
                    }
                    copies.push(children[i].duplicate());
                    i += 1;
                }
                proof {
                    lemma_directory_view(copies);
                    lemma_directory_view(*children);
                    assert(node_views(copies@) =~= node_views(children@));
                }
                Content::Directory(copies)
            },
            Content::File { digest, executable, metadata } => Content::File {
                digest: *digest,
                executable: *executable,
                metadata: *metadata,
            },
            Content::Symlink { target } => Content::Symlink { target: target.clone() },
            Content::Untracked => Content::Untracked,
            Content::Problematic { message } => Content::Problematic { message: message.clone() },
        };
        Node { name: self.name.clone(), content }
    }
}

/// A copy of a list of entries.
pub fn duplicate_all(nodes: &[Node]) -> (r: Vec<Node>)
    ensures
        node_views(r@) == node_views(nodes@),
{
    let mut copies: Vec<Node> = Vec::new();
    let mut i: usize = 0;
    while i < nodes.len()
        invariant
            i <= nodes.len(),
            copies.len() == i,
            forall|k: int| 0 <= k < i ==> (#[trigger] copies@[k]).view() == nodes@[k].view(),
        decreases nodes.len() - i,
    {
        copies.push(nodes[i].duplicate());
        i += 1;
    }
    assert(node_views(copies@) =~= node_views(nodes@));
    copies
}

// ---------------------------------------------------------------------------
// Paths
// ---------------------------------------------------------------------------

/// The path of an entry in a directory.
pub open spec fn joined_path(path: Seq<char>, name: Seq<char>) -> Seq<char> {
    if path.len() == 0 {
        name
    } else {
        path + "/"@ + name
    }
}

/// The path of an entry in a directory; the root's path is empty.
pub fn path_join(path: &str, name: &str) -> (r: String)
    ensures
        r@ == joined_path(path@, name@),
{
    if path.is_empty() {
        name.to_owned()
    } else {
        let mut r = path.to_owned();
        r.append("/");
        r.append(name);
        r
    }
}

/// The entry reached from a node by following names.
pub open spec fn descend(node: NodeView, names: Seq<Seq<char>>) -> Option<NodeView>
    decreases names.len(),
{
    if names.len() == 0 {
        Some(node)
    } else {
        match descend(node, names.drop_last()) {
            Some(parent) => named(entries(parent.content), names.last()),
            None => None,
        }
    }
}

/// Following names stops where one is missing.
proof fn lemma_descend_prefix(node: NodeView, names: Seq<Seq<char>>, n: int)
    requires
        0 <= n <= names.len(),
        descend(node, names.take(n)) is None,
    ensures
        descend(node, names) is None,
    decreases names.len(),
{
    if n == names.len() {
        assert(names.take(n) =~= names);
    } else {
        assert(names.drop_last().take(n) =~= names.take(n));
        lemma_descend_prefix(node, names.drop_last(), n);
    }
}

/// The entry a root-relative path names, or `None` when nothing is there. The
/// empty path names the root.
pub open spec fn at_path(root: Option<NodeView>, path: Seq<char>) -> Option<NodeView> {
    match root {
        None => None,
        Some(node) => if path.len() == 0 {
            Some(node)
        } else {
            descend(node, segments(path, '/'))
        },
    }
}

/// The entry a root-relative path names in a scanned tree, or `None` when
/// nothing is there.
pub fn node_at<'a>(root: Option<&'a Node>, path: &str) -> (r: Option<&'a Node>)
    ensures
        node_option(r) == at_path(node_option(root), path@),
{
    let top = match root {
        Some(node) => node,
        None => {
            return None;
        },
    };
    if path.is_empty() {
        return Some(top);
    }
    let names = split(chars_of(path).as_slice(), '/');
    let ghost all = segments(path@, '/');
    let mut node: &'a Node = top;
    let mut i: usize = 0;
    assert(all.take(0) =~= Seq::<Seq<char>>::empty());
    while i < names.len()
        invariant
            i <= names.len(),
            texts(names@) == all,
            all == segments(path@, '/'),
            path@.len() > 0,
            root == Some(top),
            descend(top.view(), all.take(i as int)) == Some(node.view()),
        decreases names.len() - i,
    {
        let name = string_of(names[i].as_slice());
        proof {
            assert(all.take(i + 1).drop_last() =~= all.take(i as int));
            assert(all.take(i + 1).last() == name@);
        }
        match node.child(name.as_str()) {
            Some(next) => {
                node = next;
            },
            None => {
                proof {
                    lemma_descend_prefix(top.view(), all, i + 1);
                }
                return None;
            },
        }
        i += 1;
    }
    assert(all.take(all.len() as int) =~= all);
    Some(node)
}

// ---------------------------------------------------------------------------
// Comparing
// ---------------------------------------------------------------------------

/// Whether two contents are the same as synchronization sees them: a file by
/// its digest and executability, whatever its entry said; with `deep`, the
/// entries of directories too, by name and content.
pub open spec fn content_same(a: ContentView, b: ContentView, deep: bool) -> bool
    decreases a,
{
    match (a, b) {
        (ContentView::Directory(x), ContentView::Directory(y)) => !deep || (x.len() == y.len()
            && forall|i: int|
            0 <= i < x.len() ==> (#[trigger] x[i]).name == y[i].name && content_same(
                x[i].content,
                y[i].content,
                deep,
            )),
        (
            ContentView::File { digest: d, executable: e, .. },
            ContentView::File { digest: f, executable: g, .. },
        ) => d == f && e == g,
        (
            ContentView::Symlink { target: s },
            ContentView::Symlink { target: t },
        ) => s == t,
        (ContentView::Untracked, ContentView::Untracked) => true,
        (
            ContentView::Problematic { message: m },
            ContentView::Problematic { message: n },
        ) => m == n,
        _ => false,
    }
}

impl Node {
    /// Whether two entries hold the same, as synchronization sees it; their
    /// own names are not compared.
    pub fn content_equal(&self, other: &Node, deep: bool) -> (r: bool)
        ensures
            r == content_same(self.view().content, other.view().content, deep),
        decreases self,
    {
        match (&self.content, &other.content) {
            (Content::Directory(x), Content::Directory(y)) => {
                proof {
                    lemma_directory_view(*x);
                    lemma_directory_view(*y);
                }
                if !deep {
                    return true;
                }
                if x.len() != y.len() {
                    return false;
                }
                let ghost a = node_views(x@);
                let ghost b = node_views(y@);
                let mut i: usize = 0;
                while i < x.len()
                    invariant
                        i <= x.len(),
                        x.len() == y.len(),
                        deep,
                        self.content == Content::Directory(*x),
                        a == node_views(x@),
                        b == node_views(y@),
                        self.view().content == ContentView::Directory(a),
                        other.view().content == ContentView::Directory(b),
                        forall|k: int|
                            0 <= k < i ==> (#[trigger] a[k]).name == b[k].name && content_same(
                                a[k].content,
                                b[k].content,
                                deep,
                            ),
                    decreases x.len() - i,
                {
                    proof {
                        assert(decreases_to!(*self => self.content));
                        assert(decreases_to!(self.content => self.content->Directory_0));
                        assert(decreases_to!(*x => x@));
                        assert(decreases_to!(x@ => x@[i as int]));
                        assert(a[i as int] == x@[i as int].view());
                        assert(b[i as int] == y@[i as int].view());
                    }
                    if x[i].name != y[i].name || !x[i].content_equal(&y[i], deep) {
                        return false;
                    }
                    i += 1;
                }
                true
            },
            (
                Content::File { digest: d, executable: e, .. },
                Content::File { digest: f, executable: g, .. },
            ) => same_digest(d, f) && *e == *g,
            (Content::Symlink { target: s }, Content::Symlink { target: t }) => *s == *t,
            (Content::Untracked, Content::Untracked) => true,
            (Content::Problematic { message: m }, Content::Problematic { message: n }) => *m == *n,
            _ => false,
        }
    }
}

/// The part of an entry's content that synchronization carries: nothing of
/// what is left alone or could not be scanned.
pub open spec fn synchronizable(content: ContentView) -> Option<ContentView>
    decreases content,
{
    match content {
        ContentView::Directory(children) => Some(
            ContentView::Directory(synchronizable_entries(children)),
        ),
        ContentView::Untracked => None,
        ContentView::Problematic { .. } => None,
        other => Some(other),
    }
}

/// The synchronizable part of each entry that has one.
pub open spec fn synchronizable_entries(children: Seq<NodeView>) -> Seq<NodeView>
    decreases children,
{
    if children.len() == 0 {
        Seq::empty()
    } else {
        let front = synchronizable_entries(children.drop_last());
        match synchronizable(children.last().content) {
            Some(content) => front.push(NodeView { name: children.last().name, content }),
            None => front,
        }
    }
}

/// What is left of a node of which only the synchronizable part is kept.
pub open spec fn synchronizable_node(node: NodeView) -> Option<NodeView> {
    match synchronizable(node.content) {
        Some(content) => Some(NodeView { name: node.name, content }),
        None => None,
    }
}

impl Node {
    /// The part of the entry that synchronization carries, or `None` when it
    /// carries none of it.
    pub fn synchronizable_subtree(&self) -> (r: Option<Node>)
        ensures
            owned_option(r) == synchronizable_node(self.view()),
        decreases self,
    {
        match &self.content {
            Content::Untracked => None,
            Content::Problematic { .. } => None,
            Content::Directory(children) => {
                proof {
                    lemma_directory_view(*children);
                }
                let ghost all = node_views(children@);
                let mut kept: Vec<Node> = Vec::new();
                let mut i: usize = 0;
                assert(node_views(kept@) =~= synchronizable_entries(all.take(0)));
                while i < children.len()
                    invariant
                        i <= children.len(),
                        self.content == Content::Directory(*children),
                        all == node_views(children@),
                        node_views(kept@) == synchronizable_entries(all.take(i as int)),
                    decreases children.len() - i,
                {
                    proof {
                        assert(decreases_to!(*self => self.content));
                        assert(decreases_to!(self.content => self.content->Directory_0));
                        assert(decreases_to!(*children => children@));
                        assert(decreases_to!(children@ => children@[i as int]));
                        assert(all.take(i + 1).drop_last() =~= all.take(i as int));
                        assert(all.take(i + 1).last() == children@[i as int].view());
                    }
                    let ghost before = node_views(kept@);
                    match children[i].synchronizable_subtree() {
                        Some(node) => {
                            kept.push(node);
                            assert(node_views(kept@) =~= before.push(node.view()));
                        },
                        None => {},
                    }
                    i += 1;
                }
                proof {
                    assert(all.take(all.len() as int) =~= all);
                    lemma_directory_view(kept);
                }
                Some(Node { name: self.name.clone(), content: Content::Directory(kept) })
            },
            _ => Some(self.duplicate()),
        }
    }
}

/// Whether two places hold the same as synchronization sees it: excluded
/// entries are invisible, and two absences agree.
pub open spec fn agrees(a: Option<NodeView>, b: Option<NodeView>) -> bool {
    let x = match a {
        Some(node) => synchronizable(node.content),
        None => None,
    };
    let y = match b {
        Some(node) => synchronizable(node.content),
        None => None,
    };
    match (x, y) {
        (None, None) => true,
        (Some(x), Some(y)) => content_same(x, y, true),
        _ => false,
    }
}

/// Whether two places hold the same as synchronization sees it.
pub fn same_content(a: Option<&Node>, b: Option<&Node>) -> (r: bool)
    ensures
        r == agrees(node_option(a), node_option(b)),
{
    let x = match a {
        Some(node) => node.synchronizable_subtree(),
        None => None,
    };
    let y = match b {
        Some(node) => node.synchronizable_subtree(),
        None => None,
    };
    match (&x, &y) {
        (None, None) => true,
        (Some(x), Some(y)) => x.content_equal(y, true),
        _ => false,
    }
}

impl Node {
    /// Whether two entries are the same in every respect.
    pub fn identical(&self, other: &Node) -> (r: bool)
        ensures
            r == (self.view() == other.view()),
        decreases self,
    {
        if self.name != other.name {
            return false;
        }
        match (&self.content, &other.content) {
            (Content::Directory(x), Content::Directory(y)) => {
                let ghost a = node_views(x@);
                let ghost b = node_views(y@);
                proof {
                    lemma_directory_view(*x);
                    lemma_directory_view(*y);
                }
                if x.len() != y.len() {
                    assert(a.len() != b.len());
                    return false;
                }
                let mut i: usize = 0;
                while i < x.len()
                    invariant
                        i <= x.len(),
                        x.len() == y.len(),
                        self.content == Content::Directory(*x),
                        a == node_views(x@),
                        b == node_views(y@),
                        self.view().content == ContentView::Directory(a),
                        other.view().content == ContentView::Directory(b),
                        forall|k: int| 0 <= k < i ==> #[trigger] a[k] == b[k],
                    decreases x.len() - i,
                {
                    proof {
                        assert(decreases_to!(*self => self.content));
                        assert(decreases_to!(self.content => self.content->Directory_0));
                        assert(decreases_to!(*x => x@));
                        assert(decreases_to!(x@ => x@[i as int]));
                        assert(a[i as int] == x@[i as int].view());
                        assert(b[i as int] == y@[i as int].view());
                    }
                    if !x[i].identical(&y[i]) {
                        return false;
                    }
                    i += 1;
                }
                assert(a =~= b);
                true
            },
            (
                Content::File { digest: d, executable: e, metadata: m },
                Content::File { digest: f, executable: g, metadata: n },
            ) => same_digest(d, f) && *e == *g && m.mtime_seconds == n.mtime_seconds
                && m.mtime_nanos == n.mtime_nanos && m.size == n.size && m.inode == n.inode
                && m.mode == n.mode,
            (Content::Symlink { target: s }, Content::Symlink { target: t }) => *s == *t,
            (Content::Untracked, Content::Untracked) => true,
            (Content::Problematic { message: m }, Content::Problematic { message: n }) => *m == *n,
            _ => false,
        }
    }
}

/// The result of scanning a root.
#[derive(Debug)]
pub struct Snapshot {
    /// What the root holds; `None` where there is no root.
    pub root: Option<Node>,
    /// The paths at which another filesystem is mounted.
    pub mount_points: Vec<String>,
    /// Whether the filesystem keeps executability.
    pub preserves_executability: bool,
    /// How many directories the root holds, itself counted.
    pub directories: u64,
    /// How many files.
    pub files: u64,
    /// How many symbolic links.
    pub symlinks: u64,
    /// The size of all files.
    pub total_file_size: u64,
    /// When the digests were taken, in seconds.
    pub scanned_at_seconds: i64,
}

// ---------------------------------------------------------------------------
// Laws
// ---------------------------------------------------------------------------

/// A node that is found by its name is one of those looked through and has
/// that name, and one is found wherever there is one; the first, where there
/// are several.
pub proof fn law_a_name_finds_its_first_node(nodes: Seq<NodeView>, name: Seq<char>)
    ensures
        match named(nodes, name) {
            Some(node) => exists|i: int|
                0 <= i < nodes.len() && #[trigger] nodes[i] == node && node.name == name && forall|
                    j: int,
                |
                    0 <= j < i ==> (#[trigger] nodes[j]).name != name,
            None => forall|i: int| 0 <= i < nodes.len() ==> (#[trigger] nodes[i]).name != name,
        },
    decreases nodes.len(),
{
    if nodes.len() > 0 {
        let front = nodes.drop_last();
        law_a_name_finds_its_first_node(front, name);
        match named(front, name) {
            Some(node) => {
                let i = choose|i: int|
                    0 <= i < front.len() && #[trigger] front[i] == node && node.name == name
                        && forall|j: int| 0 <= j < i ==> (#[trigger] front[j]).name != name;
                assert(nodes[i] == node);
                assert forall|j: int| 0 <= j < i implies (#[trigger] nodes[j]).name != name by {
                    assert(front[j].name != name);
                }
            },
            None => {
                assert forall|j: int| 0 <= j < nodes.len() - 1 implies (#[trigger] nodes[j]).name
                    != name by {
                    assert(front[j].name != name);
                }
                if nodes.last().name == name {
                    assert(nodes[nodes.len() - 1] == nodes.last());
                }
            },
        }
    }
}

/// A path leads from the root through its names. The empty path is the root;
/// a name leads to the root's entry of that name; and what is behind a
/// separator is looked for in what the path before it leads to.
pub proof fn law_a_path_leads_through_its_names(root: NodeView, path: Seq<char>, name: Seq<char>)
    requires
        name.len() > 0,
        !name.contains('/'),
        path.len() > 0,
    ensures
        at_path(None, path) is None,
        at_path(Some(root), Seq::empty()) == Some(root),
        at_path(Some(root), name) == named(entries(root.content), name),
        at_path(Some(root), path + seq!['/'] + name) == (match at_path(Some(root), path) {
            Some(directory) => named(entries(directory.content), name),
            None => None,
        }),
{
    crate::text::lemma_segments_single(name, '/');
    assert(seq![name].drop_last() =~= Seq::<Seq<char>>::empty());
    assert(descend(root, seq![name].drop_last()) == Some(root));
    crate::text::lemma_segments_behind(path, '/', name);
    let names = segments(path, '/');
    assert(names.push(name).drop_last() =~= names);
}

/// Two files agree exactly where they have one digest and both or neither are
/// executable, whatever else their entries say; two links, exactly where they
/// have one target. A file, a link and a directory never agree with each
/// other, nor with nothing. What is left alone or could not be scanned is as
/// good as nothing.
pub proof fn law_entries_agree_by_what_they_hold(a: NodeView, b: NodeView)
    ensures
        agrees(None, None),
        a.content matches ContentView::File { digest: d, executable: e, .. } ==> (
        b.content matches ContentView::File { digest: f, executable: g, .. } ==> (agrees(
            Some(a),
            Some(b),
        ) <==> d == f && e == g)),
        a.content matches ContentView::Symlink { target: s } ==> (
        b.content matches ContentView::Symlink { target: t } ==> (agrees(Some(a), Some(b)) <==> s
            == t)),
        a.content is File && (b.content is Symlink || b.content is Directory) ==> !agrees(
            Some(a),
            Some(b),
        ) && !agrees(Some(b), Some(a)),
        a.content is Symlink && b.content is Directory ==> !agrees(Some(a), Some(b)) && !agrees(
            Some(b),
            Some(a),
        ),
        a.content is File || a.content is Symlink || a.content is Directory ==> !agrees(
            Some(a),
            None,
        ) && !agrees(None, Some(a)),
        a.content is Untracked || a.content is Problematic ==> agrees(Some(a), Some(b)) == agrees(
            None,
            Some(b),
        ) && agrees(Some(b), Some(a)) == agrees(Some(b), None),
{
}

/// Two directories agree exactly where what they hold does, name by name. An
/// entry that is left alone or could not be scanned does not count.
pub proof fn law_directories_agree_entry_by_entry(
    one: NodeView,
    other: NodeView,
    a: Seq<NodeView>,
    b: Seq<NodeView>,
    x: NodeView,
    y: NodeView,
)
    requires
        one.content == ContentView::Directory(a),
        other.content == ContentView::Directory(b),
    ensures
        a.len() == 0 && b.len() == 0 ==> agrees(Some(one), Some(other)),
        ({
            let more = NodeView { name: one.name, content: ContentView::Directory(a.push(x)) };
            let also = NodeView { name: other.name, content: ContentView::Directory(b.push(y)) };
            &&& x.content is Untracked || x.content is Problematic ==> agrees(
                Some(more),
                Some(other),
            ) == agrees(Some(one), Some(other))
            &&& (x.content is File || x.content is Symlink || x.content is Directory) && (
            y.content is File || y.content is Symlink || y.content is Directory) ==> (agrees(
                Some(more),
                Some(also),
            ) <==> agrees(Some(one), Some(other)) && x.name == y.name && agrees(Some(x), Some(y)))
        }),
{
    let (p, q) = (synchronizable_entries(a), synchronizable_entries(b));
    assert(a.push(x).drop_last() =~= a);
    assert(b.push(y).drop_last() =~= b);
    if (x.content is File || x.content is Symlink || x.content is Directory) && (y.content is File
        || y.content is Symlink || y.content is Directory) {
        let u = NodeView { name: x.name, content: synchronizable(x.content)->0 };
        let v = NodeView { name: y.name, content: synchronizable(y.content)->0 };
        let (s, t) = (p.push(u), q.push(v));
        assert(synchronizable_entries(a.push(x)) == s);
        assert(synchronizable_entries(b.push(y)) == t);
        let whole = content_same(ContentView::Directory(s), ContentView::Directory(t), true);
        let front = content_same(ContentView::Directory(p), ContentView::Directory(q), true);
        if front && u.name == v.name && content_same(u.content, v.content, true) {
            assert forall|i: int| 0 <= i < s.len() implies (#[trigger] s[i]).name == t[i].name
                && content_same(s[i].content, t[i].content, true) by {
                if i < p.len() {
                    assert(s[i] == p[i] && t[i] == q[i]);
                }
            }
        }
        if whole {
            assert(p.len() == q.len());
            assert(s[p.len() as int] == u && t[p.len() as int] == v);
            assert forall|i: int| 0 <= i < p.len() implies (#[trigger] p[i]).name == q[i].name
                && content_same(p[i].content, q[i].content, true) by {
                assert(s[i] == p[i] && t[i] == q[i]);
            }
        }
    }
}

/// What synchronization carries of an entry: a file and a link as they are, a
/// directory with what it carries of each of its entries, and nothing of what
/// is left alone or could not be scanned.
pub proof fn law_what_is_synchronized_of_an_entry(
    node: NodeView,
    children: Seq<NodeView>,
    child: NodeView,
)
    ensures
        node.content is File || node.content is Symlink ==> synchronizable_node(node) == Some(node),
        node.content is Untracked || node.content is Problematic ==> synchronizable_node(
            node,
        ) is None,
        synchronizable(ContentView::Directory(Seq::empty())) == Some(
            ContentView::Directory(Seq::empty()),
        ),
        synchronizable(ContentView::Directory(children.push(child))) == Some(
            ContentView::Directory(
                match synchronizable_node(child) {
                    Some(carried) => entries(
                        synchronizable(ContentView::Directory(children))->0,
                    ).push(carried),
                    None => entries(synchronizable(ContentView::Directory(children))->0),
                },
            ),
        ),
{
    assert(children.push(child).drop_last() =~= children);
}

/// An entry of the root is named by its name alone, and one further down by the
/// path of its directory, a separator and its name.
pub proof fn law_an_entry_is_named_below_its_directory(path: Seq<char>, name: Seq<char>)
    ensures
        joined_path(Seq::empty(), name) == name,
        path.len() > 0 ==> joined_path(path, name) == path + seq!['/'] + name,
{
    reveal_strlit("/");
    assert("/"@ =~= seq!['/']);
}

} // verus!
