//! The paths a watcher reported, as a trie: which directories have to be
//! listed again, and which entries may have been replaced.
use crate::text::{chars_of, same_text, segments, split, string_of, texts};
use vstd::prelude::*;

verus! {

/// One directory or entry of the trie.
#[derive(Debug)]
pub struct DirtyNode {
    /// Whether the directory has to be listed again.
    pub relist: bool,
    /// Whether the entry itself was reported, and may be another one now.
    pub marked: bool,
    /// What is known of the entries below.
    pub children: Vec<DirtyChild>,
}

/// A named entry of the trie.
#[derive(Debug)]
pub struct DirtyChild {
    /// Its name.
    pub name: String,
    /// What is known of it.
    pub node: DirtyNode,
}

/// What is known of an entry.
pub struct Mark {
    /// Whether it has to be listed again.
    pub relist: bool,
    /// Whether it was reported itself.
    pub marked: bool,
}

/// Where the child with a name is among the first `n`: the first of them, or
/// `n` where there is none.
pub open spec fn child_index(children: Seq<DirtyChild>, name: Seq<char>, n: int) -> int
    decreases n,
{
    if n <= 0 {
        0
    } else if child_index(children, name, n - 1) < n - 1 {
        child_index(children, name, n - 1)
    } else if children[n - 1].name@ == name {
        n - 1
    } else {
        n
    }
}

/// What `child_index` says.
pub proof fn lemma_child_index(children: Seq<DirtyChild>, name: Seq<char>, n: int)
    requires
        0 <= n <= children.len(),
    ensures
        0 <= child_index(children, name, n) <= n,
        forall|k: int| 0 <= k < child_index(children, name, n) ==> (#[trigger] children[k]).name@
            != name,
        child_index(children, name, n) < n ==> children[child_index(children, name, n)].name@
            == name,
    decreases n,
{
    if n > 0 {
        lemma_child_index(children, name, n - 1);
    }
}

/// The index is the one with those properties.
pub proof fn lemma_child_index_is(children: Seq<DirtyChild>, name: Seq<char>, n: int, i: int)
    requires
        0 <= i <= n <= children.len(),
        forall|k: int| 0 <= k < i ==> (#[trigger] children[k]).name@ != name,
        i < n ==> children[i].name@ == name,
    ensures
        child_index(children, name, n) == i,
{
    lemma_child_index(children, name, n);
    let j = child_index(children, name, n);
    if j < i {
        assert(children[j].name@ != name);
    }
    if i < j {
        assert(children[i].name@ != name);
    }
}

/// The child with a name.
pub open spec fn dirty_child(node: DirtyNode, name: Seq<char>) -> Option<DirtyNode> {
    let i = child_index(node.children@, name, node.children@.len() as int);
    if i < node.children@.len() {
        Some(node.children@[i].node)
    } else {
        None
    }
}

/// What is known of the entry that names lead to, or `None` where nothing is.
pub open spec fn mark_at(node: DirtyNode, names: Seq<Seq<char>>) -> Option<Mark>
    decreases names.len(),
{
    if names.len() == 0 {
        Some(Mark { relist: node.relist, marked: node.marked })
    } else {
        match dirty_child(node, names[0]) {
            Some(child) => mark_at(child, names.skip(1)),
            None => None,
        }
    }
}

/// A path's names: what stands between its separators, without the empty
/// ones.
pub open spec fn path_names(path: Seq<char>) -> Seq<Seq<char>> {
    nonempty(segments(path, '/'))
}

/// The texts of a list that are not empty.
pub open spec fn nonempty(parts: Seq<Seq<char>>) -> Seq<Seq<char>>
    decreases parts.len(),
{
    if parts.len() == 0 {
        Seq::empty()
    } else if parts.last().len() == 0 {
        nonempty(parts.drop_last())
    } else {
        nonempty(parts.drop_last()).push(parts.last())
    }
}

/// What is known of an entry once a path is marked: the entry and the
/// directory it is in have to be listed again, the entry was reported, and
/// everything on the way to it is known of.
pub open spec fn marked_view(
    before: Option<Mark>,
    marked: Seq<Seq<char>>,
    names: Seq<Seq<char>>,
) -> Option<Mark> {
    let on_the_way = names.len() <= marked.len() && marked.take(names.len() as int) == names;
    let parent = marked.len() > 0 && names == marked.drop_last();
    let known = match before {
        Some(mark) => mark,
        None => Mark { relist: false, marked: false },
    };
    if before is None && !on_the_way {
        None
    } else {
        Some(
            Mark {
                relist: known.relist || parent || names == marked,
                marked: known.marked || names == marked,
            },
        )
    }
}

/// A node nothing is known of.
fn fresh_node() -> (node: DirtyNode)
    ensures
        !node.relist,
        !node.marked,
        node.children@.len() == 0,
{
    DirtyNode { relist: false, marked: false, children: Vec::new() }
}

/// Nothing is known below a fresh node.
proof fn lemma_fresh(node: DirtyNode, names: Seq<Seq<char>>)
    requires
        !node.relist,
        !node.marked,
        node.children@.len() == 0,
    ensures
        mark_at(node, names) == (if names.len() == 0 {
            Some(Mark { relist: false, marked: false })
        } else {
            None::<Mark>
        }),
{
}

impl DirtyNode {
    /// Where the child with a name is.
    pub fn position(&self, name: &str) -> (i: usize)
        ensures
            i == child_index(self.children@, name@, self.children@.len() as int),
            i <= self.children@.len(),
    {
        let mut i: usize = 0;
        while i < self.children.len() && !same_text(self.children[i].name.as_str(), name)
            invariant
                i <= self.children@.len(),
                forall|k: int| 0 <= k < i ==> (#[trigger] self.children@[k]).name@ != name@,
            decreases self.children@.len() - i,
        {
            i += 1;
        }
        proof {
            lemma_child_index_is(
                self.children@,
                name@,
                self.children@.len() as int,
                i as int,
            );
        }
        i
    }

    /// The child with a name.
    pub fn child(&self, name: &str) -> (r: Option<&DirtyNode>)
        ensures
            match r {
                Some(node) => dirty_child(*self, name@) == Some(*node),
                None => dirty_child(*self, name@) is None,
            },
    {
        let i = self.position(name);
        if i < self.children.len() {
            Some(&self.children[i].node)
        } else {
            None
        }
    }

    /// Marks the entry that the names from `at` on lead to.
    fn mark_names(&mut self, names: &Vec<Vec<char>>, at: usize)
        requires
            at <= names@.len(),
        ensures
            forall|p: Seq<Seq<char>>|
                #[trigger] mark_at(*final(self), p) == marked_view(
                    mark_at(*old(self), p),
                    texts(names@).skip(at as int),
                    p,
                ),
        decreases names@.len() - at,
    {
        let ghost start = *self;
        let ghost rest = texts(names@).skip(at as int);
        if at == names.len() {
            self.relist = true;
            self.marked = true;
            proof {
                assert(rest =~= Seq::<Seq<char>>::empty());
                assert forall|p: Seq<Seq<char>>| #[trigger]
                    mark_at(*self, p) == marked_view(mark_at(start, p), rest, p) by {
                    if p.len() == 0 {
                        assert(p =~= rest);
                        assert(rest.take(0) =~= p);
                    }
                }
            }
            return;
        }
        if at + 1 == names.len() {
            self.relist = true;
        }
        let name = string_of(names[at].as_slice());
        let i = self.position(name.as_str());
        let ghost listed = *self;
        assert(rest[0] == name@);
        assert(rest.skip(1) =~= texts(names@).skip(at + 1));
        if i == self.children.len() {
            let mut node = fresh_node();
            let ghost blank = node;
            node.mark_names(names, at + 1);
            let ghost grown = node;
            self.children.push(DirtyChild { name, node });
            proof {
                lemma_child_index(start.children@, rest[0], start.children@.len() as int);
                assert forall|p: Seq<Seq<char>>| #[trigger]
                    mark_at(*self, p) == marked_view(mark_at(start, p), rest, p) by {
                    lemma_marked_step(start, *self, rest, p, i as int, blank, grown);
                }
            }
        } else {
            let ghost below = self.children@[i as int].node;
            let mut node = fresh_node();
            std::mem::swap(&mut node, &mut self.children[i].node);
            node.mark_names(names, at + 1);
            let ghost grown = node;
            std::mem::swap(&mut node, &mut self.children[i].node);
            proof {
                lemma_child_index(start.children@, rest[0], start.children@.len() as int);
                assert forall|p: Seq<Seq<char>>| #[trigger]
                    mark_at(*self, p) == marked_view(mark_at(start, p), rest, p) by {
                    lemma_marked_step(start, *self, rest, p, i as int, below, grown);
                }
            }
        }
    }
}

/// Marking below one child marks as it should above it.
proof fn lemma_marked_step(
    before: DirtyNode,
    after: DirtyNode,
    marked: Seq<Seq<char>>,
    p: Seq<Seq<char>>,
    i: int,
    below: DirtyNode,
    grown: DirtyNode,
)
    requires
        marked.len() > 0,
        0 <= i <= before.children@.len(),
        i == child_index(before.children@, marked[0], before.children@.len() as int),
        i < before.children@.len() ==> below == before.children@[i].node,
        i == before.children@.len() ==> !below.relist && !below.marked && below.children@.len()
            == 0,
        after.children@.len() == (if i < before.children@.len() {
            before.children@.len()
        } else {
            before.children@.len() + 1
        }),
        forall|k: int|
            0 <= k < before.children@.len() ==> (#[trigger] after.children@[k]).name@
                == before.children@[k].name@ && (k != i ==> after.children@[k].node
                == before.children@[k].node),
        after.children@[i].name@ == marked[0],
        after.children@[i].node == grown,
        after.relist == (before.relist || marked.len() == 1),
        after.marked == before.marked,
        forall|q: Seq<Seq<char>>| #[trigger]
            mark_at(grown, q) == marked_view(mark_at(below, q), marked.skip(1), q),
    ensures
        mark_at(after, p) == marked_view(mark_at(before, p), marked, p),
{
    let n = before.children@.len() as int;
    let m = after.children@.len() as int;
    lemma_child_index(before.children@, marked[0], n);
    if p.len() == 0 {
        assert(marked.take(0) =~= p);
        if marked.len() == 1 {
            assert(marked.drop_last() =~= p);
        } else {
            assert(marked.drop_last().len() > 0);
        }
    } else if p[0] == marked[0] {
        lemma_child_index_is(after.children@, marked[0], m, i);
        assert(dirty_child(after, p[0]) == Some(grown));
        let q = p.skip(1);
        let rest = marked.skip(1);
        assert(mark_at(after, p) == mark_at(grown, q));
        if i < n {
            assert(dirty_child(before, p[0]) == Some(below));
        } else {
            assert(dirty_child(before, p[0]) is None);
            lemma_fresh(below, q);
        }
        // The relation between `p` and `marked` is that between their tails.
        assert((p == marked) == (q == rest)) by {
            assert(p =~= seq![p[0]] + q);
            assert(marked =~= seq![marked[0]] + rest);
        }
        if p.len() <= marked.len() {
            assert((marked.take(p.len() as int) == p) == (rest.take(q.len() as int) == q)) by {
                assert(marked.take(p.len() as int) =~= seq![marked[0]] + rest.take(
                    q.len() as int,
                ));
                assert(p =~= seq![p[0]] + q);
                if marked.take(p.len() as int) == p {
                    assert(rest.take(q.len() as int) =~= marked.take(p.len() as int).skip(1));
                }
            }
        }
        if rest.len() > 0 {
            assert((p == marked.drop_last()) == (q == rest.drop_last())) by {
                assert(marked.drop_last() =~= seq![marked[0]] + rest.drop_last());
                assert(p =~= seq![p[0]] + q);
                if p == marked.drop_last() {
                    assert(q =~= rest.drop_last());
                }
            }
        } else {
            assert(marked.drop_last().len() == 0);
        }
        if before.children@.len() == i {
            if q.len() == 0 {
                assert(rest.take(0) =~= q);
            }
        }
    } else {
        // Another child: the same one before and after.
        lemma_child_index(before.children@, p[0], n);
        let j = child_index(before.children@, p[0], n);
        if j < n {
            assert(j != i);
            assert forall|k: int| 0 <= k < j implies (#[trigger] after.children@[k]).name@
                != p[0] by {
                assert(before.children@[k].name@ != p[0]);
            }
            assert(after.children@[j].name@ == before.children@[j].name@);
            lemma_child_index_is(after.children@, p[0], m, j);
        } else {
            assert forall|k: int| 0 <= k < m implies (#[trigger] after.children@[k]).name@
                != p[0] by {
                if k < n {
                    assert(before.children@[k].name@ != p[0]);
                }
            }
            lemma_child_index_is(after.children@, p[0], m, m);
        }
        assert(mark_at(after, p) == mark_at(before, p));
        assert(p != marked);
        if p.len() <= marked.len() {
            assert(marked.take(p.len() as int)[0] != p[0]);
        }
        assert(p != marked.drop_last()) by {
            if marked.len() > 1 {
                assert(marked.drop_last()[0] == marked[0]);
            }
        }
    }
}

/// Whether a path was marked.
pub open spec fn is_marked(dirty: DirtyNode, names: Seq<Seq<char>>) -> bool {
    mark_at(dirty, names) matches Some(mark) && mark.marked
}

/// Whether the directory of every marked entry is listed again.
pub open spec fn parents_relisted(dirty: DirtyNode) -> bool {
    forall|names: Seq<Seq<char>>|
        names.len() > 0 && #[trigger] is_marked(dirty, names) ==> (mark_at(
            dirty,
            names.drop_last(),
        ) matches Some(mark) && mark.relist)
}

/// Whether something was marked at every entry that is known of, or below it.
pub open spec fn leads_to_marks(dirty: DirtyNode) -> bool {
    forall|names: Seq<Seq<char>>|
        names.len() > 0 && #[trigger] mark_at(dirty, names) is Some ==> marked_from(dirty, names)
}

/// Whether something was marked at an entry, or below it.
#[verifier::opaque]
pub open spec fn marked_from(dirty: DirtyNode, names: Seq<Seq<char>>) -> bool {
    exists|rest: Seq<Seq<char>>| is_marked(dirty, #[trigger] (names + rest))
}

/// The paths a watcher reported.
#[derive(Debug)]
pub struct DirtyPaths {
    /// What is known of the root.
    pub root: DirtyNode,
}

impl DirtyPaths {
    /// Whether the directory of every reported entry is listed again, and
    /// nothing is known of but what was reported and what is on the way to it.
    pub open spec fn well_formed(&self) -> bool {
        parents_relisted(self.root) && leads_to_marks(self.root)
    }

    /// Nothing reported.
    pub fn new() -> (paths: DirtyPaths)
        ensures
            paths.well_formed(),
            !paths.root.relist,
            !paths.root.marked,
            paths.root.children@.len() == 0,
    {
        let paths = DirtyPaths { root: fresh_node() };
        proof {
            assert forall|names: Seq<Seq<char>>|
                names.len() > 0 && #[trigger] is_marked(paths.root, names) implies (mark_at(
                paths.root,
                names.drop_last(),
            ) matches Some(mark) && mark.relist) by {
                lemma_fresh(paths.root, names);
            }
            assert forall|names: Seq<Seq<char>>|
                names.len() > 0 && #[trigger] mark_at(paths.root, names) is Some implies marked_from(
                paths.root,
                names,
            ) by {
                lemma_fresh(paths.root, names);
            }
        }
        paths
    }

    /// Marks a reported path: it is listed again with the directory it is in,
    /// and what it held before is not relied on. The empty path is the root.
    pub fn mark(&mut self, path: &str)
        ensures
            forall|p: Seq<Seq<char>>|
                #[trigger] mark_at(final(self).root, p) == marked_view(
                    mark_at(old(self).root, p),
                    path_names(path@),
                    p,
                ),
            old(self).well_formed() ==> final(self).well_formed(),
    {
        let ghost start = self.root;
        let parts = split(chars_of(path).as_slice(), '/');
        let ghost all = segments(path@, '/');
        let mut names: Vec<Vec<char>> = Vec::new();
        let mut i: usize = 0;
        assert(texts(names@) =~= nonempty(all.take(0)));
        while i < parts.len()
            invariant
                i <= parts@.len(),
                texts(parts@) == all,
                texts(names@) == nonempty(all.take(i as int)),
            decreases parts@.len() - i,
        {
            proof {
                assert(all.take(i + 1).drop_last() =~= all.take(i as int));
                assert(all.take(i + 1).last() == parts@[i as int]@);
            }
            if parts[i].len() > 0 {
                let ghost before = texts(names@);
                let name = vstd::slice::slice_to_vec(parts[i].as_slice());
                names.push(name);
                assert(texts(names@) =~= before.push(parts@[i as int]@));
            }
            i += 1;
        }
        assert(all.take(all.len() as int) =~= all);
        assert(texts(names@).skip(0) =~= texts(names@));
        self.root.mark_names(&names, 0);
        proof {
            let marked = path_names(path@);
            if leads_to_marks(start) {
                assert forall|p: Seq<Seq<char>>|
                    p.len() > 0 && #[trigger] mark_at(self.root, p) is Some implies marked_from(
                    self.root,
                    p,
                ) by {
                    reveal(marked_from);
                    assert(mark_at(self.root, p) == marked_view(mark_at(start, p), marked, p));
                    if mark_at(start, p) is Some {
                        assert(marked_from(start, p));
                        let rest = choose|rest: Seq<Seq<char>>|
                            is_marked(start, #[trigger] (p + rest));
                        let all = p + rest;
                        assert(mark_at(self.root, all) == marked_view(
                            mark_at(start, all),
                            marked,
                            all,
                        ));
                        assert(is_marked(self.root, p + rest));
                    } else {
                        let rest = marked.skip(p.len() as int);
                        assert(p + rest =~= marked);
                        assert(mark_at(self.root, marked) == marked_view(
                            mark_at(start, marked),
                            marked,
                            marked,
                        ));
                        assert(marked.take(marked.len() as int) =~= marked);
                        assert(is_marked(self.root, p + rest));
                    }
                }
            }
            if parents_relisted(start) {
                assert forall|p: Seq<Seq<char>>|
                    p.len() > 0 && #[trigger] is_marked(self.root, p) implies (mark_at(
                    self.root,
                    p.drop_last(),
                ) matches Some(mark) && mark.relist) by {
                    assert(mark_at(self.root, p) == marked_view(mark_at(start, p), marked, p));
                    let q = p.drop_last();
                    assert(mark_at(self.root, q) == marked_view(mark_at(start, q), marked, q));
                    lemma_on_the_way(marked, q);
                    if p != marked {
                        assert(is_marked(start, p));
                    }
                }
            }
        }
    }

    /// Whether nothing was reported.
    pub fn is_empty(&self) -> (r: bool)
        ensures
            r == (!self.root.relist && self.root.children@.len() == 0),
    {
        !self.root.relist && self.root.children.len() == 0
    }
}

impl Default for DirtyPaths {
    fn default() -> (paths: DirtyPaths)
        ensures
            paths.well_formed(),
            !paths.root.relist,
            !paths.root.marked,
            paths.root.children@.len() == 0,
    {
        DirtyPaths::new()
    }
}

/// Marking a path twice is marking it once: what is known of every entry is
/// the same.
pub proof fn law_marking_twice_is_marking_once(
    before: Option<Mark>,
    marked: Seq<Seq<char>>,
    names: Seq<Seq<char>>,
)
    ensures
        marked_view(marked_view(before, marked, names), marked, names) == marked_view(
            before,
            marked,
            names,
        ),
{
}

/// The order in which two paths are marked does not matter.
pub proof fn law_marks_commute(
    before: Option<Mark>,
    one: Seq<Seq<char>>,
    other: Seq<Seq<char>>,
    names: Seq<Seq<char>>,
)
    ensures
        marked_view(marked_view(before, one, names), other, names) == marked_view(
            marked_view(before, other, names),
            one,
            names,
        ),
{
    lemma_on_the_way(one, names);
    lemma_on_the_way(other, names);
}

/// A path and the directory it is in are on the way to it.
proof fn lemma_on_the_way(marked: Seq<Seq<char>>, names: Seq<Seq<char>>)
    ensures
        names == marked ==> marked.take(names.len() as int) == names,
        marked.len() > 0 && names == marked.drop_last() ==> marked.take(names.len() as int)
            == names,
{
    if names == marked {
        assert(marked.take(names.len() as int) =~= names);
    }
    if marked.len() > 0 && names == marked.drop_last() {
        assert(marked.take(names.len() as int) =~= names);
    }
}

/// What marking a path does. The entry was reported and has to be listed
/// again, and so has the directory around it, which was not reported for that;
/// what is on the way is known of. Nothing is forgotten, and nothing else is
/// learned.
pub proof fn law_a_mark_reaches_its_entry_and_what_holds_it(
    before: Option<Mark>,
    marked: Seq<Seq<char>>,
    names: Seq<Seq<char>>,
)
    ensures
        marked_view(before, marked, marked) matches Some(mark) && mark.marked && mark.relist,
        marked.len() > 0 && before is None ==> marked_view(before, marked, marked.drop_last())
            == Some(Mark { relist: true, marked: false }),
        before is None && names.len() + 1 < marked.len() && names == marked.take(
            names.len() as int,
        ) ==> marked_view(before, marked, names) == Some(Mark { relist: false, marked: false }),
        before matches Some(mark) ==> (marked_view(before, marked, names) matches Some(now)
            && (mark.relist ==> now.relist) && (mark.marked ==> now.marked)),
        names != marked && !(marked.len() > 0 && names == marked.drop_last()) && before is Some
            ==> marked_view(before, marked, names) == before,
        before is None && !(names.len() <= marked.len() && names == marked.take(
            names.len() as int,
        )) ==> marked_view(before, marked, names) is None,
{
    assert(marked.take(marked.len() as int) =~= marked);
    if marked.len() > 0 {
        assert(marked.take(marked.drop_last().len() as int) =~= marked.drop_last());
        assert(marked.drop_last().len() != marked.len());
    }
}

/// The names of a path are those it was joined from, where none is empty or
/// holds a separator.
pub proof fn law_a_path_has_the_names_it_was_joined_from(names: Seq<Seq<char>>)
    requires
        names.len() > 0,
        forall|i: int|
            0 <= i < names.len() ==> (#[trigger] names[i]).len() > 0 && !names[i].contains('/'),
    ensures
        path_names(crate::text::joined(names, seq!['/'])) == names,
{
    crate::text::lemma_segments_joined(names, '/');
    lemma_all_nonempty(names);
}

proof fn lemma_all_nonempty(names: Seq<Seq<char>>)
    requires
        forall|i: int| 0 <= i < names.len() ==> (#[trigger] names[i]).len() > 0,
    ensures
        nonempty(names) == names,
    decreases names.len(),
{
    if names.len() > 0 {
        assert(names[names.len() - 1].len() > 0);
        lemma_all_nonempty(names.drop_last());
        assert(names.drop_last().push(names.last()) =~= names);
    } else {
        assert(names =~= Seq::<Seq<char>>::empty());
    }
}

} // verus!
