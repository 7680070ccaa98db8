//! Why marking what changed is enough: an incremental scan that goes by the
//! marks finds what a full scan finds.
use crate::order::{before as sorts_before, increasing, lemma_slot, slot};
use crate::scan::dirty::{
    dirty_child, is_marked, leads_to_marks, mark_at, marked_from, parents_relisted, DirtyNode,
    DirtyPaths, Mark,
};
use crate::scan::held;
use crate::scan::ignore::walked;
use crate::scan::laws::{
    digests_current, in_full, law_counts_are_those_of_the_tree, law_entries_are_sorted_and_unique,
    law_reading_again_trusts_nothing, law_taking_digests_over_changes_nothing, lemma_unknown_probe,
    names_distinct, noted_name, odd, probe_distinct, totals,
};
use crate::scan::names::temporary;
use crate::scan::walk::{
    entry_index, entry_scanned, lemma_looked_at, listed_scanned, listing_scanned, looked_at,
    node_names, probe_kind, probe_scanned, recorded_name, refreshed, root_scanned, settled,
    with_node, LinkReading, Listing, Observed, Place, Probe, Reading, ScanOptions,
};
use crate::text::has_prefix;
use crate::tree::{entries, joined_path, lemma_named_at, named, NodeView};
use vstd::prelude::*;

verus! {

// ---------------------------------------------------------------------------
// What changed
// ---------------------------------------------------------------------------

/// Whether a listed entry goes by a name in the tree.
pub open spec fn goes_by(o: ScanOptions, entry: Observed, name: Seq<char>) -> bool {
    !temporary(entry.name@) && noted_name(o, entry) == name
}

/// Where the entry that goes by a name is among the first `n` listed: the last
/// of them, or -1 where there is none.
pub open spec fn holder(o: ScanOptions, list: Seq<Observed>, n: int, name: Seq<char>) -> int
    decreases n,
{
    if n <= 0 {
        -1
    } else if goes_by(o, list[n - 1], name) {
        n - 1
    } else {
        holder(o, list, n - 1, name)
    }
}

/// The entry that a directory was seen to hold under a name.
pub open spec fn observed_in(o: ScanOptions, listing: Listing, name: Seq<char>) -> Option<
    Observed,
> {
    match listing {
        Listing::Entries(list) => {
            let i = holder(o, list@, list@.len() as int, name);
            if i >= 0 {
                Some(list@[i])
            } else {
                None
            }
        },
        Listing::Failed { .. } => None,
    }
}

/// The entry that was seen where names lead from a directory. Nothing is seen
/// below one whose name is not text or is reserved.
pub open spec fn observed_at(o: ScanOptions, listing: Listing, names: Seq<Seq<char>>) -> Option<
    Observed,
>
    decreases names.len(),
{
    if names.len() == 0 {
        None
    } else {
        match observed_in(o, listing, names[0]) {
            None => None,
            Some(entry) => if names.len() == 1 {
                Some(entry)
            } else if odd(entry) {
                None
            } else {
                match entry.probe {
                    Probe::Directory { listing, .. } => observed_at(o, listing, names.skip(1)),
                    _ => None,
                }
            },
        }
    }
}

/// Whether a directory could be listed at two times, or could not for one
/// reason.
pub open spec fn listed_alike(one: Listing, other: Listing) -> bool {
    match (one, other) {
        (Listing::Entries(_), Listing::Entries(_)) => true,
        (Listing::Failed { message: a, .. }, Listing::Failed { message: b, .. }) => a@ == b@,
        _ => false,
    }
}

/// Whether a file reads the same at two times.
pub open spec fn reads_alike(one: Reading, other: Reading) -> bool {
    match (one, other) {
        (Reading::Read { digest: a, .. }, Reading::Read { digest: b, .. }) => a@ == b@,
        (Reading::Changed, Reading::Changed) => true,
        (Reading::Failed { message: a }, Reading::Failed { message: b }) => a@ == b@,
        _ => false,
    }
}

/// Whether a symbolic link reads the same at two times.
pub open spec fn leads_alike(one: LinkReading, other: LinkReading) -> bool {
    match (one, other) {
        (LinkReading::Target { target: a }, LinkReading::Target { target: b }) => a@ == b@,
        (LinkReading::NotUtf8, LinkReading::NotUtf8) => true,
        (LinkReading::Failed { message: a }, LinkReading::Failed { message: b }) => a@ == b@,
        _ => false,
    }
}

/// Whether what is probed is the same at two times: the same directory,
/// whatever it holds, or something that looks and reads the same.
pub open spec fn probed_alike(one: Probe, other: Probe) -> bool {
    match (one, other) {
        (Probe::Missing, Probe::Missing) => true,
        (Probe::Failed { message: a }, Probe::Failed { message: b }) => a@ == b@,
        (
            Probe::Directory { device: d, inode: i, listing: a },
            Probe::Directory { device: e, inode: j, listing: b },
        ) => d == e && i == j && listed_alike(a, b),
        (
            Probe::File { metadata: a, reading: x },
            Probe::File { metadata: b, reading: y },
        ) => a == b && reads_alike(x, y),
        (Probe::Symlink { reading: x }, Probe::Symlink { reading: y }) => leads_alike(x, y),
        (Probe::Other, Probe::Other) => true,
        _ => false,
    }
}

/// Whether an entry is the same at two times: there neither time, or one that
/// is recorded by its name alone both times, or what is probed is the same.
pub open spec fn alike(one: Option<Observed>, other: Option<Observed>) -> bool {
    match (one, other) {
        (None, None) => true,
        (Some(a), Some(b)) => {
            &&& a.utf8 == b.utf8
            &&& has_prefix(a.name@, ".autobahn-tmp"@) == has_prefix(b.name@, ".autobahn-tmp"@)
            &&& if odd(a) {
                probe_kind(a.probe) == probe_kind(b.probe)
            } else {
                probed_alike(a.probe, b.probe)
            }
        },
        _ => false,
    }
}

/// Whether a path was marked, or a directory on the way to it.
pub open spec fn marked_within(dirty: DirtyNode, names: Seq<Seq<char>>) -> bool {
    exists|k: int| 0 <= k <= names.len() && #[trigger] is_marked(dirty, names.take(k))
}

/// Whether every entry that changed between two times was marked, itself or
/// with a directory on the way to it.
pub open spec fn changes_marked(
    o: ScanOptions,
    before: Listing,
    now: Listing,
    dirty: Option<DirtyNode>,
) -> bool {
    &&& listed_alike(before, now) || (dirty is Some && dirty->0.marked)
    &&& forall|names: Seq<Seq<char>>|
        names.len() > 0 && !alike(
            observed_at(o, before, names),
            #[trigger] observed_at(o, now, names),
        ) ==> dirty is Some && marked_within(dirty->0, names)
}

/// Whether a directory is listed again: it holds an entry that was marked, or
/// was marked, or a directory on the way to it.
pub open spec fn listed_again(dirty: DirtyNode, names: Seq<Seq<char>>) -> bool {
    marked_within(dirty, names) || (mark_at(dirty, names) matches Some(mark) && mark.relist)
}

/// Whether no mark lies strictly below an entry whose name is not text or is
/// reserved, unless the directory that holds the entry is listed again, as
/// every directory is on a volume that decomposes names.
pub open spec fn marks_clear(o: ScanOptions, now: Listing, dirty: DirtyNode) -> bool {
    o.behavior.decomposes_unicode || forall|names: Seq<Seq<char>>, k: int|
        #[trigger] is_marked(dirty, names) && 0 < k < names.len() && (observed_at(
            o,
            now,
            #[trigger] names.take(k),
        ) matches Some(entry) && odd(entry)) ==> listed_again(dirty, names.take(k - 1))
}

// ---------------------------------------------------------------------------
// Trees by the names of their entries
// ---------------------------------------------------------------------------

/// Nothing sorts before itself.
proof fn lemma_irreflexive(a: Seq<char>)
    ensures
        !sorts_before(a, a),
    decreases a.len(),
{
    if a.len() > 0 {
        lemma_irreflexive(a.skip(1));
    }
}

/// Two lists in the order of their names with the same entries are the same.
proof fn lemma_same_entries(one: Seq<NodeView>, other: Seq<NodeView>)
    requires
        increasing(node_names(one)),
        increasing(node_names(other)),
        forall|node: NodeView| #[trigger] one.contains(node) <==> other.contains(node),
    ensures
        one == other,
    decreases one.len(),
{
    if one.len() == 0 {
        if other.len() > 0 {
            assert(other.contains(other[0]));
            assert(one.contains(other[0]));
        }
        assert(one =~= other);
    } else {
        assert(one.contains(one[0]));
        let (a, b) = (node_names(one), node_names(other));
        let j = choose|j: int| 0 <= j < other.len() && other[j] == one[0];
        assert(other.contains(other[0]));
        assert(one.contains(other[0]));
        let i = choose|i: int| 0 <= i < one.len() && one[i] == other[0];
        assert(b[j] == a[0] && a[i] == b[0]);
        if j > 0 && i > 0 {
            assert(sorts_before(b[0], b[j]));
            assert(sorts_before(a[0], a[i]));
            crate::order::lemma_transitive(a[0], b[0], a[0]);
            lemma_irreflexive(a[0]);
        }
        assert(one[0] == other[0]);
        let (x, y) = (one.skip(1), other.skip(1));
        assert forall|k: int, m: int| 0 <= k < m < x.len() implies sorts_before(
            #[trigger] node_names(x)[k],
            #[trigger] node_names(x)[m],
        ) by {
            assert(sorts_before(a[k + 1], a[m + 1]));
        }
        assert forall|k: int, m: int| 0 <= k < m < y.len() implies sorts_before(
            #[trigger] node_names(y)[k],
            #[trigger] node_names(y)[m],
        ) by {
            assert(sorts_before(b[k + 1], b[m + 1]));
        }
        assert forall|node: NodeView| #[trigger] x.contains(node) <==> y.contains(node) by {
            if x.contains(node) {
                let k = choose|k: int| 0 <= k < x.len() && x[k] == node;
                assert(one[k + 1] == node);
                assert(one.contains(node));
                let m = choose|m: int| 0 <= m < other.len() && other[m] == node;
                if m == 0 {
                    assert(sorts_before(a[0], a[k + 1]));
                    lemma_irreflexive(a[0]);
                }
                assert(y[m - 1] == node);
            }
            if y.contains(node) {
                let k = choose|k: int| 0 <= k < y.len() && y[k] == node;
                assert(other[k + 1] == node);
                assert(other.contains(node));
                assert(one.contains(node));
                let m = choose|m: int| 0 <= m < one.len() && one[m] == node;
                if m == 0 {
                    assert(sorts_before(b[0], b[k + 1]));
                    lemma_irreflexive(b[0]);
                }
                assert(x[m - 1] == node);
            }
        }
        lemma_same_entries(x, y);
        assert(one =~= seq![one[0]] + x);
        assert(other =~= seq![other[0]] + y);
    }
}

/// What is found under a name has it, and is one of the entries.
proof fn lemma_named_some(list: Seq<NodeView>, name: Seq<char>)
    ensures
        named(list, name) matches Some(node) ==> node.name == name && list.contains(node),
    decreases list.len(),
{
    if list.len() > 0 {
        lemma_named_some(list.drop_last(), name);
        if let Some(node) = named(list.drop_last(), name) {
            let k = choose|k: int| 0 <= k < list.drop_last().len() && list.drop_last()[k] == node;
            assert(list[k] == node);
        } else if list.last().name == name {
            assert(list[list.len() - 1] == list.last());
        }
    }
}

/// In a list in the order of its names, an entry is found under its name.
proof fn lemma_named_in(list: Seq<NodeView>, node: NodeView)
    requires
        increasing(node_names(list)),
        list.contains(node),
    ensures
        named(list, node.name) == Some(node),
{
    let i = choose|i: int| 0 <= i < list.len() && list[i] == node;
    let names = node_names(list);
    assert forall|k: int| 0 <= k < i implies (#[trigger] list[k]).name != node.name by {
        assert(sorts_before(names[k], names[i]));
        lemma_irreflexive(names[i]);
    }
    lemma_named_at(list, node.name, i);
}

/// Two lists in the order of their names that hold the same under every name
/// are the same.
proof fn lemma_same_names(one: Seq<NodeView>, other: Seq<NodeView>)
    requires
        increasing(node_names(one)),
        increasing(node_names(other)),
        forall|name: Seq<char>| #[trigger] named(one, name) == named(other, name),
    ensures
        one == other,
{
    assert forall|node: NodeView| #[trigger] one.contains(node) <==> other.contains(node) by {
        assert(named(one, node.name) == named(other, node.name));
        if one.contains(node) {
            lemma_named_in(one, node);
            lemma_named_some(other, node.name);
        }
        if other.contains(node) {
            lemma_named_in(other, node);
            lemma_named_some(one, node.name);
        }
    }
    lemma_same_entries(one, other);
}

/// The last of the entries under a name.
spec fn last_named(list: Seq<NodeView>, name: Seq<char>) -> Option<NodeView>
    decreases list.len(),
{
    if list.len() == 0 {
        None
    } else if list.last().name == name {
        Some(list.last())
    } else {
        last_named(list.drop_last(), name)
    }
}

/// Of several entries under a name, the last is kept.
proof fn lemma_settled(list: Seq<NodeView>, name: Seq<char>)
    ensures
        named(settled(list), name) == last_named(list, name),
    decreases list.len(),
{
    if list.len() > 0 {
        let front = list.drop_last();
        let last = list.last();
        lemma_settled(front, name);
        let kept = settled(front);
        let all = settled(list);
        let i = slot(node_names(kept), last.name);
        law_entries_are_sorted_and_unique(front);
        law_entries_are_sorted_and_unique(list);
        lemma_slot(node_names(kept), last.name);
        assert(all == with_node(kept, last));
        assert(all[i] == last);
        if name == last.name {
            assert(all.contains(last));
            lemma_named_in(all, last);
        } else {
            lemma_named_some(kept, name);
            lemma_named_some(all, name);
            if let Some(node) = named(kept, name) {
                let k = choose|k: int| 0 <= k < kept.len() && kept[k] == node;
                if i < kept.len() && kept[i].name == last.name {
                    assert(all[k] == node);
                } else if k < i {
                    assert(all[k] == node);
                } else {
                    assert(all[k + 1] == node);
                }
                assert(all.contains(node));
                lemma_named_in(all, node);
            } else if let Some(node) = named(all, name) {
                let k = choose|k: int| 0 <= k < all.len() && all[k] == node;
                assert(k != i);
                if i < kept.len() && kept[i].name == last.name {
                    assert(kept[k] == node);
                } else if k < i {
                    assert(kept[k] == node);
                } else {
                    assert(kept[k - 1] == node);
                }
                assert(kept.contains(node));
                lemma_named_in(kept, node);
            }
        }
    } else {
        assert(settled(list) =~= Seq::<NodeView>::empty());
    }
}

/// What is recorded of an entry has its name.
proof fn lemma_entry_name(
    o: ScanOptions,
    entry: Observed,
    place: Place,
    baseline: Option<NodeView>,
    dirty: Option<DirtyNode>,
)
    ensures
        entry_scanned(o, entry, place, baseline, dirty) matches Some(found) ==> found.0.name
            == noted_name(o, entry),
{
    if let Some(node) = baseline {
        lemma_named_some(entries(node.content), recorded_name(o, entry));
    }
}

/// A temporary has the reserved prefix.
proof fn lemma_temporary(name: Seq<char>)
    requires
        temporary(name),
    ensures
        has_prefix(name, ".autobahn-tmp"@),
{
    reveal_strlit(".autobahn-tmp-");
    reveal_strlit(".autobahn-tmp");
    let lead = ".autobahn-tmp-"@;
    assert(name.take(".autobahn-tmp"@.len() as int) =~= ".autobahn-tmp"@) by {
        assert(name.take(lead.len() as int) == lead);
        assert forall|k: int| 0 <= k < 13 implies name[k] == ".autobahn-tmp"@[k] by {
            assert(name.take(lead.len() as int)[k] == lead[k]);
        }
    }
}

/// The entry that goes by a name is one, and no later one does.
proof fn lemma_holder(o: ScanOptions, list: Seq<Observed>, n: int, name: Seq<char>)
    requires
        0 <= n <= list.len(),
    ensures
        -1 <= holder(o, list, n, name) < n,
        holder(o, list, n, name) >= 0 ==> goes_by(o, list[holder(o, list, n, name)], name),
        forall|k: int|
            holder(o, list, n, name) < k < n && k >= 0 ==> !goes_by(o, #[trigger] list[k], name),
    decreases n,
{
    if n > 0 {
        lemma_holder(o, list, n - 1, name);
    }
}

/// An entry that its name says enough of is the only one that goes by it.
proof fn lemma_only(o: ScanOptions, listing: Listing, i: int)
    requires
        listing is Entries,
        names_distinct(o, listing),
        0 <= i < listing->Entries_0@.len(),
        !odd(listing->Entries_0@[i]),
    ensures
        !temporary(listing->Entries_0@[i].name@),
        holder(
            o,
            listing->Entries_0@,
            listing->Entries_0@.len() as int,
            recorded_name(o, listing->Entries_0@[i]),
        ) == i,
{
    let list = listing->Entries_0@;
    let name = recorded_name(o, list[i]);
    if temporary(list[i].name@) {
        lemma_temporary(list[i].name@);
    }
    lemma_holder(o, list, list.len() as int, name);
    let j = holder(o, list, list.len() as int, name);
    assert(goes_by(o, list[i], name));
    assert(j >= i);
    if i < j {
        assert(noted_name(o, listing->Entries_0@[i]) == noted_name(o, listing->Entries_0@[j]));
    }
}

/// What a listed entry is recorded as.
spec fn node_of(
    o: ScanOptions,
    entry: Observed,
    place: Place,
    baseline: Option<NodeView>,
    dirty: Option<DirtyNode>,
) -> Option<NodeView> {
    match entry_scanned(o, entry, place, baseline, dirty) {
        Some(found) => Some(found.0),
        None => None,
    }
}

/// What a directory is recorded to hold under a name is what the entry that
/// goes by it is recorded as.
proof fn lemma_gathered(
    o: ScanOptions,
    listing: Listing,
    n: int,
    place: Place,
    baseline: Option<NodeView>,
    dirty: Option<DirtyNode>,
    name: Seq<char>,
)
    requires
        listing is Entries,
        0 <= n <= listing->Entries_0@.len(),
        names_distinct(o, listing),
    ensures
        ({
            let i = holder(o, listing->Entries_0@, n, name);
            last_named(listed_scanned(o, listing, n, place, baseline, dirty).nodes, name) == (
            if i >= 0 {
                node_of(o, listing->Entries_0@[i], place, baseline, dirty)
            } else {
                None
            })
        }),
    decreases n,
{
    if n > 0 {
        lemma_gathered(o, listing, n - 1, place, baseline, dirty, name);
        let list = listing->Entries_0@;
        let entry = list[n - 1];
        let front = listed_scanned(o, listing, n - 1, place, baseline, dirty).nodes;
        let nodes = listed_scanned(o, listing, n, place, baseline, dirty).nodes;
        lemma_entry_name(o, entry, place, baseline, dirty);
        if let Some(found) = entry_scanned(o, entry, place, baseline, dirty) {
            assert(nodes == front.push(found.0));
            assert(nodes.drop_last() =~= front);
            if temporary(entry.name@) {
                lemma_temporary(entry.name@);
            }
        } else if goes_by(o, entry, name) {
            assert(!odd(entry));
            lemma_holder(o, list, n - 1, name);
            let i = holder(o, list, n - 1, name);
            if i >= 0 {
                assert(noted_name(o, listing->Entries_0@[i]) == noted_name(
                    o,
                    listing->Entries_0@[n - 1],
                ));
            }
        }
    }
}

/// What a directory is recorded to hold under a name.
proof fn lemma_recorded(
    o: ScanOptions,
    listing: Listing,
    place: Place,
    baseline: Option<NodeView>,
    dirty: Option<DirtyNode>,
    name: Seq<char>,
)
    requires
        listing is Entries,
        names_distinct(o, listing),
    ensures
        ({
            let n = listing->Entries_0@.len() as int;
            let all = settled(listed_scanned(o, listing, n, place, baseline, dirty).nodes);
            named(all, name) == match observed_in(o, listing, name) {
                Some(entry) => node_of(o, entry, place, baseline, dirty),
                None => None,
            }
        }),
{
    let n = listing->Entries_0@.len() as int;
    lemma_settled(listed_scanned(o, listing, n, place, baseline, dirty).nodes, name);
    lemma_gathered(o, listing, n, place, baseline, dirty, name);
}

// ---------------------------------------------------------------------------
// Where nothing changed
// ---------------------------------------------------------------------------

/// What the marks say of an entry.
proof fn lemma_alike(
    o: ScanOptions,
    before: Listing,
    now: Listing,
    dirty: Option<DirtyNode>,
    name: Seq<char>,
)
    requires
        changes_marked(o, before, now, dirty),
        dirty matches Some(node) ==> !node.marked,
    ensures
        ({
            let reported = match dirty {
                Some(node) => dirty_child(node, name),
                None => None,
            };
            let (one, other) = (observed_in(o, before, name), observed_in(o, now, name));
            reported is None || !reported->0.marked ==> {
                &&& alike(one, other)
                &&& one is Some && !odd(one->0) && one->0.probe is Directory ==> changes_marked(
                    o,
                    one->0.probe->listing,
                    other->0.probe->listing,
                    reported,
                )
            }
        }),
{
    let reported = match dirty {
        Some(node) => dirty_child(node, name),
        None => None,
    };
    let (one, other) = (observed_in(o, before, name), observed_in(o, now, name));
    if reported is None || !reported->0.marked {
        let p = seq![name];
        assert(observed_at(o, before, p) == one);
        assert(observed_at(o, now, p) == other);
        if !alike(one, other) {
            assert(marked_within(dirty->0, p));
            let k = choose|k: int| 0 <= k <= p.len() && #[trigger] is_marked(dirty->0, p.take(k));
            if k == 1 {
                assert(p.take(1) =~= p);
                assert(p.skip(1).len() == 0);
                assert(mark_at(dirty->0, p) == match reported {
                    Some(child) => mark_at(child, p.skip(1)),
                    None => None,
                });
            }
            assert(false);
        }
        if one is Some && !odd(one->0) && one->0.probe is Directory {
            let then_ = one->0.probe->listing;
            let since = other->0.probe->listing;
            assert(other->0.probe is Directory);
            assert forall|names: Seq<Seq<char>>|
                names.len() > 0 && !alike(
                    observed_at(o, then_, names),
                    #[trigger] observed_at(o, since, names),
                ) implies reported is Some && marked_within(reported->0, names) by {
                let full = seq![name] + names;
                assert(full.skip(1) =~= names);
                assert(full[0] == name);
                assert(observed_at(o, before, full) == observed_at(o, then_, names));
                assert(observed_at(o, now, full) == observed_at(o, since, names));
                assert(marked_within(dirty->0, full));
                let k = choose|k: int|
                    0 <= k <= full.len() && #[trigger] is_marked(dirty->0, full.take(k));
                let head = full.take(k);
                assert(k > 0);
                assert(head[0] == name);
                assert(head.skip(1) =~= names.take(k - 1));
                assert(mark_at(dirty->0, head) == match reported {
                    Some(child) => mark_at(child, head.skip(1)),
                    None => None,
                });
                assert(is_marked(reported->0, names.take(k - 1)));
            }
        }
    }
}

/// Where nothing changed, a full walk finds what the earlier scan recorded.
proof fn lemma_kept(o: ScanOptions, before: Listing, now: Listing, place: Place, baseline: NodeView)
    requires
        !place.incremental,
        names_distinct(o, before),
        names_distinct(o, now),
        changes_marked(o, before, now, None),
        baseline.content == listing_scanned(o, before, place, None, None).content,
    ensures
        listing_scanned(o, now, place, Some(baseline), None).content == baseline.content,
    decreases before, 1int,
{
    if place.depth <= o.max_depth && before is Entries {
        let (n, m) = (before->Entries_0@.len() as int, now->Entries_0@.len() as int);
        let one = listed_scanned(o, before, n, place, None, None).nodes;
        let other = listed_scanned(o, now, m, place, Some(baseline), None).nodes;
        law_entries_are_sorted_and_unique(one);
        law_entries_are_sorted_and_unique(other);
        assert forall|name: Seq<char>| #[trigger]
            named(settled(one), name) == named(settled(other), name) by {
            lemma_recorded(o, before, place, None, None, name);
            lemma_recorded(o, now, place, Some(baseline), None, name);
            lemma_alike(o, before, now, None, name);
            if observed_in(o, before, name) is Some {
                lemma_kept_entry(o, before, now, place, baseline, name);
            }
        }
        lemma_same_names(settled(one), settled(other));
    }
}

/// An entry that did not change is recorded as it was.
proof fn lemma_kept_entry(
    o: ScanOptions,
    before: Listing,
    now: Listing,
    place: Place,
    baseline: NodeView,
    name: Seq<char>,
)
    requires
        !place.incremental,
        place.depth <= o.max_depth,
        before is Entries,
        now is Entries,
        names_distinct(o, before),
        names_distinct(o, now),
        baseline.content == listing_scanned(o, before, place, None, None).content,
        observed_in(o, before, name) is Some,
        alike(observed_in(o, before, name), observed_in(o, now, name)),
        ({
            let (one, other) = (observed_in(o, before, name)->0, observed_in(o, now, name)->0);
            !odd(one) && one.probe is Directory ==> changes_marked(
                o,
                one.probe->listing,
                other.probe->listing,
                None,
            )
        }),
    ensures
        node_of(o, observed_in(o, now, name)->0, place, Some(baseline), None) == node_of(
            o,
            observed_in(o, before, name)->0,
            place,
            None,
            None,
        ),
    decreases before, 0int,
{
    let (list, since) = (before->Entries_0@, now->Entries_0@);
    let (i, j) = (
        holder(o, list, list.len() as int, name),
        holder(o, since, since.len() as int, name),
    );
    lemma_holder(o, list, list.len() as int, name);
    lemma_holder(o, since, since.len() as int, name);
    let (a, b) = (list[i], since[j]);
    assert(probe_distinct(o, before->Entries_0@[i].probe));
    assert(probe_distinct(o, now->Entries_0@[j].probe));
    if !odd(a) {
        let at = Place { path: joined_path(place.path, name), ..place };
        lemma_recorded(o, before, place, None, None, name);
        let known = named(entries(baseline.content), name);
        assert(known == node_of(o, a, place, None, None));
        if let Probe::Directory { device, inode, listing: earlier } = a.probe {
            let later = b.probe->listing;
            if let Some(region) = walked(o.ignores.view(), at.path, true, at.within) {
                if !o.state_roots@.contains((device, inode)) && !(device != at.device
                    && o.ignore_mounts) {
                    let inner = Place { within: region, device, depth: at.depth + 1, ..at };
                    assert(looked_at(before)[i] == a);
                    lemma_looked_at(before, i);
                    assert(decreases_to!(a.probe => a.probe->listing));
                    lemma_kept(o, earlier, later, inner, known->0);
                }
            }
        }
        let one = probe_scanned(o, a.probe, at, None, None);
        let other = probe_scanned(o, b.probe, at, known, None);
        assert(one is Some == other is Some);
        assert(one is Some ==> one->0.content == other->0.content);
    }
}

// ---------------------------------------------------------------------------
// Where the marks lead
// ---------------------------------------------------------------------------

/// What is known below an entry of a directory is known below the directory.
proof fn lemma_mark_below(dirty: DirtyNode, name: Seq<char>, names: Seq<Seq<char>>)
    ensures
        dirty_child(dirty, name) matches Some(child) ==> mark_at(child, names) == mark_at(
            dirty,
            seq![name] + names,
        ),
{
    assert((seq![name] + names).skip(1) =~= names);
}

proof fn lemma_parents_below(dirty: DirtyNode, name: Seq<char>)
    requires
        parents_relisted(dirty),
    ensures
        dirty_child(dirty, name) matches Some(child) ==> parents_relisted(child) && (child.marked
            ==> dirty.relist),
{
    if let Some(child) = dirty_child(dirty, name) {
        assert forall|names: Seq<Seq<char>>|
            names.len() > 0 && #[trigger] is_marked(child, names) implies (mark_at(
            child,
            names.drop_last(),
        ) matches Some(mark) && mark.relist) by {
            let full = seq![name] + names;
            assert(full.skip(1) =~= names);
            assert(mark_at(dirty, full) == mark_at(child, names));
            assert(is_marked(dirty, full));
            let parent = full.drop_last();
            assert(parent[0] == name);
            assert(parent.skip(1) =~= names.drop_last());
            assert(mark_at(dirty, parent) == mark_at(child, names.drop_last()));
        }
        if child.marked {
            let p = seq![name];
            assert(p.skip(1).len() == 0);
            assert(mark_at(dirty, p) == mark_at(child, p.skip(1)));
            assert(is_marked(dirty, p));
            assert(p.drop_last().len() == 0);
        }
    }
}

proof fn lemma_leads_below(dirty: DirtyNode, name: Seq<char>)
    requires
        leads_to_marks(dirty),
    ensures
        dirty_child(dirty, name) matches Some(child) ==> leads_to_marks(child),
{
    if let Some(child) = dirty_child(dirty, name) {
        assert forall|names: Seq<Seq<char>>|
            names.len() > 0 && #[trigger] mark_at(child, names) is Some implies marked_from(
            child,
            names,
        ) by {
            let full = seq![name] + names;
            lemma_mark_below(dirty, name, names);
            assert(mark_at(dirty, full) is Some);
            lemma_marked_from_below(dirty, name, names);
        }
    }
}

proof fn lemma_marked_from_below(dirty: DirtyNode, name: Seq<char>, names: Seq<Seq<char>>)
    requires
        marked_from(dirty, seq![name] + names),
    ensures
        dirty_child(dirty, name) matches Some(child) ==> marked_from(child, names),
{
    reveal(marked_from);
    let full = seq![name] + names;
    let rest = choose|rest: Seq<Seq<char>>| is_marked(dirty, #[trigger] (full + rest));
    assert(full + rest =~= seq![name] + (names + rest));
    lemma_mark_below(dirty, name, names + rest);
    if let Some(child) = dirty_child(dirty, name) {
        assert(is_marked(child, names + rest));
    }
}

/// What is marked at an entry, or below it.
proof fn lemma_marked_rest(dirty: DirtyNode, names: Seq<Seq<char>>) -> (rest: Seq<Seq<char>>)
    requires
        marked_from(dirty, names),
    ensures
        is_marked(dirty, names + rest),
{
    reveal(marked_from);
    choose|rest: Seq<Seq<char>>| is_marked(dirty, #[trigger] (names + rest))
}

/// Where something is marked at or below an entry whose name is not text or is
/// reserved, its directory is listed again.
proof fn lemma_odd_listed(o: ScanOptions, now: Listing, dirty: DirtyNode, name: Seq<char>)
    requires
        parents_relisted(dirty),
        marks_clear(o, now, dirty),
        !dirty.marked,
        marked_from(dirty, seq![name]),
        observed_in(o, now, name) is Some,
        odd(observed_in(o, now, name)->0),
    ensures
        dirty.relist || o.behavior.decomposes_unicode,
{
    if !o.behavior.decomposes_unicode {
        let none = Seq::<Seq<char>>::empty();
        let p = seq![name];
        let rest = lemma_marked_rest(dirty, p);
        let full = p + rest;
        assert(mark_at(dirty, none) == Some(
            Mark { relist: dirty.relist, marked: dirty.marked },
        ));
        if rest.len() == 0 {
            assert(full.drop_last() =~= none);
        } else {
            assert(full.take(1) =~= p);
            assert(observed_at(o, now, full.take(1)) == observed_in(o, now, name));
            assert(full.take(1 - 1) =~= none);
            assert(listed_again(dirty, none));
            if marked_within(dirty, none) {
                let h = choose|h: int|
                    0 <= h <= none.len() && #[trigger] is_marked(dirty, none.take(h));
                assert(none.take(h) =~= none);
            }
        }
    }
}

/// Marks that are clear in a directory are clear in one that it holds.
proof fn lemma_clear_below(o: ScanOptions, now: Listing, dirty: DirtyNode, name: Seq<char>)
    requires
        marks_clear(o, now, dirty),
        !dirty.marked,
        dirty_child(dirty, name) is Some,
        observed_in(o, now, name) is Some,
        !odd(observed_in(o, now, name)->0),
        observed_in(o, now, name)->0.probe is Directory,
    ensures
        marks_clear(
            o,
            observed_in(o, now, name)->0.probe->listing,
            dirty_child(dirty, name)->0,
        ),
{
    let child = dirty_child(dirty, name)->0;
    let since = observed_in(o, now, name)->0.probe->listing;
    if !o.behavior.decomposes_unicode {
        assert forall|names: Seq<Seq<char>>, k: int|
            #[trigger] is_marked(child, names) && 0 < k < names.len() && (observed_at(
                o,
                since,
                #[trigger] names.take(k),
            ) matches Some(e) && odd(e)) implies listed_again(child, names.take(k - 1)) by {
            let full = seq![name] + names;
            lemma_mark_below(dirty, name, names);
            assert(is_marked(dirty, full));
            assert(full.take(k + 1).skip(1) =~= names.take(k));
            assert(full.take(k + 1)[0] == name);
            assert(observed_at(o, now, full.take(k + 1)) == observed_at(o, since, names.take(k)));
            let above = full.take(k);
            let inner = names.take(k - 1);
            assert(listed_again(dirty, full.take(k + 1 - 1)));
            assert(above =~= seq![name] + inner);
            lemma_mark_below(dirty, name, inner);
            if marked_within(dirty, above) {
                let h = choose|h: int|
                    0 <= h <= above.len() && #[trigger] is_marked(dirty, above.take(h));
                if h == 0 {
                    assert(above.take(0) =~= Seq::<Seq<char>>::empty());
                } else {
                    assert(above.take(h) =~= seq![name] + inner.take(h - 1));
                    lemma_mark_below(dirty, name, inner.take(h - 1));
                    assert(is_marked(child, inner.take(h - 1)));
                }
            }
        }
    }
}

/// What holds of the marks on a directory holds of those on one in it.
proof fn lemma_below(o: ScanOptions, now: Listing, dirty: DirtyNode, name: Seq<char>)
    requires
        parents_relisted(dirty),
        leads_to_marks(dirty),
        marks_clear(o, now, dirty),
        !dirty.marked,
    ensures
        dirty_child(dirty, name) matches Some(child) ==> {
            &&& parents_relisted(child)
            &&& leads_to_marks(child)
            &&& child.marked ==> dirty.relist
            &&& observed_in(o, now, name) matches Some(entry) ==> {
                &&& !odd(entry) && entry.probe is Directory ==> marks_clear(
                    o,
                    entry.probe->listing,
                    child,
                )
                &&& odd(entry) ==> dirty.relist || o.behavior.decomposes_unicode
            }
        },
{
    lemma_parents_below(dirty, name);
    lemma_leads_below(dirty, name);
    if dirty_child(dirty, name) is Some {
        if let Some(entry) = observed_in(o, now, name) {
            if odd(entry) {
                lemma_mark_below(dirty, name, Seq::empty());
                assert(seq![name] + Seq::<Seq<char>>::empty() =~= seq![name]);
                assert(mark_at(dirty, seq![name]) is Some);
                lemma_odd_listed(o, now, dirty, name);
            } else if entry.probe is Directory {
                lemma_clear_below(o, now, dirty, name);
            }
        }
    }
}

/// What is found of a reported entry is what a full walk finds.
proof fn lemma_reported(
    o: ScanOptions,
    then_: Option<Probe>,
    probe: Probe,
    place: Place,
    known: Option<NodeView>,
    reported: DirtyNode,
)
    requires
        place.incremental,
        !reported.marked ==> {
            &&& parents_relisted(reported)
            &&& leads_to_marks(reported)
            &&& then_ is Some
            &&& probed_alike(then_->0, probe)
            &&& probe_distinct(o, then_->0)
            &&& probe_distinct(o, probe)
            &&& probe_scanned(o, then_->0, in_full(place), None, None) matches Some(found)
                ==> known is Some && known->0.content == found.content
            &&& probe is Directory ==> {
                &&& changes_marked(
                    o,
                    then_->0->Directory_listing,
                    probe->Directory_listing,
                    Some(reported),
                )
                &&& marks_clear(o, probe->Directory_listing, reported)
            }
        },
    ensures
        ({
            let some = probe_scanned(o, probe, place, known, Some(reported));
            let all = probe_scanned(o, probe, in_full(place), known, None);
            some is Some == all is Some && (some is Some ==> some->0.content == all->0.content)
        }),
    decreases probe, 0int, 0int,
{
    if let Probe::Directory { device, inode, listing } = probe {
        if let Some(region) = walked(o.ignores.view(), place.path, true, place.within) {
            let inner = Place { within: region, device, depth: place.depth + 1, ..place };
            assert(in_full(inner) == Place {
                within: region,
                device,
                depth: place.depth + 1,
                ..in_full(place)
            });
            if !o.state_roots@.contains((device, inode)) && !(device != place.device
                && o.ignore_mounts) && !reported.marked {
                let earlier = then_->0->Directory_listing;
                assert(decreases_to!(probe => probe->listing));
                lemma_agrees(o, earlier, listing, inner, known->0, Some(reported));
            }
        }
    }
}

/// What a listed entry is found to be is what a full walk finds.
proof fn lemma_entry_agrees(
    o: ScanOptions,
    before: Listing,
    now: Listing,
    j: int,
    place: Place,
    baseline: NodeView,
    dirty: DirtyNode,
)
    requires
        place.incremental,
        place.depth <= o.max_depth,
        before is Entries,
        now is Entries,
        names_distinct(o, before),
        names_distinct(o, now),
        changes_marked(o, before, now, Some(dirty)),
        parents_relisted(dirty),
        leads_to_marks(dirty),
        marks_clear(o, now, dirty),
        !dirty.marked,
        baseline.content == listing_scanned(o, before, in_full(place), None, None).content,
        0 <= j < now->Entries_0@.len(),
    ensures
        node_of(o, now->Entries_0@[j], place, Some(baseline), Some(dirty)) == node_of(
            o,
            now->Entries_0@[j],
            in_full(place),
            Some(baseline),
            None,
        ),
    decreases now, 1int, 0int,
{
    let entry = now->Entries_0@[j];
    if !odd(entry) {
        let name = recorded_name(o, entry);
        let path = joined_path(place.path, name);
        let at = Place { path, ..place };
        let full = in_full(place);
        let reported = dirty_child(dirty, name);
        let known = named(entries(baseline.content), name);
        assert(in_full(at) == Place { path, ..full });
        lemma_only(o, now, j);
        assert(observed_in(o, now, name) == Some(entry));
        lemma_alike(o, before, now, Some(dirty), name);
        lemma_below(o, now, dirty, name);
        lemma_recorded(o, before, full, None, None, name);
        assert(probe_distinct(o, now->Entries_0@[j].probe));
        assert(looked_at(now)[j] == entry);
        lemma_looked_at(now, j);
        if reported is None || !reported->0.marked {
            let list = before->Entries_0@;
            let i = holder(o, list, list.len() as int, name);
            lemma_holder(o, list, list.len() as int, name);
            let earlier = list[i];
            assert(probe_distinct(o, before->Entries_0@[i].probe));
            assert(known == node_of(o, earlier, full, None, None));
            if let Some(r) = reported {
                lemma_reported(o, Some(earlier.probe), entry.probe, at, known, r);
            } else if known is Some && !(known->0.content is Problematic) {
                lemma_kept_entry(o, before, now, full, baseline, name);
            } else {
                lemma_unknown_probe(o, entry.probe, at, known);
            }
        } else {
            lemma_reported(o, None, entry.probe, at, known, reported->0);
        }
    }
}

proof fn lemma_listed_agrees(
    o: ScanOptions,
    before: Listing,
    now: Listing,
    n: int,
    place: Place,
    baseline: NodeView,
    dirty: DirtyNode,
)
    requires
        place.incremental,
        place.depth <= o.max_depth,
        before is Entries,
        now is Entries,
        names_distinct(o, before),
        names_distinct(o, now),
        changes_marked(o, before, now, Some(dirty)),
        parents_relisted(dirty),
        leads_to_marks(dirty),
        marks_clear(o, now, dirty),
        !dirty.marked,
        baseline.content == listing_scanned(o, before, in_full(place), None, None).content,
        0 <= n <= now->Entries_0@.len(),
    ensures
        listed_scanned(o, now, n, place, Some(baseline), Some(dirty)).nodes == listed_scanned(
            o,
            now,
            n,
            in_full(place),
            Some(baseline),
            None,
        ).nodes,
    decreases now, 2int, n,
{
    if n > 0 {
        lemma_listed_agrees(o, before, now, n - 1, place, baseline, dirty);
        lemma_entry_agrees(o, before, now, n - 1, place, baseline, dirty);
    }
}

/// Where the entry with a name is in a listing.
proof fn lemma_entry_index(list: Seq<Observed>, name: Seq<char>, n: int)
    requires
        0 <= n <= list.len(),
    ensures
        0 <= entry_index(list, name, n) <= n,
        entry_index(list, name, n) < n ==> list[entry_index(list, name, n)].utf8 && list[entry_index(
            list,
            name,
            n,
        )].name@ == name,
        forall|k: int|
            0 <= k < entry_index(list, name, n) ==> !((#[trigger] list[k]).utf8 && list[k].name@
                == name),
    decreases n,
{
    if n > 0 {
        lemma_entry_index(list, name, n - 1);
    }
}

/// What is found under a name in a directory that is not listed again is what
/// a full walk finds.
proof fn lemma_child_agrees(
    o: ScanOptions,
    before: Listing,
    now: Listing,
    name: Seq<char>,
    place: Place,
    baseline: NodeView,
    dirty: DirtyNode,
)
    requires
        place.incremental,
        place.depth <= o.max_depth,
        before is Entries,
        now is Entries,
        names_distinct(o, before),
        names_distinct(o, now),
        changes_marked(o, before, now, Some(dirty)),
        parents_relisted(dirty),
        leads_to_marks(dirty),
        marks_clear(o, now, dirty),
        !dirty.marked,
        !dirty.relist,
        !o.behavior.decomposes_unicode,
        baseline.content == listing_scanned(o, before, in_full(place), None, None).content,
    ensures
        ({
            let m = now->Entries_0@.len() as int;
            let all = settled(
                listed_scanned(o, now, m, in_full(place), Some(baseline), None).nodes,
            );
            match named(entries(baseline.content), name) {
                None => named(all, name) is None,
                Some(child) => match dirty_child(dirty, name) {
                    None => named(all, name) == Some(child),
                    Some(reported) => {
                        let list = looked_at(now);
                        let i = entry_index(list, name, list.len() as int);
                        let at = Place { path: joined_path(place.path, name), ..place };
                        &&& 0 <= i < list.len()
                        &&& probe_scanned(o, list[i].probe, at, Some(child), Some(reported))
                            matches Some(found)
                        &&& named(all, name) == Some(NodeView { name, content: found.content })
                    },
                },
            }
        }),
    decreases now, 1int, 0int,
{
    let full = in_full(place);
    let reported = dirty_child(dirty, name);
    lemma_below(o, now, dirty, name);
    lemma_alike(o, before, now, Some(dirty), name);
    lemma_recorded(o, before, full, None, None, name);
    lemma_recorded(o, now, full, Some(baseline), None, name);
    if observed_in(o, before, name) is Some {
        let (list, since) = (before->Entries_0@, now->Entries_0@);
        let (i, j) = (
            holder(o, list, list.len() as int, name),
            holder(o, since, since.len() as int, name),
        );
        lemma_holder(o, list, list.len() as int, name);
        lemma_holder(o, since, since.len() as int, name);
        let (earlier, entry) = (list[i], since[j]);
        assert(probe_distinct(o, before->Entries_0@[i].probe));
        assert(probe_distinct(o, now->Entries_0@[j].probe));
        lemma_entry_name(o, earlier, full, None, None);
        lemma_entry_name(o, entry, full, Some(baseline), None);
        if let Some(r) = reported {
            assert(!odd(entry));
            let at = Place { path: joined_path(place.path, name), ..place };
            assert(in_full(at) == Place { path: joined_path(place.path, name), ..full });
            let known = named(entries(baseline.content), name);
            let k = entry_index(since, name, since.len() as int);
            lemma_entry_index(since, name, since.len() as int);
            assert(since[j].utf8 && since[j].name@ == name);
            assert(k <= j);
            if k < j {
                assert(noted_name(o, now->Entries_0@[k]) == noted_name(o, now->Entries_0@[j]));
            }
            assert(looked_at(now)[j] == entry);
            lemma_looked_at(now, j);
            lemma_reported(o, Some(earlier.probe), entry.probe, at, known, r);
        } else {
            lemma_kept_entry(o, before, now, full, baseline, name);
        }
    }
}

proof fn lemma_refreshed_agrees(
    o: ScanOptions,
    before: Listing,
    now: Listing,
    n: int,
    place: Place,
    baseline: NodeView,
    dirty: DirtyNode,
)
    requires
        place.incremental,
        place.depth <= o.max_depth,
        before is Entries,
        now is Entries,
        names_distinct(o, before),
        names_distinct(o, now),
        changes_marked(o, before, now, Some(dirty)),
        parents_relisted(dirty),
        leads_to_marks(dirty),
        marks_clear(o, now, dirty),
        !dirty.marked,
        !dirty.relist,
        !o.behavior.decomposes_unicode,
        baseline.content == listing_scanned(o, before, in_full(place), None, None).content,
        increasing(node_names(entries(baseline.content))),
        0 <= n <= entries(baseline.content).len(),
    ensures
        ({
            let children = entries(baseline.content);
            let nodes = refreshed(o, now, children, n, place, dirty).nodes;
            let m = now->Entries_0@.len() as int;
            let all = settled(
                listed_scanned(o, now, m, in_full(place), Some(baseline), None).nodes,
            );
            &&& nodes.len() == n
            &&& forall|k: int|
                0 <= k < n ==> (#[trigger] nodes[k]).name == children[k].name && named(
                    all,
                    children[k].name,
                ) == Some(nodes[k])
        }),
    decreases now, 2int, n,
{
    if n > 0 {
        lemma_refreshed_agrees(o, before, now, n - 1, place, baseline, dirty);
        let children = entries(baseline.content);
        let child = children[n - 1];
        assert(children.contains(child));
        lemma_named_in(children, child);
        lemma_child_agrees(o, before, now, child.name, place, baseline, dirty);
        let front = refreshed(o, now, children, n - 1, place, dirty).nodes;
        let nodes = refreshed(o, now, children, n, place, dirty).nodes;
        assert(nodes.drop_last() =~= front);
        assert forall|k: int| 0 <= k < n - 1 implies #[trigger] nodes[k] == front[k] by {}
    }
}

/// A directory is found as a full walk finds it.
proof fn lemma_agrees(
    o: ScanOptions,
    before: Listing,
    now: Listing,
    place: Place,
    baseline: NodeView,
    dirty: Option<DirtyNode>,
)
    requires
        place.incremental,
        names_distinct(o, before),
        names_distinct(o, now),
        changes_marked(o, before, now, dirty),
        dirty matches Some(node) ==> parents_relisted(node) && leads_to_marks(node) && marks_clear(
            o,
            now,
            node,
        ),
        baseline.content == listing_scanned(o, before, in_full(place), None, None).content,
    ensures
        listing_scanned(o, now, place, Some(baseline), dirty).content == listing_scanned(
            o,
            now,
            in_full(place),
            Some(baseline),
            None,
        ).content,
    decreases now, 3int, 0int,
{
    if place.depth <= o.max_depth && !(dirty is Some && dirty->0.marked) && before is Entries {
        let full = in_full(place);
        let m = now->Entries_0@.len() as int;
        let n = before->Entries_0@.len() as int;
        let recorded = listed_scanned(o, before, n, full, None, None).nodes;
        law_entries_are_sorted_and_unique(recorded);
        let children = entries(baseline.content);
        assert(children == settled(recorded));
        if dirty is None {
            lemma_kept(o, before, now, full, baseline);
        } else if !dirty->0.relist && !o.behavior.decomposes_unicode {
            let all = listed_scanned(o, now, m, full, Some(baseline), None).nodes;
            let len = children.len() as int;
            let nodes = refreshed(o, now, children, len, place, dirty->0).nodes;
            lemma_refreshed_agrees(o, before, now, len, place, baseline, dirty->0);
            law_entries_are_sorted_and_unique(all);
            assert(node_names(nodes) =~= node_names(children));
            assert forall|name: Seq<char>| #[trigger]
                named(nodes, name) == named(settled(all), name) by {
                lemma_named_some(children, name);
                lemma_named_some(nodes, name);
                if let Some(child) = named(children, name) {
                    let k = choose|k: int| 0 <= k < children.len() && children[k] == child;
                    assert(nodes[k].name == name);
                    assert(nodes.contains(nodes[k]));
                    lemma_named_in(nodes, nodes[k]);
                } else {
                    lemma_child_agrees(o, before, now, name, place, baseline, dirty->0);
                    if let Some(node) = named(nodes, name) {
                        let k = choose|k: int| 0 <= k < nodes.len() && nodes[k] == node;
                        assert(children[k].name == name);
                        assert(children.contains(children[k]));
                        lemma_named_in(children, children[k]);
                    }
                }
            }
            lemma_same_names(nodes, settled(all));
        } else {
            lemma_listed_agrees(o, before, now, m, place, baseline, dirty->0);
        }
    }
}

// ---------------------------------------------------------------------------
// The earlier scan
// ---------------------------------------------------------------------------

/// Whether two scans are asked for the same but for what they make of an
/// earlier one.
pub open spec fn same_request(one: ScanOptions, other: ScanOptions) -> bool {
    other == (ScanOptions {
        baseline_scanned_at: other.baseline_scanned_at,
        rehash: other.rehash,
        ..one
    })
}

/// A scan from nothing finds the same, whatever would be made of an earlier
/// one.
proof fn lemma_from_nothing(one: ScanOptions, other: ScanOptions, listing: Listing, place: Place)
    requires
        !place.incremental,
        same_request(one, other),
    ensures
        listing_scanned(one, listing, place, None, None).content == listing_scanned(
            other,
            listing,
            place,
            None,
            None,
        ).content,
    decreases listing, 1int, 0int,
{
    if let Listing::Entries(list) = listing {
        lemma_listed_from_nothing(one, other, listing, list@.len() as int, place);
    }
}

proof fn lemma_listed_from_nothing(
    one: ScanOptions,
    other: ScanOptions,
    listing: Listing,
    n: int,
    place: Place,
)
    requires
        !place.incremental,
        same_request(one, other),
        listing is Entries,
        0 <= n <= listing->Entries_0@.len(),
    ensures
        listed_scanned(one, listing, n, place, None, None).nodes == listed_scanned(
            other,
            listing,
            n,
            place,
            None,
            None,
        ).nodes,
    decreases listing, 0int, n,
{
    if n > 0 {
        lemma_listed_from_nothing(one, other, listing, n - 1, place);
        let entry = listing->Entries_0@[n - 1];
        let at = Place { path: joined_path(place.path, recorded_name(one, entry)), ..place };
        assert(looked_at(listing)[n - 1] == entry);
        lemma_looked_at(listing, n - 1);
        lemma_probed_from_nothing(one, other, entry.probe, at);
        assert(node_of(one, entry, place, None, None) == node_of(other, entry, place, None, None));
    }
}

proof fn lemma_probed_from_nothing(
    one: ScanOptions,
    other: ScanOptions,
    probe: Probe,
    place: Place,
)
    requires
        !place.incremental,
        same_request(one, other),
    ensures
        ({
            let some = probe_scanned(one, probe, place, None, None);
            let all = probe_scanned(other, probe, place, None, None);
            some is Some == all is Some && (some is Some ==> some->0.content == all->0.content)
        }),
    decreases probe, 0int, 0int,
{
    if let Probe::Directory { device, inode, listing } = probe {
        if let Some(region) = walked(one.ignores.view(), place.path, true, place.within) {
            let inner = Place { within: region, device, depth: place.depth + 1, ..place };
            assert(decreases_to!(probe => probe->listing));
            lemma_from_nothing(one, other, listing, inner);
        }
    }
}

/// Marking what changed is enough. Where every entry that was created,
/// changed, removed or replaced since the earlier scan was marked, itself or
/// with a directory on the way to it, an incremental scan finds the tree that
/// a full scan finds, and the directories, files, symbolic links and bytes of
/// the one are those of the other. The earlier scan may have taken digests
/// over from one before it, where they were those of the files. No mark may
/// lie strictly below an entry whose name is not text or is reserved, where
/// the directory that holds it is not listed again; and no two entries of a
/// directory whose names are text may have one name in the tree.
pub proof fn law_marking_what_changed_is_enough(
    earlier: ScanOptions,
    prior: Option<NodeView>,
    before: Listing,
    baseline: NodeView,
    o: ScanOptions,
    now: Listing,
    device: u64,
    dirty: DirtyPaths,
)
    requires
        same_request(o, earlier),
        baseline.content == root_scanned(earlier, before, device, prior, None).content,
        prior is None || earlier.rehash || digests_current(
            earlier,
            before,
            Place { path: Seq::empty(), within: false, device, depth: 0, incremental: false },
            prior,
        ),
        dirty.well_formed(),
        changes_marked(o, before, now, Some(dirty.root)),
        marks_clear(o, now, dirty.root),
        names_distinct(o, before),
        names_distinct(o, now),
    ensures
        ({
            let some = root_scanned(o, now, device, Some(baseline), Some(dirty.root));
            let all = root_scanned(o, now, device, Some(baseline), None);
            some.content == all.content && totals(held(some.content)) == totals(all.counts)
        }),
{
    let root = Place { path: Seq::empty(), within: false, device, depth: 0, incremental: true };
    let full = Place { path: Seq::empty(), within: false, device, depth: 0, incremental: false };
    assert(in_full(root) == full);
    if prior is Some {
        if earlier.rehash {
            law_reading_again_trusts_nothing(earlier, before, device, prior);
        } else {
            law_taking_digests_over_changes_nothing(earlier, before, device, prior);
        }
    }
    lemma_from_nothing(o, earlier, before, full);
    lemma_agrees(o, before, now, root, baseline, Some(dirty.root));
    law_counts_are_those_of_the_tree(o, now, device, Some(baseline));
}

} // verus!
