//! What holds of every scan.
use crate::order::{before, before as before_text, increasing, lemma_slot, lemma_total, lemma_transitive, slot};
use crate::scan::dirty::DirtyNode;
use crate::scan::ignore::walked;
use crate::scan::names::{target_fault, temporary};
use crate::scan::probes::recomposed;
use crate::scan::walk::{
    entry_scanned, file_scanned, link_scanned, listed_scanned, listing_scanned, node_names, nothing,
    probe_scanned, recorded_name, reusable, root_scanned, settled, together, uncounted, with_node,
    Counts, LinkReading, Listing, Observed, Place, Probe, Reading, ScanOptions, SymlinkMode,
};
use crate::scan::{held, held_all};
use crate::text::has_prefix;
use crate::tree::{at_path, entries, joined_path, named, ContentView, FileMetadata, NodeView};
use vstd::prelude::*;

verus! {

/// The place of a walk that takes nothing over.
pub open spec fn in_full(place: Place) -> Place {
    Place { incremental: false, ..place }
}

/// Where nothing is known and nothing was reported, an incremental walk is a
/// full one.
proof fn lemma_unknown(
    o: ScanOptions,
    listing: Listing,
    place: Place,
    baseline: Option<NodeView>,
)
    requires
        baseline is None || !(baseline->0.content is Directory),
    ensures
        listing_scanned(o, listing, place, baseline, None) == listing_scanned(
            o,
            listing,
            in_full(place),
            baseline,
            None,
        ),
    decreases listing, 2int, 0int,
{
    if place.depth <= o.max_depth {
        if let Listing::Entries(list) = listing {
            lemma_unknown_listed(o, listing, list@.len() as int, place, baseline);
        }
    }
}

proof fn lemma_unknown_listed(
    o: ScanOptions,
    listing: Listing,
    n: int,
    place: Place,
    baseline: Option<NodeView>,
)
    requires
        baseline is None || !(baseline->0.content is Directory),
        listing is Entries,
        0 <= n <= listing->Entries_0@.len(),
    ensures
        listed_scanned(o, listing, n, place, baseline, None) == listed_scanned(
            o,
            listing,
            n,
            in_full(place),
            baseline,
            None,
        ),
    decreases listing, 1int, n,
{
    if n > 0 {
        lemma_unknown_listed(o, listing, n - 1, place, baseline);
        let entry = listing->Entries_0@[n - 1];
        let name = recorded_name(o, entry);
        let path = joined_path(place.path, name);
        if let Some(node) = baseline {
            assert(entries(node.content) =~= Seq::<NodeView>::empty());
        }
        assert(decreases_to!(listing => listing->Entries_0));
        assert(decreases_to!(listing->Entries_0 => listing->Entries_0@));
        assert(decreases_to!(listing->Entries_0@ => entry));
        assert(decreases_to!(entry => entry.probe));
        lemma_unknown_probe(o, entry.probe, Place { path, ..place }, None);
        assert(in_full(Place { path, ..place }) == Place { path, ..in_full(place) });
        let some = entry_scanned(o, entry, place, baseline, None);
        let all = entry_scanned(o, entry, in_full(place), baseline, None);
        assert(some == all);
    }
}

pub proof fn lemma_unknown_probe(
    o: ScanOptions,
    probe: Probe,
    place: Place,
    baseline: Option<NodeView>,
)
    requires
        baseline is None || !(baseline->0.content is Directory),
    ensures
        probe_scanned(o, probe, place, baseline, None) == probe_scanned(
            o,
            probe,
            in_full(place),
            baseline,
            None,
        ),
    decreases probe, 0int, 0int,
{
    if let Probe::Directory { device, inode, listing } = probe {
        if let Some(region) = walked(o.ignores.view(), place.path, true, place.within) {
            let inner = Place { within: region, device, depth: place.depth + 1, ..place };
            assert(decreases_to!(probe => probe->listing));
            lemma_unknown(o, listing, inner, baseline);
            assert(in_full(inner) == Place {
                within: region,
                device,
                depth: place.depth + 1,
                ..in_full(place)
            });
        }
    }
}

proof fn lemma_with_node(list: Seq<NodeView>, node: NodeView)
    requires
        increasing(node_names(list)),
    ensures
        increasing(node_names(with_node(list, node))),
{
    let names = node_names(list);
    lemma_slot(names, node.name);
    let i = slot(names, node.name);
    let all = node_names(with_node(list, node));
    if i < list.len() && list[i].name == node.name {
        assert(all =~= names);
    } else {
        assert(all =~= names.insert(i, node.name));
        if i < list.len() {
            assert(names[i] == list[i].name);
            lemma_total(names[i], node.name);
        }
        assert forall|a: int, b: int| 0 <= a < b < all.len() implies before(
            #[trigger] all[a],
            #[trigger] all[b],
        ) by {
            if a < i && b < i {
                assert(before(names[a], names[b]));
            } else if a < i && b == i {
            } else if a < i && b > i {
                assert(before(names[a], names[b - 1]));
            } else if a == i {
                if b - 1 > i {
                    assert(before(names[i], names[b - 1]));
                    lemma_transitive(node.name, names[i], names[b - 1]);
                }
            } else {
                assert(before(names[a - 1], names[b - 1]));
            }
        }
    }
}

/// The entries of a listed directory are in the order of their names, and no
/// two have one name.
pub proof fn law_entries_are_sorted_and_unique(list: Seq<NodeView>)
    ensures
        increasing(node_names(settled(list))),
    decreases list.len(),
{
    if list.len() == 0 {
        assert(node_names(settled(list)) =~= Seq::<Seq<char>>::empty());
    } else {
        law_entries_are_sorted_and_unique(list.drop_last());
        lemma_with_node(settled(list.drop_last()), list.last());
    }
}

/// No temporary of autobahn's own is recorded, whatever was known or
/// reported of it.
pub proof fn law_temporaries_are_not_recorded(
    o: ScanOptions,
    entry: Observed,
    place: Place,
    baseline: Option<NodeView>,
    dirty: Option<DirtyNode>,
)
    requires
        temporary(entry.name@),
    ensures
        entry_scanned(o, entry, place, baseline, dirty) is None,
{
    reveal_strlit(".autobahn-tmp-");
    reveal_strlit(".autobahn-tmp");
    let lead = ".autobahn-tmp-"@;
    assert(entry.name@.take(".autobahn-tmp"@.len() as int) =~= ".autobahn-tmp"@) by {
        assert(entry.name@.take(lead.len() as int) == lead);
        assert forall|k: int| 0 <= k < 13 implies entry.name@[k] == ".autobahn-tmp"@[k] by {
            assert(entry.name@.take(lead.len() as int)[k] == lead[k]);
        }
    }
}

/// A directory that holds autobahn's own state is left alone, whatever the
/// patterns say of it.
pub proof fn law_state_roots_are_left_alone(
    o: ScanOptions,
    probe: Probe,
    place: Place,
    baseline: Option<NodeView>,
    dirty: Option<DirtyNode>,
)
    requires
        probe is Directory,
        o.state_roots@.contains((probe->Directory_device, probe->inode)),
    ensures
        probe_scanned(o, probe, place, baseline, dirty) is Some,
        probe_scanned(o, probe, place, baseline, dirty)->0.content == ContentView::Untracked,
{
}

/// A directory that the patterns leave out is never opened: whatever it
/// holds, it is untracked.
pub proof fn law_an_ignored_directory_is_not_opened(
    o: ScanOptions,
    probe: Probe,
    place: Place,
    baseline: Option<NodeView>,
    dirty: Option<DirtyNode>,
)
    requires
        probe is Directory,
        walked(o.ignores.view(), place.path, true, place.within) is None,
    ensures
        probe_scanned(o, probe, place, baseline, dirty) == Some(uncounted(ContentView::Untracked)),
{
}

/// A file is read only where it has to be: one whose metadata is what the
/// earlier scan recorded, one over the size limit and one that the patterns
/// leave out come out the same whatever reading them would give.
pub proof fn law_a_known_file_is_not_read(
    o: ScanOptions,
    metadata: FileMetadata,
    one: Reading,
    other: Reading,
    place: Place,
    baseline: Option<NodeView>,
    dirty: Option<DirtyNode>,
)
    requires
        ({
            ||| !o.rehash && reusable(baseline, metadata, o.baseline_scanned_at) is Some
            ||| o.max_file_size matches Some(limit) && metadata.size > limit
            ||| walked(o.ignores.view(), place.path, false, place.within) is None
        }),
    ensures
        probe_scanned(o, Probe::File { metadata, reading: one }, place, baseline, dirty)
            == probe_scanned(o, Probe::File { metadata, reading: other }, place, baseline, dirty),
{
}

// ---------------------------------------------------------------------------
// What an earlier scan is taken over from
// ---------------------------------------------------------------------------

/// Whether the digests that an earlier scan recorded for the files of a
/// directory are those of the files now, where they would be taken over: no
/// file was written without its metadata showing it.
pub open spec fn digests_current(
    o: ScanOptions,
    listing: Listing,
    place: Place,
    baseline: Option<NodeView>,
) -> bool
    decreases listing, 1int, 0int,
{
    listing is Entries ==> forall|i: int|
        0 <= i < listing->Entries_0@.len() ==> entry_current(
            o,
            #[trigger] listing->Entries_0@[i],
            place,
            baseline,
        )
}

/// Whether the digests that an earlier scan recorded below an entry are those
/// of the files now.
pub open spec fn entry_current(
    o: ScanOptions,
    entry: Observed,
    place: Place,
    baseline: Option<NodeView>,
) -> bool
    decreases entry, 0int, 0int,
{
    let name = recorded_name(o, entry);
    let known = match baseline {
        Some(node) => named(entries(node.content), name),
        None => None,
    };
    probe_current(o, entry.probe, Place { path: joined_path(place.path, name), ..place }, known)
}

/// Whether the digests that an earlier scan recorded of what is probed are
/// those of the files now.
pub open spec fn probe_current(
    o: ScanOptions,
    probe: Probe,
    place: Place,
    baseline: Option<NodeView>,
) -> bool
    decreases probe, 0int, 0int,
{
    match probe {
        Probe::Directory { device, inode, listing } => {
            match walked(o.ignores.view(), place.path, true, place.within) {
                None => true,
                Some(region) => digests_current(
                    o,
                    listing,
                    Place { within: region, device, depth: place.depth + 1, ..place },
                    baseline,
                ),
            }
        },
        Probe::File { metadata, reading } => {
            reusable(baseline, metadata, o.baseline_scanned_at) matches Some(digest) ==> (
            reading matches Reading::Read { digest: now, .. } && now@ == digest)
        },
        _ => true,
    }
}

proof fn lemma_current_probe(
    o: ScanOptions,
    probe: Probe,
    place: Place,
    baseline: Option<NodeView>,
)
    requires
        !place.incremental,
        !o.rehash,
        probe_current(o, probe, place, baseline),
    ensures
        probe_scanned(o, probe, place, baseline, None) == probe_scanned(
            o,
            probe,
            place,
            None,
            None,
        ),
    decreases probe, 0int, 0int,
{
    if let Probe::Directory { device, inode, listing } = probe {
        if let Some(region) = walked(o.ignores.view(), place.path, true, place.within) {
            let inner = Place { within: region, device, depth: place.depth + 1, ..place };
            assert(decreases_to!(probe => probe->listing));
            lemma_current(o, listing, inner, baseline);
        }
    }
}

proof fn lemma_current_listed(
    o: ScanOptions,
    listing: Listing,
    n: int,
    place: Place,
    baseline: Option<NodeView>,
)
    requires
        !place.incremental,
        !o.rehash,
        listing is Entries,
        0 <= n <= listing->Entries_0@.len(),
        digests_current(o, listing, place, baseline),
    ensures
        listed_scanned(o, listing, n, place, baseline, None) == listed_scanned(
            o,
            listing,
            n,
            place,
            None,
            None,
        ),
    decreases listing, 0int, n,
{
    if n > 0 {
        lemma_current_listed(o, listing, n - 1, place, baseline);
        let entry = listing->Entries_0@[n - 1];
        assert(entry_current(o, entry, place, baseline));
        let name = recorded_name(o, entry);
        let path = joined_path(place.path, name);
        let known = match baseline {
            Some(node) => named(entries(node.content), name),
            None => None,
        };
        assert(decreases_to!(listing => listing->Entries_0));
        assert(decreases_to!(listing->Entries_0 => listing->Entries_0@));
        assert(decreases_to!(listing->Entries_0@ => entry));
        assert(decreases_to!(entry => entry.probe));
        lemma_current_probe(o, entry.probe, Place { path, ..place }, known);
        assert(entry_scanned(o, entry, place, baseline, None) == entry_scanned(
            o,
            entry,
            place,
            None,
            None,
        ));
    }
}

proof fn lemma_current(
    o: ScanOptions,
    listing: Listing,
    place: Place,
    baseline: Option<NodeView>,
)
    requires
        !place.incremental,
        !o.rehash,
        digests_current(o, listing, place, baseline),
    ensures
        listing_scanned(o, listing, place, baseline, None) == listing_scanned(
            o,
            listing,
            place,
            None,
            None,
        ),
    decreases listing, 1int, 0int,
{
    if place.depth <= o.max_depth {
        if let Listing::Entries(list) = listing {
            lemma_current_listed(o, listing, list@.len() as int, place, baseline);
        }
    }
}

/// A scan that takes digests over from an earlier one finds what a scan from
/// nothing finds, and counts the same, unless a file was written without its
/// metadata showing it.
pub proof fn law_taking_digests_over_changes_nothing(
    o: ScanOptions,
    listing: Listing,
    device: u64,
    baseline: Option<NodeView>,
)
    requires
        !o.rehash,
        digests_current(
            o,
            listing,
            Place { path: Seq::empty(), within: false, device, depth: 0, incremental: false },
            baseline,
        ),
    ensures
        root_scanned(o, listing, device, baseline, None) == root_scanned(
            o,
            listing,
            device,
            None,
            None,
        ),
{
    lemma_current(
        o,
        listing,
        Place { path: Seq::empty(), within: false, device, depth: 0, incremental: false },
        baseline,
    );
}

proof fn lemma_reread_probe(
    o: ScanOptions,
    probe: Probe,
    place: Place,
    baseline: Option<NodeView>,
)
    requires
        !place.incremental,
        o.rehash,
    ensures
        ({
            let some = probe_scanned(o, probe, place, baseline, None);
            let all = probe_scanned(o, probe, place, None, None);
            some is Some == all is Some && (some is Some ==> some->0.content == all->0.content)
        }),
    decreases probe, 0int, 0int,
{
    if let Probe::Directory { device, inode, listing } = probe {
        if let Some(region) = walked(o.ignores.view(), place.path, true, place.within) {
            let inner = Place { within: region, device, depth: place.depth + 1, ..place };
            assert(decreases_to!(probe => probe->listing));
            lemma_reread(o, listing, inner, baseline);
        }
    }
}

proof fn lemma_reread_listed(
    o: ScanOptions,
    listing: Listing,
    n: int,
    place: Place,
    baseline: Option<NodeView>,
)
    requires
        !place.incremental,
        o.rehash,
        listing is Entries,
        0 <= n <= listing->Entries_0@.len(),
    ensures
        listed_scanned(o, listing, n, place, baseline, None).nodes == listed_scanned(
            o,
            listing,
            n,
            place,
            None,
            None,
        ).nodes,
    decreases listing, 0int, n,
{
    if n > 0 {
        lemma_reread_listed(o, listing, n - 1, place, baseline);
        let entry = listing->Entries_0@[n - 1];
        let name = recorded_name(o, entry);
        let path = joined_path(place.path, name);
        let known = match baseline {
            Some(node) => named(entries(node.content), name),
            None => None,
        };
        assert(decreases_to!(listing => listing->Entries_0));
        assert(decreases_to!(listing->Entries_0 => listing->Entries_0@));
        assert(decreases_to!(listing->Entries_0@ => entry));
        assert(decreases_to!(entry => entry.probe));
        lemma_reread_probe(o, entry.probe, Place { path, ..place }, known);
        let some = entry_scanned(o, entry, place, baseline, None);
        let all = entry_scanned(o, entry, place, None, None);
        assert(some is Some == all is Some);
        assert(some is Some ==> (some->0).0 == (all->0).0);
    }
}

proof fn lemma_reread(
    o: ScanOptions,
    listing: Listing,
    place: Place,
    baseline: Option<NodeView>,
)
    requires
        !place.incremental,
        o.rehash,
    ensures
        listing_scanned(o, listing, place, baseline, None).content == listing_scanned(
            o,
            listing,
            place,
            None,
            None,
        ).content,
    decreases listing, 1int, 0int,
{
    if place.depth <= o.max_depth {
        if let Listing::Entries(list) = listing {
            lemma_reread_listed(o, listing, list@.len() as int, place, baseline);
        }
    }
}

/// A scan that reads every file again finds what a scan from nothing finds,
/// whatever an earlier one recorded.
pub proof fn law_reading_again_trusts_nothing(
    o: ScanOptions,
    listing: Listing,
    device: u64,
    baseline: Option<NodeView>,
)
    requires
        o.rehash,
    ensures
        root_scanned(o, listing, device, baseline, None).content == root_scanned(
            o,
            listing,
            device,
            None,
            None,
        ).content,
{
    lemma_reread(
        o,
        listing,
        Place { path: Seq::empty(), within: false, device, depth: 0, incremental: false },
        baseline,
    );
}

// ---------------------------------------------------------------------------
// Counting
// ---------------------------------------------------------------------------

/// The numbers of a count.
pub open spec fn totals(c: Counts) -> (int, int, int, int) {
    (c.directories, c.files, c.symlinks, c.size)
}

/// The name an entry has in the tree, where it has one.
pub open spec fn noted_name(o: ScanOptions, entry: Observed) -> Seq<char> {
    if has_prefix(entry.name@, ".autobahn-tmp"@) {
        entry.name@
    } else {
        recorded_name(o, entry)
    }
}

/// Whether an entry is recorded only as a problem or as left out, whatever it
/// is: its name is not text, or is reserved.
pub open spec fn odd(entry: Observed) -> bool {
    !entry.utf8 || has_prefix(entry.name@, ".autobahn-tmp"@)
}

/// Whether no two entries of a directory have one name in the tree, nor any
/// further down, but for entries whose names are not text or are reserved.
pub open spec fn names_distinct(o: ScanOptions, listing: Listing) -> bool
    decreases listing,
{
    listing is Entries ==> {
        &&& forall|i: int, j: int|
            0 <= i < j < listing->Entries_0@.len() && noted_name(
                o,
                #[trigger] listing->Entries_0@[i],
            ) == noted_name(o, #[trigger] listing->Entries_0@[j]) ==> odd(
                listing->Entries_0@[i],
            ) && odd(listing->Entries_0@[j])
        &&& forall|i: int|
            0 <= i < listing->Entries_0@.len() ==> probe_distinct(
                o,
                (#[trigger] listing->Entries_0@[i]).probe,
            )
    }
}

/// Whether the names below what is probed are distinct.
pub open spec fn probe_distinct(o: ScanOptions, probe: Probe) -> bool
    decreases probe,
{
    match probe {
        Probe::Directory { device, inode, listing } => names_distinct(o, listing),
        _ => true,
    }
}

proof fn lemma_held_insert(list: Seq<NodeView>, i: int, node: NodeView)
    requires
        0 <= i <= list.len(),
    ensures
        totals(held_all(list.insert(i, node))) == totals(
            together(held_all(list), held(node.content)),
        ),
    decreases list.len(),
{
    let all = list.insert(i, node);
    if i == list.len() {
        assert(all.drop_last() =~= list);
    } else {
        lemma_held_insert(list.drop_last(), i, node);
        assert(all.drop_last() =~= list.drop_last().insert(i, node));
        assert(all.last() == list.last());
    }
}

/// Whether content counts for nothing.
spec fn weightless(content: ContentView) -> bool {
    content is Problematic || content is Untracked
}

proof fn lemma_held_update(list: Seq<NodeView>, i: int, node: NodeView)
    requires
        0 <= i < list.len(),
        weightless(list[i].content),
        weightless(node.content),
    ensures
        totals(held_all(list.update(i, node))) == totals(held_all(list)),
    decreases list.len(),
{
    let all = list.update(i, node);
    if i == list.len() - 1 {
        assert(all.drop_last() =~= list.drop_last());
        assert(all.last() == node);
        assert(totals(held(node.content)) == totals(held(list.last().content)));
    } else {
        lemma_held_update(list.drop_last(), i, node);
        assert(all.drop_last() =~= list.drop_last().update(i, node));
        assert(all.last() == list.last());
    }
}

proof fn lemma_counted_probe(
    o: ScanOptions,
    probe: Probe,
    place: Place,
    baseline: Option<NodeView>,
)
    requires
        !place.incremental,
        probe_distinct(o, probe),
    ensures
        probe_scanned(o, probe, place, baseline, None) matches Some(found) ==> totals(
            found.counts,
        ) == totals(held(found.content)),
    decreases probe, 0int, 0int,
{
    if let Probe::Directory { device, inode, listing } = probe {
        if let Some(region) = walked(o.ignores.view(), place.path, true, place.within) {
            let inner = Place { within: region, device, depth: place.depth + 1, ..place };
            assert(decreases_to!(probe => probe->listing));
            lemma_counted(o, listing, inner, baseline);
        }
    }
}

/// Whether a node is what one of the first `n` entries is recorded as.
spec fn recorded_from(o: ScanOptions, listing: Listing, n: int, node: NodeView) -> bool {
    exists|i: int|
        0 <= i < n && node.name == noted_name(o, #[trigger] listing->Entries_0@[i]) && (odd(
            listing->Entries_0@[i],
        ) ==> weightless(node.content))
}

proof fn lemma_counted_listed(
    o: ScanOptions,
    listing: Listing,
    n: int,
    place: Place,
    baseline: Option<NodeView>,
)
    requires
        !place.incremental,
        listing is Entries,
        0 <= n <= listing->Entries_0@.len(),
        names_distinct(o, listing),
    ensures
        ({
            let found = listed_scanned(o, listing, n, place, baseline, None);
            totals(held_all(settled(found.nodes))) == totals(found.counts) && forall|k: int|
                0 <= k < settled(found.nodes).len() ==> recorded_from(
                    o,
                    listing,
                    n,
                    #[trigger] settled(found.nodes)[k],
                )
        }),
    decreases listing, 0int, n,
{
    if n > 0 {
        lemma_counted_listed(o, listing, n - 1, place, baseline);
        let front = listed_scanned(o, listing, n - 1, place, baseline, None);
        let found = listed_scanned(o, listing, n, place, baseline, None);
        let before = settled(front.nodes);
        let after = settled(found.nodes);
        let entry = listing->Entries_0@[n - 1];
        let name = recorded_name(o, entry);
        let path = joined_path(place.path, name);
        let known = match baseline {
            Some(node) => named(entries(node.content), name),
            None => None,
        };
        assert(decreases_to!(listing => listing->Entries_0));
        assert(decreases_to!(listing->Entries_0 => listing->Entries_0@));
        assert(decreases_to!(listing->Entries_0@ => entry));
        assert(decreases_to!(entry => entry.probe));
        assert(probe_distinct(o, entry.probe));
        lemma_counted_probe(o, entry.probe, Place { path, ..place }, known);
        assert forall|k: int| 0 <= k < before.len() implies recorded_from(
            o,
            listing,
            n,
            #[trigger] before[k],
        ) by {
            let i = choose|i: int|
                0 <= i < n - 1 && before[k].name == noted_name(
                    o,
                    #[trigger] listing->Entries_0@[i],
                ) && (odd(listing->Entries_0@[i]) ==> weightless(before[k].content));
            assert(before[k].name == noted_name(o, listing->Entries_0@[i]));
        }
        if let Some((node, counts)) = entry_scanned(o, entry, place, baseline, None) {
            assert(totals(counts) == totals(held(node.content)));
            assert(node.name == noted_name(o, entry));
            assert(odd(entry) ==> weightless(node.content));
            assert(recorded_from(o, listing, n, node)) by {
                assert(node.name == noted_name(o, listing->Entries_0@[n - 1]));
            }
            assert(found.nodes.drop_last() =~= front.nodes);
            let at = slot(node_names(before), node.name);
            law_entries_are_sorted_and_unique(front.nodes);
            lemma_slot(node_names(before), node.name);
            if at < before.len() && before[at].name == node.name {
                assert(recorded_from(o, listing, n - 1, before[at]));
                let i = choose|i: int|
                    0 <= i < n - 1 && before[at].name == noted_name(
                        o,
                        #[trigger] listing->Entries_0@[i],
                    ) && (odd(listing->Entries_0@[i]) ==> weightless(before[at].content));
                assert(noted_name(o, listing->Entries_0@[i]) == noted_name(
                    o,
                    listing->Entries_0@[n - 1],
                ));
                assert(after == before.update(at, node));
                lemma_held_update(before, at, node);
            } else {
                assert(after == before.insert(at, node));
                lemma_held_insert(before, at, node);
            }
            assert forall|k: int| 0 <= k < after.len() implies recorded_from(
                o,
                listing,
                n,
                #[trigger] after[k],
            ) by {
                if after.len() == before.len() {
                    assert(after[k] == (if k == at {
                        node
                    } else {
                        before[k]
                    }));
                } else {
                    assert(after[k] == (if k == at {
                        node
                    } else if k < at {
                        before[k]
                    } else {
                        before[k - 1]
                    }));
                }
            }
        } else {
            assert(found == front);
        }
    }
}

proof fn lemma_counted(
    o: ScanOptions,
    listing: Listing,
    place: Place,
    baseline: Option<NodeView>,
)
    requires
        !place.incremental,
        names_distinct(o, listing),
    ensures
        ({
            let found = listing_scanned(o, listing, place, baseline, None);
            totals(found.counts) == totals(held(found.content))
        }),
    decreases listing, 1int, 0int,
{
    if place.depth <= o.max_depth {
        if let Listing::Entries(list) = listing {
            lemma_counted_listed(o, listing, list@.len() as int, place, baseline);
        }
    }
}

/// What a full scan counts is what the tree it finds holds, so that counting
/// the tree anew gives the same numbers, where no two entries of a directory
/// whose names are text have one name in the tree.
pub proof fn law_counts_are_those_of_the_tree(
    o: ScanOptions,
    listing: Listing,
    device: u64,
    baseline: Option<NodeView>,
)
    requires
        names_distinct(o, listing),
    ensures
        ({
            let found = root_scanned(o, listing, device, baseline, None);
            totals(found.counts) == totals(held(found.content))
        }),
{
    lemma_counted(
        o,
        listing,
        Place { path: Seq::empty(), within: false, device, depth: 0, incremental: false },
        baseline,
    );
}

// ---------------------------------------------------------------------------
// What a file and a link are recorded as
// ---------------------------------------------------------------------------

/// A file is executable exactly where its mode lets its owner, its group or
/// others execute it: one of the three bits is enough.
pub proof fn law_one_execute_bit_makes_a_file_executable(
    o: ScanOptions,
    path: Seq<char>,
    metadata: FileMetadata,
    reading: Reading,
    baseline: Option<NodeView>,
)
    ensures
        file_scanned(o, path, metadata, reading, baseline).content matches ContentView::File {
            executable,
            ..
        } ==> executable == (metadata.mode & 0o100 != 0 || metadata.mode & 0o010 != 0
            || metadata.mode & 0o001 != 0),
{
    let mode = metadata.mode;
    assert((mode & 73 != 0) == (mode & 0o100 != 0 || mode & 0o010 != 0 || mode & 0o001 != 0))
        by (bit_vector);
}

/// What a file is recorded as. One over the size limit is left alone, and one
/// at the limit is not over it. One that has to be read is recorded with the
/// digest that reading it gave and with what its entry says; where it changed
/// or could not be read, it is a problem. Where an earlier digest is taken
/// over, the file is recorded with that one. A file that is recorded counts as
/// one, with its size; anything else counts for nothing.
pub proof fn law_a_file_is_recorded_as_it_was_read(
    o: ScanOptions,
    path: Seq<char>,
    metadata: FileMetadata,
    reading: Reading,
    baseline: Option<NodeView>,
)
    ensures
        ({
            let found = file_scanned(o, path, metadata, reading, baseline);
            let over = o.max_file_size is Some && metadata.size > o.max_file_size->0;
            let kept = reusable(baseline, metadata, o.baseline_scanned_at);
            let reads = !over && (o.rehash || kept is None);
            &&& over <==> found.content is Untracked
            &&& reads && reading is Read ==> (found.content matches ContentView::File {
                digest,
                metadata: m,
                ..
            } && digest == reading->digest@ && m == metadata)
            &&& reads && !(reading is Read) ==> found.content is Problematic
            &&& !over && !reads ==> (found.content matches ContentView::File {
                digest,
                metadata: m,
                ..
            } && digest == kept->0 && m == metadata)
            &&& found.counts.files == (if found.content is File {
                1int
            } else {
                0
            })
            &&& found.counts.size == (if found.content is File {
                metadata.size as int
            } else {
                0
            })
            &&& found.counts.directories == 0 && found.counts.symlinks == 0
            &&& found.counts.mounts.len() == 0
            &&& found.counts.silent.len() <= 1 && (found.counts.silent.len() == 1
                ==> found.counts.silent[0] == path && o.rehash && found.content is File)
        }),
{
}

/// A digest is taken over from an earlier scan exactly where that scan
/// recorded a file whose time of modification to the nanosecond, size, inode
/// and kind are those of the file now, and which was modified more than two
/// seconds before the time of that scan, which is known.
pub proof fn law_a_digest_is_taken_over_from_the_same_file(
    earlier: NodeView,
    fresh: FileMetadata,
    at: i64,
)
    ensures
        reusable(None, fresh, Some(at)) is None,
        reusable(Some(earlier), fresh, None) is None,
        !(earlier.content is File) ==> reusable(Some(earlier), fresh, Some(at)) is None,
        earlier.content matches ContentView::File { digest, metadata, .. } ==> reusable(
            Some(earlier),
            fresh,
            Some(at),
        ) == (if at != 0 && metadata.mtime_seconds + 2 < at && metadata.mtime_seconds
            == fresh.mtime_seconds && metadata.mtime_nanos == fresh.mtime_nanos && metadata.size
            == fresh.size && metadata.inode == fresh.inode && metadata.mode & 0o170000 == fresh.mode
            & 0o170000 {
            Some(digest)
        } else {
            None
        }),
{
}

/// A file that a rereading scan finds with other content, though its entry
/// says what an earlier scan recorded, is told of; no other file is.
pub proof fn law_a_silent_change_is_told_of(
    o: ScanOptions,
    path: Seq<char>,
    metadata: FileMetadata,
    reading: Reading,
    earlier: NodeView,
)
    requires
        o.rehash,
        reading is Read,
        o.max_file_size is None,
        earlier.content is File,
    ensures
        file_scanned(o, path, metadata, reading, Some(earlier)).counts.silent == (if ({
            let m = earlier.content->metadata;
            m.mtime_seconds == metadata.mtime_seconds && m.mtime_nanos == metadata.mtime_nanos
                && m.size == metadata.size && m.inode == metadata.inode
                && earlier.content->digest != reading->digest@
        }) {
            seq![path]
        } else {
            Seq::empty()
        }),
        file_scanned(o, path, metadata, reading, None).counts.silent.len() == 0,
{
}

/// What a symbolic link is recorded as. Where links are ignored it is left
/// alone. Otherwise one whose target is read is recorded with that target as
/// it stands, unless the target is empty, or only portable links are carried
/// and this one is not; such a link, and one that could not be read, is a
/// problem.
pub proof fn law_a_link_is_recorded_as_it_points(
    o: ScanOptions,
    path: Seq<char>,
    reading: LinkReading,
)
    ensures
        ({
            let found = link_scanned(o, path, reading);
            let ignored = o.symlink_mode == SymlinkMode::Ignore;
            let carried = !ignored && reading is Target && reading->target@.len() > 0 && (
            o.symlink_mode == SymlinkMode::Raw || target_fault(path, reading->target@) is None);
            &&& ignored <==> found.content is Untracked
            &&& carried <==> found.content == (ContentView::Symlink { target: reading->target@ })
            &&& !ignored && !carried <==> found.content is Problematic
            &&& found.counts == (Counts {
                symlinks: if carried {
                    1
                } else {
                    0
                },
                ..nothing()
            })
        }),
{
}

/// What an entry is recorded as, by what was found. What is gone is not
/// recorded; what could not be looked at is a problem that says why; what is
/// neither a file, a link nor a directory is left alone, and so is what the
/// patterns leave out. A file and a link are what they were read as.
pub proof fn law_an_entry_is_what_was_found(
    o: ScanOptions,
    place: Place,
    baseline: Option<NodeView>,
    dirty: Option<DirtyNode>,
    message: String,
    metadata: FileMetadata,
    reading: Reading,
    link: LinkReading,
)
    ensures
        probe_scanned(o, Probe::Missing, place, baseline, dirty) is None,
        probe_scanned(o, Probe::Failed { message }, place, baseline, dirty) == Some(
            uncounted(
                ContentView::Problematic { message: "unable to probe entry: "@ + message@ },
            ),
        ),
        probe_scanned(o, Probe::Other, place, baseline, dirty) == Some(
            uncounted(ContentView::Untracked),
        ),
        ({
            let left = walked(o.ignores.view(), place.path, false, place.within) is None;
            let file = probe_scanned(o, Probe::File { metadata, reading }, place, baseline, dirty);
            let symlink = probe_scanned(o, Probe::Symlink { reading: link }, place, baseline, dirty);
            &&& left ==> file == Some(uncounted(ContentView::Untracked)) && symlink == Some(
                uncounted(ContentView::Untracked),
            )
            &&& !left ==> file == Some(file_scanned(o, place.path, metadata, reading, baseline))
                && symlink == Some(link_scanned(o, place.path, link))
        }),
{
}

/// What a directory is recorded as. One on another device is a mount point,
/// and is told of as one; where mounts are left alone it is not entered.
/// Otherwise it is what it holds, one level further down, on its own device
/// and in the region the patterns put it in.
pub proof fn law_a_directory_is_what_it_holds(
    o: ScanOptions,
    device: u64,
    inode: u64,
    listing: Listing,
    place: Place,
    region: bool,
    baseline: Option<NodeView>,
    dirty: Option<DirtyNode>,
)
    requires
        !o.state_roots@.contains((device, inode)),
        walked(o.ignores.view(), place.path, true, place.within) == Some(region),
    ensures
        ({
            let found = probe_scanned(
                o,
                Probe::Directory { device, inode, listing },
                place,
                baseline,
                dirty,
            );
            let inner = listing_scanned(
                o,
                listing,
                Place {
                    path: place.path,
                    within: region,
                    device,
                    depth: place.depth + 1,
                    incremental: place.incremental,
                },
                baseline,
                dirty,
            );
            let mounted = device != place.device;
            &&& found is Some
            &&& mounted && o.ignore_mounts ==> found->0.content is Untracked
                && found->0.counts.mounts == seq![place.path] && found->0.counts.directories == 0
            &&& !(mounted && o.ignore_mounts) ==> found->0.content == inner.content
                && found->0.counts.directories == inner.counts.directories
                && found->0.counts.files == inner.counts.files && found->0.counts.size
                == inner.counts.size && found->0.counts.symlinks == inner.counts.symlinks
            &&& mounted && !o.ignore_mounts ==> found->0.counts.mounts == seq![place.path]
                + inner.counts.mounts
            &&& !mounted ==> found->0.counts.mounts == inner.counts.mounts
        }),
{
    let inner = listing_scanned(
        o,
        listing,
        Place { within: region, device, depth: place.depth + 1, ..place },
        baseline,
        dirty,
    );
    assert(Seq::<Seq<char>>::empty() + inner.counts.mounts =~= inner.counts.mounts);
}

/// A directory too many levels below the root is a problem, and so is one that
/// cannot be listed.
pub proof fn law_what_cannot_be_listed_is_a_problem(
    o: ScanOptions,
    listing: Listing,
    place: Place,
    baseline: Option<NodeView>,
)
    requires
        !place.incremental,
    ensures
        place.depth > o.max_depth || listing is Failed <==> listing_scanned(
            o,
            listing,
            place,
            baseline,
            None,
        ).content is Problematic,
        !(listing_scanned(o, listing, place, baseline, None).content is Problematic)
            ==> listing_scanned(o, listing, place, baseline, None).content is Directory,
{
}

/// A name that starts with the reserved prefix is recorded as a problem, where
/// it is no temporary of autobahn's own, whatever it names; a name that is not
/// text is one too, under a name that says so, unless the patterns leave it
/// out. Any other entry is recorded under its own name.
pub proof fn law_a_name_that_cannot_travel_is_a_problem(
    o: ScanOptions,
    entry: Observed,
    place: Place,
    baseline: Option<NodeView>,
)
    requires
        !place.incremental,
        !temporary(entry.name@),
    ensures
        ({
            let found = entry_scanned(o, entry, place, baseline, None);
            let node = (found->0).0;
            let reserved = has_prefix(entry.name@, ".autobahn-tmp"@);
            &&& reserved ==> found is Some && node.name == entry.name@
                && node.content is Problematic
            &&& !reserved && !entry.utf8 ==> found is Some && node.name == entry.name@
                + " (non-UTF-8)"@ && (node.content is Problematic
                || node.content is Untracked)
            &&& !reserved && !entry.utf8 && o.ignores.view().len() == 0 && !place.within
                ==> node.content is Problematic
            &&& !reserved && entry.utf8 && found is Some && !o.behavior.decomposes_unicode
                ==> node.name == entry.name@
            &&& !reserved && entry.utf8 && found is Some && o.behavior.decomposes_unicode
                ==> node.name == recomposed(entry.name@)
        }),
{
}

/// The node of a name is the last that was listed with it.
proof fn lemma_settled(list: Seq<NodeView>, node: NodeView)
    ensures
        settled(list).contains(node) <==> exists|i: int|
            0 <= i < list.len() && #[trigger] list[i] == node && forall|j: int|
                i < j < list.len() ==> (#[trigger] list[j]).name != node.name,
    decreases list.len(),
{
    if list.len() > 0 {
        let front = list.drop_last();
        let last = list.last();
        let before = settled(front);
        lemma_settled(front, node);
        law_entries_are_sorted_and_unique(front);
        let names = node_names(before);
        lemma_slot(names, last.name);
        let at = slot(names, last.name);
        let all = settled(list);
        let there = at < before.len() && before[at].name == last.name;
        assert forall|k: int| 0 <= k < before.len() && before[k].name == last.name implies k == at
            && there by {
            assert(names[k] == last.name);
            if k < at {
                assert(before_text(names[k], last.name));
                lemma_not_before_itself(last.name);
            } else if k > at {
                assert(before_text(names[at], names[k]));
            }
        }
        if node.name == last.name {
            if all.contains(node) {
                let k = choose|k: int| 0 <= k < all.len() && all[k] == node;
                assert(node == last) by {
                    if there {
                        if k != at {
                            assert(before[k] == node);
                        }
                    } else {
                        if k < at {
                            assert(before[k] == node);
                        } else if k > at {
                            assert(before[k - 1] == node);
                        }
                    }
                }
                assert(list[list.len() - 1] == node);
            }
            if exists|i: int|
                0 <= i < list.len() && #[trigger] list[i] == node && forall|j: int|
                    i < j < list.len() ==> (#[trigger] list[j]).name != node.name {
                let i = choose|i: int|
                    0 <= i < list.len() && #[trigger] list[i] == node && forall|j: int|
                        i < j < list.len() ==> (#[trigger] list[j]).name != node.name;
                if i < list.len() - 1 {
                    assert(list[list.len() - 1].name != node.name);
                }
                assert(node == last);
                assert(all[at] == last);
            }
        } else {
            if all.contains(node) {
                let k = choose|k: int| 0 <= k < all.len() && all[k] == node;
                assert(before.contains(node)) by {
                    if there {
                        assert(before[k] == node);
                    } else if k < at {
                        assert(before[k] == node);
                    } else {
                        assert(k != at);
                        assert(before[k - 1] == node);
                    }
                }
                let i = choose|i: int|
                    0 <= i < front.len() && #[trigger] front[i] == node && forall|j: int|
                        i < j < front.len() ==> (#[trigger] front[j]).name != node.name;
                assert(list[i] == node);
                assert forall|j: int| i < j < list.len() implies (#[trigger] list[j]).name
                    != node.name by {
                    if j < front.len() {
                        assert(front[j].name != node.name);
                    }
                }
            }
            if exists|i: int|
                0 <= i < list.len() && #[trigger] list[i] == node && forall|j: int|
                    i < j < list.len() ==> (#[trigger] list[j]).name != node.name {
                let i = choose|i: int|
                    0 <= i < list.len() && #[trigger] list[i] == node && forall|j: int|
                        i < j < list.len() ==> (#[trigger] list[j]).name != node.name;
                assert(front[i] == node);
                assert forall|j: int| i < j < front.len() implies (#[trigger] front[j]).name
                    != node.name by {
                    assert(list[j].name != node.name);
                }
                assert(before.contains(node));
                let k = choose|k: int| 0 <= k < before.len() && before[k] == node;
                if there {
                    assert(all[k] == node);
                } else if k < at {
                    assert(all[k] == node);
                } else {
                    assert(all[k + 1] == node);
                }
            }
        }
    }
}

proof fn lemma_not_before_itself(text: Seq<char>)
    ensures
        !before_text(text, text),
    decreases text.len(),
{
    if text.len() > 0 {
        lemma_not_before_itself(text.skip(1));
    }
}

/// What the first listed entries are, entry by entry.
proof fn lemma_listed(
    o: ScanOptions,
    listing: Listing,
    n: int,
    place: Place,
    baseline: Option<NodeView>,
    node: NodeView,
)
    requires
        listing is Entries,
        0 <= n <= listing->Entries_0@.len(),
    ensures
        listed_scanned(o, listing, n, place, baseline, None).nodes.contains(node) <==> exists|i: int|
            0 <= i < n && #[trigger] recorded_as(o, listing->Entries_0@[i], place, baseline) == Some(
                node,
            ),
    decreases n,
{
    if n > 0 {
        lemma_listed(o, listing, n - 1, place, baseline, node);
        let front = listed_scanned(o, listing, n - 1, place, baseline, None).nodes;
        let all = listed_scanned(o, listing, n, place, baseline, None).nodes;
        let entry = listing->Entries_0@[n - 1];
        assert(recorded_as(o, entry, place, baseline) == match entry_scanned(
            o,
            entry,
            place,
            baseline,
            None,
        ) {
            None => None,
            Some(found) => Some(found.0),
        });
        if let Some(found) = entry_scanned(o, entry, place, baseline, None) {
            assert(all == front.push(found.0));
            assert(all[all.len() - 1] == found.0);
            if front.contains(node) {
                let k = choose|k: int| 0 <= k < front.len() && front[k] == node;
                assert(all[k] == node);
            }
            if all.contains(node) {
                let k = choose|k: int| 0 <= k < all.len() && all[k] == node;
                if k < front.len() {
                    assert(front[k] == node);
                }
            }
        }
    }
}

/// What an entry is recorded as in a full walk, where it is.
pub open spec fn recorded_as(
    o: ScanOptions,
    entry: Observed,
    place: Place,
    baseline: Option<NodeView>,
) -> Option<NodeView> {
    match entry_scanned(o, entry, place, baseline, None) {
        None => None,
        Some(found) => Some(found.0),
    }
}

/// A directory that is walked holds a node for each of its entries that is
/// recorded, and no other node; where several entries have one name, the last
/// of them stands for all.
pub proof fn law_a_directory_holds_what_was_listed(
    o: ScanOptions,
    listing: Listing,
    place: Place,
    baseline: Option<NodeView>,
    node: NodeView,
)
    requires
        listing is Entries,
        !place.incremental,
        place.depth <= o.max_depth,
    ensures
        ({
            let content = listing_scanned(o, listing, place, baseline, None).content;
            let list = listing->Entries_0@;
            &&& content is Directory
            &&& entries(content).contains(node) ==> exists|i: int|
                0 <= i < list.len() && #[trigger] recorded_as(o, list[i], place, baseline) == Some(
                    node,
                )
            &&& (forall|i: int|
                0 <= i < list.len() ==> ({
                    let recorded = #[trigger] recorded_as(o, list[i], place, baseline);
                    recorded is Some && recorded->0.name == node.name ==> recorded->0 == node
                })) && (exists|i: int|
                0 <= i < list.len() && #[trigger] recorded_as(o, list[i], place, baseline) == Some(
                    node,
                )) ==> entries(content).contains(node)
        }),
{
    let list = listing->Entries_0@;
    let n = list.len() as int;
    let nodes = listed_scanned(o, listing, n, place, baseline, None).nodes;
    lemma_listed(o, listing, n, place, baseline, node);
    lemma_settled(nodes, node);
    assert(entries(listing_scanned(o, listing, place, baseline, None).content) == settled(nodes));
    if settled(nodes).contains(node) {
        let i = choose|i: int|
            0 <= i < nodes.len() && #[trigger] nodes[i] == node && forall|j: int|
                i < j < nodes.len() ==> (#[trigger] nodes[j]).name != node.name;
        assert(nodes.contains(node));
    }
    if (forall|i: int|
        0 <= i < list.len() ==> ({
            let recorded = #[trigger] recorded_as(o, list[i], place, baseline);
            recorded is Some && recorded->0.name == node.name ==> recorded->0 == node
        })) && nodes.contains(node) {
        let k = choose|k: int| 0 <= k < nodes.len() && nodes[k] == node;
        lemma_last_of_name(nodes, node, k);
        let i = choose|i: int|
            0 <= i < nodes.len() && (#[trigger] nodes[i]).name == node.name && forall|j: int|
                i < j < nodes.len() ==> (#[trigger] nodes[j]).name != node.name;
        lemma_listed(o, listing, n, place, baseline, nodes[i]);
        assert(nodes.contains(nodes[i]));
        assert(nodes[i] == node);
    }
}

proof fn lemma_last_of_name(nodes: Seq<NodeView>, node: NodeView, k: int)
    requires
        0 <= k < nodes.len(),
        nodes[k].name == node.name,
    ensures
        exists|i: int|
            0 <= i < nodes.len() && (#[trigger] nodes[i]).name == node.name && forall|j: int|
                i < j < nodes.len() ==> (#[trigger] nodes[j]).name != node.name,
    decreases nodes.len() - k,
{
    if exists|j: int| k < j < nodes.len() && (#[trigger] nodes[j]).name == node.name {
        let j = choose|j: int| k < j < nodes.len() && (#[trigger] nodes[j]).name == node.name;
        lemma_last_of_name(nodes, node, j);
    } else {
        assert(nodes[k].name == node.name);
    }
}

/// What a tree counts for: a directory for itself and what it holds, a file
/// for itself and its size, a link for itself, and anything else for nothing.
pub proof fn law_everything_in_a_tree_counts(children: Seq<NodeView>, child: NodeView)
    ensures
        ({
            let (some, one, all) = (
                held(ContentView::Directory(children)),
                held(child.content),
                held(ContentView::Directory(children.push(child))),
            );
            &&& held(ContentView::Directory(Seq::empty())).directories == 1
            &&& held(ContentView::Directory(Seq::empty())).files == 0
            &&& held(ContentView::Directory(Seq::empty())).symlinks == 0
            &&& held(ContentView::Directory(Seq::empty())).size == 0
            &&& all.directories == some.directories + one.directories
            &&& all.files == some.files + one.files
            &&& all.symlinks == some.symlinks + one.symlinks
            &&& all.size == some.size + one.size
            &&& child.content is File ==> one.files == 1 && one.size
                == child.content->metadata.size && one.directories == 0 && one.symlinks == 0
            &&& child.content is Symlink ==> one.symlinks == 1 && one.files == 0 && one.size == 0
                && one.directories == 0
            &&& child.content is Untracked || child.content is Problematic ==> one.files == 0
                && one.size == 0 && one.directories == 0 && one.symlinks == 0
        }),
{
    assert(children.push(child).drop_last() =~= children);
}

/// A mount point of an earlier scan is carried over exactly where something is
/// still there that was left alone, or a directory that is what it was.
pub proof fn law_a_mount_point_is_carried_while_it_is_one(
    points: Seq<Seq<char>>,
    n: int,
    root: NodeView,
    earlier: Option<NodeView>,
    point: Seq<char>,
)
    requires
        0 <= n <= points.len(),
    ensures
        crate::scan::carried(points, n, root, earlier).contains(point) <==> {
            &&& exists|i: int| 0 <= i < n && #[trigger] points[i] == point
            &&& at_path(Some(root), point) matches Some(now) && (now.content is Untracked || (
            now.content is Directory && at_path(earlier, point) == Some(now)))
        },
    decreases n,
{
    if n > 0 {
        law_a_mount_point_is_carried_while_it_is_one(points, n - 1, root, earlier, point);
        let front = crate::scan::carried(points, n - 1, root, earlier);
        let all = crate::scan::carried(points, n, root, earlier);
        if crate::scan::still_mounted(root, earlier, points[n - 1]) {
            assert(all[all.len() - 1] == points[n - 1]);
            if front.contains(point) {
                let k = choose|k: int| 0 <= k < front.len() && front[k] == point;
                assert(all[k] == point);
            }
            if all.contains(point) {
                let k = choose|k: int| 0 <= k < all.len() && all[k] == point;
                if k < front.len() {
                    assert(front[k] == point);
                }
            }
        }
    }
}

} // verus!
