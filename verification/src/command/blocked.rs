//! Blocked paths: reading the recorded entries, gathering those with one
//! cause, and saying what to do about them.
use crate::command::remote::{parse_remote, remote_parts};
use crate::globs::{
    always_compiles, compile_glob, glob_error_words, glob_is_match, glob_literal, glob_matches,
    glob_text, is_within_limits, matches_as_written, within_limits,
};
use crate::plan::SessionPlan;
use crate::text::{
    alphanumeric, among, any_control, any_of, chars_of, copy_strings, display_safe, find,
    first_index, first_occurrence, has_any, has_control, has_prefix, index_of, join_first, joined,
    lemma_first_index_is, lemma_first_occurrence, lowercase, occurs, occurs_at, same, same_text,
    segments, shell_quote, shell_quoted, shown_text, split, str_starts_with, string_of, strings,
    texts,
};
use vstd::prelude::*;
use vstd::slice::{slice_subrange, slice_to_vec};

verus! {

// ---------------------------------------------------------------------------
// Reading an entry
// ---------------------------------------------------------------------------

/// What follows the last occurrence of `pat`, or all where there is none.
#[verifier::opaque]
pub open spec fn after_last(s: Seq<char>, pat: Seq<char>) -> Seq<char>
    decreases s.len(),
{
    match first_occurrence(s, pat) {
        Some(i) => if 0 <= i && pat.len() > 0 && i + pat.len() <= s.len() {
            after_last(s.skip(i + pat.len()), pat)
        } else {
            s
        },
        None => s,
    }
}

/// What follows the last occurrence of `pat`, or all where there is none.
pub fn after_last_of(s: &[char], pat: &[char]) -> (r: Vec<char>)
    requires
        pat@.len() > 0,
    ensures
        r@ == after_last(s@, pat@),
{
    let mut from: usize = 0;
    assert(s@.skip(0) =~= s@);
    loop
        invariant
            from <= s@.len(),
            pat@.len() > 0,
            after_last(s@, pat@) == after_last(s@.skip(from as int), pat@),
        decreases s@.len() - from,
    {
        let rest = slice_subrange(s, from, s.len());
        assert(rest@ =~= s@.skip(from as int));
        match find(rest, pat) {
            None => {
                assert(after_last(rest@, pat@) == rest@) by {
                    reveal_with_fuel(after_last, 1);
                }
                return slice_to_vec(rest);
            },
            Some(i) => {
                assert(after_last(rest@, pat@) == after_last(rest@.skip(i + pat@.len()), pat@))
                    by {
                    reveal_with_fuel(after_last, 1);
                }
                assert(rest@.skip(i + pat@.len()) =~= s@.skip(from + i + pat@.len()));
                from = from + i + pat.len();
            },
        }
    }
}

/// The parts of a recorded entry: `side path: message`. The cause is the
/// innermost part of the message, since what wraps it repeats the path.
pub open spec fn entry_parts(entry: Seq<char>) -> (Seq<char>, Seq<char>, Seq<char>) {
    let space = first_index(entry, ' ');
    let side = if space < entry.len() {
        entry.take(space)
    } else {
        Seq::empty()
    };
    let rest = if space < entry.len() {
        entry.skip(space + 1)
    } else {
        entry
    };
    match first_occurrence(rest, ": "@) {
        Some(end) => (side, rest.take(end), after_last(rest.skip(end + 2), ": "@)),
        None => (side, rest, Seq::empty()),
    }
}

/// The path of a recorded entry; `None` where it names no side.
pub open spec fn entry_path(entry: Seq<char>) -> Option<Seq<char>> {
    if first_index(entry, ' ') < entry.len() {
        Some(entry_parts(entry).1)
    } else {
        None
    }
}

proof fn lemma_side(side: Seq<char>, rest: Seq<char>)
    requires
        !side.contains(' '),
    ensures
        first_index(side.push(' ') + rest, ' ') == side.len(),
        (side.push(' ') + rest).take(side.len() as int) == side,
        (side.push(' ') + rest).skip(side.len() as int + 1) == rest,
{
    let entry = side.push(' ') + rest;
    let n = side.len() as int;
    assert forall|k: int| 0 <= k < n implies entry[k] != ' ' by {
        assert(entry[k] == side[k]);
        assert(side.contains(side[k]));
    }
    lemma_first_index_is(entry, ' ', n);
    assert(entry.take(n) =~= side);
    assert(entry.skip(n + 1) =~= rest);
}

proof fn lemma_path(path: Seq<char>, message: Seq<char>)
    requires
        !occurs(path, seq![':', ' ']),
    ensures
        first_occurrence(path + seq![':', ' '] + message, seq![':', ' ']) == Some(
            path.len() as int,
        ),
        (path + seq![':', ' '] + message).take(path.len() as int) == path,
        (path + seq![':', ' '] + message).skip(path.len() as int + 2) == message,
{
    let pat = seq![':', ' '];
    let rest = path + pat + message;
    let end = path.len() as int;
    assert(rest.subrange(end, end + 2) =~= pat);
    assert forall|k: int| 0 <= k < end implies !occurs_at(rest, pat, k) by {
        if occurs_at(rest, pat, k) {
            let window = rest.subrange(k, k + 2);
            assert(window[0] == ':' && window[1] == ' ');
            if k + 2 <= end {
                assert(path.subrange(k, k + 2) =~= window);
                assert(occurs_at(path, pat, k));
            } else {
                assert(rest[k + 1] == ':');
            }
        }
    }
    lemma_first_occurrence(rest, pat, end);
    assert(rest.take(end) =~= path);
    assert(rest.skip(end + 2) =~= message);
}

/// An entry reads back as the side and the path it was recorded from,
/// whatever the message, and with the innermost part of that as its cause.
pub proof fn law_a_recorded_entry_reads_back(
    side: Seq<char>,
    path: Seq<char>,
    message: Seq<char>,
)
    requires
        !side.contains(' '),
        !occurs(path, ": "@),
    ensures
        entry_parts(side + " "@ + path + ": "@ + message) == (
            side,
            path,
            after_last(message, ": "@),
        ),
        entry_path(side + " "@ + path + ": "@ + message) == Some(path),
{
    reveal_strlit(" ");
    reveal_strlit(": ");
    assert(": "@ =~= seq![':', ' ']);
    let rest = path + ": "@ + message;
    lemma_side(side, rest);
    lemma_path(path, message);
    assert(side + " "@ + path + ": "@ + message =~= side.push(' ') + rest);
}

/// The side, path and cause of a recorded blocked entry.
pub fn blocked_parts(entry: &str) -> (r: (String, String, String))
    ensures
        (r.0@, r.1@, r.2@) == entry_parts(entry@),
{
    let all = chars_of(entry);
    let space: usize = index_of(all.as_slice(), ' ');
    let pat = chars_of(": ");
    proof {
        reveal_strlit(": ");
    }
    let from: usize = if space < all.len() {
        space + 1
    } else {
        0
    };
    let side = slice_subrange(
        all.as_slice(),
        0,
        if space < all.len() {
            space
        } else {
            0
        },
    );
    let rest = slice_subrange(all.as_slice(), from, all.len());
    assert(side@ =~= if space < entry@.len() {
        entry@.take(space as int)
    } else {
        Seq::empty()
    });
    assert(rest@ =~= if space < entry@.len() {
        entry@.skip(space + 1)
    } else {
        entry@
    });
    match find(rest, pat.as_slice()) {
        Some(end) => {
            let path = slice_subrange(rest, 0, end);
            let message = slice_subrange(rest, end + 2, rest.len());
            assert(path@ =~= rest@.take(end as int));
            assert(message@ =~= rest@.skip(end + 2));
            let cause = after_last_of(message, pat.as_slice());
            (string_of(side), string_of(path), string_of(cause.as_slice()))
        },
        None => (string_of(side), string_of(rest), String::new()),
    }
}

/// The path inside a recorded blocked entry.
pub fn blocked_path(entry: &str) -> (r: Option<String>)
    ensures
        crate::text::optional(r) == entry_path(entry@),
{
    let all = chars_of(entry);
    if index_of(all.as_slice(), ' ') < all.len() {
        let parts = blocked_parts(entry);
        Some(parts.1)
    } else {
        None
    }
}

// ---------------------------------------------------------------------------
// Gathering paths
// ---------------------------------------------------------------------------

/// A count with its name.
#[derive(Debug)]
pub struct Counted {
    /// The name.
    pub name: String,
    /// The count.
    pub count: usize,
}

/// The names and counts of a list.
pub open spec fn counted(list: Seq<Counted>) -> Seq<(Seq<char>, int)> {
    Seq::new(list.len(), |i: int| (list[i].name@, list[i].count as int))
}

/// Where a name stands in a list of counts: the first place, or the length.
pub open spec fn count_index(list: Seq<(Seq<char>, int)>, name: Seq<char>, n: int) -> int
    decreases n,
{
    if n <= 0 {
        0
    } else if count_index(list, name, n - 1) < n - 1 {
        count_index(list, name, n - 1)
    } else if list[n - 1].0 == name {
        n - 1
    } else {
        n
    }
}

/// A list of counts with one more of a name.
pub open spec fn count_one(list: Seq<(Seq<char>, int)>, name: Seq<char>) -> Seq<(Seq<char>, int)> {
    let i = count_index(list, name, list.len() as int);
    if i < list.len() {
        list.update(i, (name, list[i].1 + 1))
    } else {
        list.push((name, 1))
    }
}

/// The first `depth` segments of a path.
pub open spec fn leading(path: Seq<char>, depth: nat) -> Seq<char> {
    let parts = segments(path, '/');
    joined(
        if depth < parts.len() {
            parts.take(depth as int)
        } else {
            parts
        },
        "/"@,
    )
}

/// Paths by their first `depth` segments, in the order they came, with how
/// many fall under each.
pub open spec fn rolled(paths: Seq<Seq<char>>, depth: nat) -> Seq<(Seq<char>, int)>
    decreases paths.len(),
{
    if paths.len() == 0 {
        Seq::empty()
    } else {
        count_one(rolled(paths.drop_last(), depth), leading(paths.last(), depth))
    }
}

fn find_count(list: &Vec<Counted>, name: &str) -> (i: usize)
    ensures
        i == count_index(counted(list@), name@, list@.len() as int),
        i <= list@.len(),
        i < list@.len() ==> list@[i as int].name@ == name@,
{
    let mut found: usize = 0;
    let mut n: usize = 0;
    while n < list.len()
        invariant
            n <= list@.len(),
            found <= n,
            found == count_index(counted(list@), name@, n as int),
            found < n ==> list@[found as int].name@ == name@,
        decreases list@.len() - n,
    {
        if found == n && !same_text(list[n].name.as_str(), name) {
            found = n + 1;
        }
        n += 1;
    }
    found
}

/// Every count is at most the number of paths counted.
proof fn lemma_rolled_bound(paths: Seq<Seq<char>>, depth: nat)
    ensures
        forall|k: int|
            0 <= k < rolled(paths, depth).len() ==> 0 < (#[trigger] rolled(paths, depth)[k]).1
                <= paths.len(),
    decreases paths.len(),
{
    if paths.len() > 0 {
        lemma_rolled_bound(paths.drop_last(), depth);
        let front = rolled(paths.drop_last(), depth);
        let all = rolled(paths, depth);
        lemma_count_index(front, leading(paths.last(), depth), front.len() as int);
        assert forall|k: int| 0 <= k < all.len() implies 0 < (#[trigger] all[k]).1
            <= paths.len() by {
            if k < front.len() {
                assert(0 < front[k].1 <= paths.len() - 1);
            }
        }
    }
}

proof fn lemma_count_index(list: Seq<(Seq<char>, int)>, name: Seq<char>, n: int)
    ensures
        n >= 0 ==> 0 <= count_index(list, name, n) <= n,
    decreases n,
{
    if n > 0 {
        lemma_count_index(list, name, n - 1);
    }
}

/// Groups paths by their first `depth` segments, in the order they came, and
/// counts what falls under each. A shorter path is its own group.
pub fn roll_up(paths: &[String], depth: usize) -> (r: Vec<Counted>)
    ensures
        counted(r@) == rolled(strings(paths@), depth as nat),
{
    let ghost all = strings(paths@);
    let mut r: Vec<Counted> = Vec::new();
    let mut i: usize = 0;
    assert(counted(r@) =~= rolled(all.take(0), depth as nat));
    while i < paths.len()
        invariant
            i <= paths@.len(),
            all == strings(paths@),
            counted(r@) == rolled(all.take(i as int), depth as nat),
        decreases paths@.len() - i,
    {
        proof {
            assert(all.take(i + 1).drop_last() =~= all.take(i as int));
            assert(all.take(i + 1).last() == paths@[i as int]@);
            lemma_rolled_bound(all.take(i as int), depth as nat);
        }
        let parts = split(chars_of(paths[i].as_str()).as_slice(), '/');
        let kept: usize = if depth < parts.len() {
            depth
        } else {
            parts.len()
        };
        let name = join_first(parts.as_slice(), kept, "/");
        proof {
            assert(texts(parts@).len() == parts@.len());
            assert(texts(parts@).take(parts@.len() as int) =~= texts(parts@));
            assert(name@ == leading(paths@[i as int]@, depth as nat));
        }
        let ghost before = counted(r@);
        let at = find_count(&r, name.as_str());
        if at < r.len() {
            assert(before[at as int].1 <= i);
            let count: usize = r[at].count;
            r.set(at, Counted { name, count: count + 1 });
            assert(counted(r@) =~= count_one(before, leading(paths@[i as int]@, depth as nat)));
        } else {
            r.push(Counted { name, count: 1 });
            assert(counted(r@) =~= count_one(before, leading(paths@[i as int]@, depth as nat)));
        }
        i += 1;
    }
    assert(all.take(all.len() as int) =~= all);
    r
}

/// The sum of counts.
pub open spec fn count_sum(list: Seq<(Seq<char>, int)>) -> int
    decreases list.len(),
{
    if list.len() == 0 {
        0
    } else {
        count_sum(list.drop_last()) + list.last().1
    }
}

proof fn lemma_count_sum_update(list: Seq<(Seq<char>, int)>, i: int, name: Seq<char>)
    requires
        0 <= i < list.len(),
    ensures
        count_sum(list.update(i, (name, list[i].1 + 1))) == count_sum(list) + 1,
    decreases list.len(),
{
    let new = list.update(i, (name, list[i].1 + 1));
    if i == list.len() - 1 {
        assert(new.drop_last() =~= list.drop_last());
    } else {
        assert(new.drop_last() =~= list.drop_last().update(i, (name, list[i].1 + 1)));
        lemma_count_sum_update(list.drop_last(), i, name);
    }
}

/// Rolling up loses no path: the counts add up to the number of paths.
pub proof fn law_rolling_up_counts_every_path(paths: Seq<Seq<char>>, depth: nat)
    ensures
        count_sum(rolled(paths, depth)) == paths.len(),
    decreases paths.len(),
{
    if paths.len() > 0 {
        law_rolling_up_counts_every_path(paths.drop_last(), depth);
        let front = rolled(paths.drop_last(), depth);
        let name = leading(paths.last(), depth);
        lemma_count_index(front, name, front.len() as int);
        let i = count_index(front, name, front.len() as int);
        if i < front.len() {
            lemma_count_sum_update(front, i, name);
        } else {
            assert(front.push((name, 1)).drop_last() =~= front);
        }
    }
}

/// What two paths share from the start.
pub open spec fn shared(a: Seq<Seq<char>>, b: Seq<Seq<char>>) -> Seq<Seq<char>>
    decreases a.len(),
{
    if a.len() == 0 || b.len() == 0 || a[0] != b[0] {
        Seq::empty()
    } else {
        seq![a[0]] + shared(a.skip(1), b.skip(1))
    }
}

/// The directory that all paths share: the segments they start with. A file's
/// own name is never one of them.
pub open spec fn shared_directory(paths: Seq<Seq<char>>) -> Seq<Seq<char>>
    decreases paths.len(),
{
    if paths.len() == 0 {
        Seq::empty()
    } else if paths.len() == 1 {
        segments(paths[0], '/').drop_last()
    } else {
        shared(shared_directory(paths.drop_last()), segments(paths.last(), '/').drop_last())
    }
}

/// What is shared is a prefix of the first.
proof fn lemma_shared_is(a: Seq<Seq<char>>, b: Seq<Seq<char>>, n: int)
    requires
        0 <= n <= a.len(),
        n <= b.len(),
        forall|k: int| 0 <= k < n ==> a[k] == b[k],
        n == a.len() || n == b.len() || a[n] != b[n],
    ensures
        shared(a, b) == a.take(n),
    decreases a.len(),
{
    if n == 0 {
        assert(a.take(0) =~= Seq::<Seq<char>>::empty());
    } else {
        let x = a.skip(1);
        let y = b.skip(1);
        assert forall|k: int| 0 <= k < n - 1 implies x[k] == y[k] by {
            assert(a[k + 1] == b[k + 1]);
        }
        lemma_shared_is(x, y, n - 1);
        assert(a.take(n) =~= seq![a[0]] + x.take(n - 1));
    }
}

/// What two paths share starts both, and nothing longer does.
proof fn lemma_shared_longest(a: Seq<Seq<char>>, b: Seq<Seq<char>>, c: Seq<Seq<char>>)
    ensures
        shared(a, b).is_prefix_of(a),
        shared(a, b).is_prefix_of(b),
        c.is_prefix_of(a) && c.is_prefix_of(b) ==> c.is_prefix_of(shared(a, b)),
    decreases a.len(),
{
    if a.len() > 0 && b.len() > 0 && a[0] == b[0] {
        let (x, y) = (a.skip(1), b.skip(1));
        let both = shared(a, b);
        lemma_shared_longest(x, y, c.skip(1));
        assert(both.skip(1) =~= shared(x, y));
        assert forall|k: int| 0 <= k < both.len() implies both[k] == a[k] && both[k] == b[k] by {
            if k > 0 {
                assert(shared(x, y)[k - 1] == x[k - 1]);
                assert(shared(x, y)[k - 1] == y[k - 1]);
            }
        }
        assert(both =~= a.take(both.len() as int));
        assert(both =~= b.take(both.len() as int));
        if c.is_prefix_of(a) && c.is_prefix_of(b) {
            if c.len() > 0 {
                assert forall|k: int| 0 <= k < c.len() implies c[k] == a[k] && c[k] == b[k] by {}
                assert(c.skip(1) =~= x.take(c.len() - 1));
                assert(c.skip(1) =~= y.take(c.len() - 1));
                assert forall|k: int| 0 <= k < c.len() implies c[k] == both[k] by {
                    if k > 0 {
                        assert(c.skip(1)[k - 1] == shared(x, y)[k - 1]);
                    }
                }
            }
            assert(c =~= both.take(c.len() as int));
        }
    } else {
        assert(shared(a, b) =~= a.take(0));
        assert(shared(a, b) =~= b.take(0));
        if c.is_prefix_of(a) && c.is_prefix_of(b) && c.len() > 0 {
            assert(c[0] == a[0] && c[0] == b[0]);
        }
    }
}

/// The directory that paths share is one that each is in, and every directory
/// that each is in is on the way to it; so no order of the paths gives another.
pub proof fn law_the_shared_directory_is_the_deepest(
    paths: Seq<Seq<char>>,
    other: Seq<Seq<char>>,
)
    requires
        paths.len() > 0,
    ensures
        forall|i: int|
            0 <= i < paths.len() ==> shared_directory(paths).is_prefix_of(
                segments(#[trigger] paths[i], '/').drop_last(),
            ),
        (forall|i: int|
            0 <= i < paths.len() ==> other.is_prefix_of(
                segments(#[trigger] paths[i], '/').drop_last(),
            )) ==> other.is_prefix_of(shared_directory(paths)),
    decreases paths.len(),
{
    if paths.len() == 1 {
        assert(paths[0] == paths.last());
    } else {
        let front = paths.drop_last();
        let mine = segments(paths.last(), '/').drop_last();
        let all = shared_directory(paths);
        law_the_shared_directory_is_the_deepest(front, other);
        lemma_shared_longest(shared_directory(front), mine, other);
        assert forall|i: int| 0 <= i < paths.len() implies all.is_prefix_of(
            segments(#[trigger] paths[i], '/').drop_last(),
        ) by {
            if i < front.len() {
                let theirs = segments(front[i], '/').drop_last();
                assert(shared_directory(front).is_prefix_of(theirs));
                assert(all =~= theirs.take(all.len() as int));
            }
        }
        if forall|i: int|
            0 <= i < paths.len() ==> other.is_prefix_of(
                segments(#[trigger] paths[i], '/').drop_last(),
            ) {
            assert forall|i: int| 0 <= i < front.len() implies other.is_prefix_of(
                segments(#[trigger] front[i], '/').drop_last(),
            ) by {
                assert(front[i] == paths[i]);
            }
            assert(paths[paths.len() - 1] == paths.last());
        }
    }
}

/// The longest directory prefix shared by every path.
pub fn common_prefix(paths: &[String]) -> (r: String)
    ensures
        r@ == joined(shared_directory(strings(paths@)), "/"@),
{
    if paths.len() == 0 {
        return String::new();
    }
    let ghost all = strings(paths@);
    let prefix = split(chars_of(paths[0].as_str()).as_slice(), '/');
    let ghost whole = texts(prefix@);
    let mut kept: usize = prefix.len() - 1;
    let mut i: usize = 1;
    proof {
        assert(whole.len() == prefix@.len());
        assert(all.take(1)[0] == all[0]);
        assert(whole.take(kept as int) =~= whole.drop_last());
    }
    while i < paths.len()
        invariant
            1 <= i <= paths@.len(),
            all == strings(paths@),
            whole == texts(prefix@),
            kept < prefix@.len(),
            whole.take(kept as int) == shared_directory(all.take(i as int)),
        decreases paths@.len() - i,
    {
        let other = split(chars_of(paths[i].as_str()).as_slice(), '/');
        let last: usize = other.len() - 1;
        let ghost theirs = texts(other@).drop_last();
        let ghost mine = whole.take(kept as int);
        let mut n: usize = 0;
        while n < kept && n < last && same(prefix[n].as_slice(), other[n].as_slice())
            invariant
                n <= kept,
                n <= last,
                last == other@.len() - 1,
                kept < prefix@.len(),
                whole == texts(prefix@),
                theirs == texts(other@).drop_last(),
                mine == whole.take(kept as int),
                forall|k: int| 0 <= k < n ==> mine[k] == theirs[k],
            decreases kept - n,
        {
            n += 1;
        }
        proof {
            assert(n == kept || n == last || mine[n as int] != theirs[n as int]);
            lemma_shared_is(mine, theirs, n as int);
            assert(mine.take(n as int) =~= whole.take(n as int));
            assert(all.take(i + 1).drop_last() =~= all.take(i as int));
            assert(all.take(i + 1).last() == paths@[i as int]@);
        }
        kept = n;
        i += 1;
    }
    assert(all.take(all.len() as int) =~= all);
    join_first(prefix.as_slice(), kept, "/")
}

/// Paths under one first segment.
struct Group {
    head: String,
    members: Vec<String>,
}

/// Paths under one first segment.
#[verifier::ext_equal]
pub struct GroupView {
    /// The segment.
    pub head: Seq<char>,
    /// The paths.
    pub members: Seq<Seq<char>>,
}

spec fn group_views(groups: Seq<Group>) -> Seq<GroupView> {
    Seq::new(
        groups.len(),
        |i: int| GroupView { head: groups[i].head@, members: strings(groups[i].members@) },
    )
}

/// Where the group of a segment stands among the first `n`, or `n`.
pub open spec fn group_index(groups: Seq<GroupView>, head: Seq<char>, n: int) -> int
    decreases n,
{
    if n <= 0 {
        0
    } else if group_index(groups, head, n - 1) < n - 1 {
        group_index(groups, head, n - 1)
    } else if groups[n - 1].head == head {
        n - 1
    } else {
        n
    }
}

/// Groups with one more path.
pub open spec fn with_member(
    groups: Seq<GroupView>,
    head: Seq<char>,
    path: Seq<char>,
) -> Seq<GroupView> {
    let i = group_index(groups, head, groups.len() as int);
    if i < groups.len() {
        groups.update(i, GroupView { head, members: groups[i].members.push(path) })
    } else {
        groups.push(GroupView { head, members: seq![path] })
    }
}

/// Paths by their first segment, in the order they came.
pub open spec fn grouped(paths: Seq<Seq<char>>) -> Seq<GroupView>
    decreases paths.len(),
{
    if paths.len() == 0 {
        Seq::empty()
    } else {
        with_member(
            grouped(paths.drop_last()),
            segments(paths.last(), '/')[0],
            paths.last(),
        )
    }
}

/// What a group is called: the directory its paths share, or its segment
/// where they share none.
pub open spec fn group_name(group: GroupView) -> Seq<char> {
    let prefix = joined(shared_directory(group.members), "/"@);
    if prefix.len() == 0 {
        group.head
    } else {
        prefix
    }
}

/// The clusters of paths: the name and size of each group.
pub open spec fn clustered(paths: Seq<Seq<char>>) -> Seq<(Seq<char>, int)> {
    let groups = grouped(paths);
    Seq::new(groups.len(), |i: int| (group_name(groups[i]), groups[i].members.len() as int))
}

proof fn lemma_group_index(groups: Seq<GroupView>, head: Seq<char>, n: int)
    requires
        0 <= n <= groups.len(),
    ensures
        0 <= group_index(groups, head, n) <= n,
    decreases n,
{
    if n > 0 {
        lemma_group_index(groups, head, n - 1);
    }
}

/// Clustering loses no path: the sizes add up to the number of paths.
pub proof fn law_clusters_count_every_path(paths: Seq<Seq<char>>)
    ensures
        count_sum(clustered(paths)) == paths.len(),
    decreases paths.len(),
{
    if paths.len() > 0 {
        law_clusters_count_every_path(paths.drop_last());
        let front = grouped(paths.drop_last());
        let before = clustered(paths.drop_last());
        let all = grouped(paths);
        let head = segments(paths.last(), '/')[0];
        lemma_group_index(front, head, front.len() as int);
        let i = group_index(front, head, front.len() as int);
        if i < front.len() {
            let name = group_name(all[i]);
            lemma_count_sum_update(before, i, name);
            assert(clustered(paths) =~= before.update(i, (name, before[i].1 + 1)));
        } else {
            assert(clustered(paths).drop_last() =~= before);
        }
    }
}

fn find_group(groups: &Vec<Group>, head: &str) -> (i: usize)
    ensures
        i == group_index(group_views(groups@), head@, groups@.len() as int),
        i <= groups@.len(),
        i < groups@.len() ==> groups@[i as int].head@ == head@,
{
    let mut found: usize = 0;
    let mut n: usize = 0;
    while n < groups.len()
        invariant
            n <= groups@.len(),
            found <= n,
            found == group_index(group_views(groups@), head@, n as int),
            found < n ==> groups@[found as int].head@ == head@,
        decreases groups@.len() - n,
    {
        if found == n && !same_text(groups[n].head.as_str(), head) {
            found = n + 1;
        }
        n += 1;
    }
    found
}

/// Groups paths by where they are, and names the directory each group shares:
/// one cause can cover unrelated places.
pub fn clusters(paths: &[String]) -> (r: Vec<Counted>)
    ensures
        counted(r@) == clustered(strings(paths@)),
{
    let ghost all = strings(paths@);
    let mut groups: Vec<Group> = Vec::new();
    let mut i: usize = 0;
    assert(group_views(groups@) =~= grouped(all.take(0)));
    while i < paths.len()
        invariant
            i <= paths@.len(),
            all == strings(paths@),
            group_views(groups@) == grouped(all.take(i as int)),
        decreases paths@.len() - i,
    {
        assert(all.take(i + 1).drop_last() =~= all.take(i as int));
        assert(all.take(i + 1).last() == paths@[i as int]@);
        let parts = split(chars_of(paths[i].as_str()).as_slice(), '/');
        assert(texts(parts@)[0] == parts@[0]@);
        let head = string_of(parts[0].as_slice());
        let ghost before = group_views(groups@);
        let ghost name = head@;
        let at = find_group(&groups, head.as_str());
        if at < groups.len() {
            let mut members = copy_strings(groups[at].members.as_slice());
            let ghost so_far = strings(members@);
            members.push(paths[i].clone());
            assert(strings(members@) =~= so_far.push(paths@[i as int]@));
            groups.set(at, Group { head, members });
            assert(group_views(groups@) =~= with_member(before, name, paths@[i as int]@));
        } else {
            let mut members: Vec<String> = Vec::new();
            members.push(paths[i].clone());
            assert(strings(members@) =~= seq![paths@[i as int]@]);
            groups.push(Group { head, members });
            assert(group_views(groups@) =~= with_member(before, name, paths@[i as int]@));
        }
        i += 1;
    }
    assert(all.take(all.len() as int) =~= all);
    let ghost views = grouped(all);
    let mut r: Vec<Counted> = Vec::new();
    let mut k: usize = 0;
    while k < groups.len()
        invariant
            k <= groups@.len(),
            views == group_views(groups@),
            r@.len() == k,
            forall|j: int|
                0 <= j < k ==> (#[trigger] r@[j]).name@ == group_name(views[j]) && r@[j].count
                    == views[j].members.len(),
        decreases groups@.len() - k,
    {
        let prefix = common_prefix(groups[k].members.as_slice());
        let name = if prefix.as_str().is_empty() {
            groups[k].head.clone()
        } else {
            prefix
        };
        assert(name@ == group_name(views[k as int]));
        r.push(Counted { name, count: groups[k].members.len() });
        k += 1;
    }
    assert(counted(r@) =~= clustered(all));
    r
}

// ---------------------------------------------------------------------------
// Commands to paste
// ---------------------------------------------------------------------------

/// The characters besides letters and digits that a shell takes as they are.
pub open spec fn plain_marks() -> Seq<char> {
    seq!['.', '_', '/', '-', '+', '@', ',', ':', '%']
}

/// Whether a shell takes a text as it is.
pub open spec fn plain_text(s: Seq<char>) -> bool {
    s.len() > 0 && forall|i: int|
        0 <= i < s.len() ==> alphanumeric(#[trigger] s[i]) || plain_marks().contains(s[i])
}

/// A path as it goes into a command to paste: as it is where the shell reads
/// it so, quoted otherwise, with `./` before a leading dash; shown escaped
/// where it holds a control character, which no quoting makes safe.
pub open spec fn pasted(path: Seq<char>) -> Seq<char> {
    if has_control(path) {
        shown_text(path)
    } else {
        let safe = if path.len() > 0 && path[0] == '-' {
            "./"@ + path
        } else {
            path
        };
        if plain_text(safe) {
            safe
        } else {
            shell_quoted(safe)
        }
    }
}

fn is_plain(s: &[char]) -> (r: bool)
    ensures
        r == plain_text(s@),
{
    let marks: [char; 9] = ['.', '_', '/', '-', '+', '@', ',', ':', '%'];
    assert(marks@ =~= plain_marks());
    let mut i: usize = 0;
    while i < s.len()
        invariant
            i <= s@.len(),
            marks@ == plain_marks(),
            forall|k: int|
                0 <= k < i ==> alphanumeric(#[trigger] s@[k]) || plain_marks().contains(s@[k]),
        decreases s@.len() - i,
    {
        if !(s[i].is_alphanumeric() || among(s[i], marks.as_slice())) {
            assert(!(alphanumeric(s@[i as int]) || plain_marks().contains(s@[i as int])));
            return false;
        }
        i += 1;
    }
    s.len() > 0
}

/// A root-relative path as it goes into a command to paste.
pub fn pasteable(path: &str) -> (r: String)
    ensures
        r@ == pasted(path@),
{
    let all = chars_of(path);
    if any_control(all.as_slice()) {
        return display_safe(path);
    }
    let safe = if all.len() > 0 && all[0] == '-' {
        let mut safe = "./".to_owned();
        safe.append(path);
        safe
    } else {
        path.to_owned()
    };
    let letters = chars_of(safe.as_str());
    if is_plain(letters.as_slice()) {
        safe
    } else {
        shell_quote(safe.as_str())
    }
}

/// A path as one shell word, except that a leading `~` stays outside the
/// quotes as `"$HOME"` and so still expands where the command runs.
pub open spec fn home_text(path: Seq<char>) -> Seq<char> {
    if has_prefix(path, "~/"@) {
        "\"$HOME\"/"@ + shell_quoted(path.skip(2))
    } else if path == "~"@ {
        "\"$HOME\""@
    } else {
        shell_quoted(path)
    }
}

/// A path as one shell word, with its home expanded where the command runs.
pub fn home_quoted(path: &str) -> (r: String)
    ensures
        r@ == home_text(path@),
{
    proof {
        reveal_strlit("~/");
    }
    if str_starts_with(path, "~/") {
        let all = chars_of(path);
        let rest = slice_subrange(all.as_slice(), 2, all.len());
        assert(rest@ =~= path@.skip(2));
        let rest = string_of(rest);
        let mut r = "\"$HOME\"/".to_owned();
        let quoted = shell_quote(rest.as_str());
        r.append(quoted.as_str());
        r
    } else if same_text(path, "~") {
        "\"$HOME\"".to_owned()
    } else {
        shell_quote(path)
    }
}

/// The last hidden one among the first `n` names.
pub open spec fn last_hidden(names: Seq<Seq<char>>, n: int) -> Option<Seq<char>>
    decreases n,
{
    if n <= 0 {
        None
    } else if names[n - 1].len() > 0 && names[n - 1][0] == '.' {
        Some(names[n - 1])
    } else {
        last_hidden(names, n - 1)
    }
}

/// The destination and the root of a side: a remote beta's are parted, and
/// any other root is a path here.
pub open spec fn side_root(side: Seq<char>, plan: SessionPlan) -> (Option<Seq<char>>, Seq<char>) {
    if side != "beta"@ {
        (None, plan.alpha_spec@)
    } else {
        match remote_parts(plan.beta_spec@) {
            Some((destination, root)) => (Some(destination), root),
            None => (None, plan.beta_spec@),
        }
    }
}

/// The command that mends permissions on a path, or words where the path is
/// not fit for a command.
pub open spec fn permission_fix(destination: Option<Seq<char>>, path: Seq<char>) -> Seq<char> {
    if has_control(path) {
        "fix permissions on "@ + shown_text(path) + " by hand"@
    } else {
        match destination {
            Some(destination) => "ssh "@ + shell_quoted(destination) + " "@ + shell_quoted(
                "sudo chown -R \"$(id -un)\" "@ + home_text(path),
            ),
            None => "sudo chown -R \"$(whoami)\" "@ + home_text(path),
        }
    }
}

/// What to do about a group of blocked paths.
pub open spec fn fixes_for(
    side: Seq<char>,
    cause: Seq<char>,
    prefix: Seq<char>,
    plan: SessionPlan,
) -> Seq<Seq<char>> {
    if occurs(cause, "Permission denied"@) {
        let (destination, root) = side_root(side, plan);
        let path = root + "/"@ + (if prefix.len() == 0 {
            "."@
        } else {
            prefix
        });
        let parts = segments(prefix, '/');
        let first = seq![permission_fix(destination, path)];
        match last_hidden(parts, parts.len() as int) {
            Some(name) => first.push(
                "or add \""@ + shown_text(name) + "\" to the group's ignores"@,
            ),
            None => first,
        }
    } else if cause == "unicode collision"@ || cause == "casing collision"@ {
        let elsewhere = if side == "beta"@ {
            "alpha"@
        } else {
            plan.host@
        };
        let how = if has_prefix(cause, "unicode"@) {
            "spelled two ways"@
        } else {
            "cased two ways"@
        };
        seq![
            elsewhere + " holds this name twice, "@ + how + ". Delete either copy there"@,
        ]
    } else if occurs(cause, "refusing to create over existing content"@) {
        seq![
            "something no scan saw is at that path. Run `autobahn issues "@ + plan.group@
                + "` after the next cycle; if it stays, look at both sides"@,
        ]
    } else {
        Seq::empty()
    }
}

/// Whether a text occurs in another.
pub fn contains_text(s: &str, pat: &str) -> (r: bool)
    ensures
        r == occurs(s@, pat@),
{
    find(chars_of(s).as_slice(), chars_of(pat).as_slice()).is_some()
}

/// What to do about a group of blocked paths: a command with every name in it
/// quoted where there is one, and an ignore only for something generated.
pub fn blocked_fix(side: &str, cause: &str, prefix: &str, plan: &SessionPlan) -> (r: Vec<String>)
    ensures
        strings(r@) == fixes_for(side@, cause@, prefix@, *plan),
{
    let mut fixes: Vec<String> = Vec::new();
    if contains_text(cause, "Permission denied") {
        let (destination, root): (Option<String>, String) = if !same_text(side, "beta") {
            (None, plan.alpha_spec.clone())
        } else {
            match parse_remote(plan.beta_spec.as_str()) {
                Some((destination, root)) => (Some(destination), root),
                None => (None, plan.beta_spec.clone()),
            }
        };
        let mut path = root;
        path.append("/");
        if prefix.is_empty() {
            path.append(".");
        } else {
            path.append(prefix);
        }
        let letters = chars_of(path.as_str());
        let mut fix = String::new();
        if any_control(letters.as_slice()) {
            fix.append("fix permissions on ");
            let shown = display_safe(path.as_str());
            fix.append(shown.as_str());
            fix.append(" by hand");
        } else {
            let target = home_quoted(path.as_str());
            match &destination {
                Some(destination) => {
                    let mut inner = "sudo chown -R \"$(id -un)\" ".to_owned();
                    inner.append(target.as_str());
                    fix.append("ssh ");
                    let quoted = shell_quote(destination.as_str());
                    fix.append(quoted.as_str());
                    fix.append(" ");
                    let quoted = shell_quote(inner.as_str());
                    fix.append(quoted.as_str());
                },
                None => {
                    fix.append("sudo chown -R \"$(whoami)\" ");
                    fix.append(target.as_str());
                },
            }
        }
        proof {
            let (d, root) = side_root(side@, *plan);
            assert(crate::text::optional(destination) == d);
            assert(path@ =~= root + "/"@ + (if prefix@.len() == 0 {
                "."@
            } else {
                prefix@
            }));
            assert(fix@ =~= permission_fix(d, path@));
        }
        let ghost first = fix@;
        fixes.push(fix);
        assert(strings(fixes@) =~= seq![first]);
        let parts = split(chars_of(prefix).as_slice(), '/');
        let ghost names = segments(prefix@, '/');
        let mut n: usize = parts.len();
        assert(names.len() == n) by {
            assert(texts(parts@).len() == parts@.len());
        }
        let mut hidden: Option<String> = None;
        while n > 0 && hidden.is_none()
            invariant
                n <= parts@.len(),
                texts(parts@) == names,
                hidden is None ==> last_hidden(names, names.len() as int) == last_hidden(
                    names,
                    n as int,
                ),
                hidden matches Some(name) ==> last_hidden(names, names.len() as int) == Some(
                    name@,
                ),
            decreases n,
        {
            assert(names[n - 1] == parts@[n - 1]@);
            if parts[n - 1].len() > 0 && parts[n - 1][0] == '.' {
                hidden = Some(string_of(parts[n - 1].as_slice()));
            }
            n -= 1;
        }
        if let Some(name) = hidden {
            let mut fix = "or add \"".to_owned();
            let shown = display_safe(name.as_str());
            fix.append(shown.as_str());
            fix.append("\" to the group's ignores");
            let ghost second = fix@;
            fixes.push(fix);
            assert(strings(fixes@) =~= seq![first].push(second));
        }
    } else if same_text(cause, "unicode collision") || same_text(cause, "casing collision") {
        let mut fix = if same_text(side, "beta") {
            "alpha".to_owned()
        } else {
            plan.host.clone()
        };
        fix.append(" holds this name twice, ");
        if str_starts_with(cause, "unicode") {
            fix.append("spelled two ways");
        } else {
            fix.append("cased two ways");
        }
        fix.append(". Delete either copy there");
        let ghost only = fix@;
        fixes.push(fix);
        assert(strings(fixes@) =~= seq![only]);
    } else if contains_text(cause, "refusing to create over existing content") {
        let mut fix =
            "something no scan saw is at that path. Run `autobahn issues ".to_owned();
        fix.append(plan.group.as_str());
        fix.append("` after the next cycle; if it stays, look at both sides");
        let ghost only = fix@;
        fixes.push(fix);
        assert(strings(fixes@) =~= seq![only]);
    }
    assert(strings(fixes@) =~= fixes_for(side@, cause@, prefix@, *plan));
    fixes
}

// ---------------------------------------------------------------------------
// Filters
// ---------------------------------------------------------------------------

/// The characters that make a filter a glob.
pub open spec fn glob_marks() -> Seq<char> {
    seq!['*', '?', '[', '{']
}

/// The glob a filter stands for: matched at any depth where it holds no
/// separator, and anchored to the root where it does.
pub open spec fn filter_glob(pattern: Seq<char>) -> Seq<char> {
    if pattern.contains('/') {
        pattern
    } else {
        "**/"@ + pattern
    }
}

/// Whether a filter picks a path: a plain word anywhere in it, whatever the
/// case; a glob by matching it.
pub open spec fn picks(pattern: Seq<char>, path: Seq<char>) -> bool {
    if has_any(pattern, glob_marks()) {
        glob_matches(false, filter_glob(pattern), path)
    } else {
        occurs(lowercase(path), lowercase(pattern))
    }
}

/// Why a filter is refused.
#[derive(Debug)]
pub enum FilterError {
    /// Its glob is too long or too deeply nested to be compiled.
    TooLarge,
    /// Its glob does not compile.
    Invalid {
        /// Why.
        cause: String,
    },
}

/// A filter on paths.
pub struct PathFilter {
    pattern: String,
    glob: Option<globset::GlobSet>,
}

impl PathFilter {
    /// The pattern the filter was made from.
    pub closed spec fn pattern(&self) -> Seq<char> {
        self.pattern@
    }

    /// Whether the filter's glob is its pattern's.
    pub closed spec fn well_formed(&self) -> bool {
        &&& self.glob is Some <==> has_any(self.pattern@, glob_marks())
        &&& self.glob matches Some(set) ==> glob_text(set) == filter_glob(self.pattern@)
            && !glob_literal(set)
    }

    /// The filter for a pattern that looks like a glob, given how compiling it
    /// came out.
    pub fn from_compiled(
        pattern: &str,
        compiled: Result<globset::GlobSet, globset::Error>,
    ) -> (r: Result<PathFilter, FilterError>)
        requires
            has_any(pattern@, glob_marks()),
            compiled matches Ok(set) ==> glob_text(set) == filter_glob(pattern@)
                && !glob_literal(set),
        ensures
            r is Ok <==> compiled is Ok,
            match r {
                Ok(filter) => filter.well_formed() && filter.pattern() == pattern@,
                Err(error) => error is Invalid,
            },
    {
        match compiled {
            Ok(set) => Ok(PathFilter { pattern: pattern.to_owned(), glob: Some(set) }),
            Err(error) => Err(FilterError::Invalid { cause: glob_error_words(&error) }),
        }
    }

    /// Whether the filter picks a path.
    pub fn matches(&self, path: &str) -> (r: bool)
        requires
            self.well_formed(),
        ensures
            r == picks(self.pattern(), path@),
    {
        match &self.glob {
            Some(set) => glob_is_match(set, path),
            None => {
                let low = path.to_lowercase();
                let needle = self.pattern.as_str().to_lowercase();
                contains_text(low.as_str(), needle.as_str())
            },
        }
    }
}

/// The filter for a pattern. One that looks like a glob has to compile as one,
/// as an extension does.
pub fn conflict_filter(pattern: &str) -> (r: Result<PathFilter, FilterError>)
    ensures
        !has_any(pattern@, glob_marks()) ==> r is Ok,
        (r matches Err(FilterError::TooLarge)) <==> has_any(pattern@, glob_marks())
            && !within_limits(filter_glob(pattern@)),
        within_limits(filter_glob(pattern@)) && always_compiles(filter_glob(pattern@)) ==> r is Ok,
        r matches Ok(filter) ==> {
            &&& filter.well_formed()
            &&& filter.pattern() == pattern@
            &&& has_any(pattern@, glob_marks()) ==> matches_as_written(
                false,
                filter_glob(pattern@),
            )
        },
{
    let all = chars_of(pattern);
    let marks: [char; 4] = ['*', '?', '[', '{'];
    assert(marks@ =~= glob_marks());
    if !any_of(all.as_slice(), marks.as_slice()) {
        return Ok(PathFilter { pattern: pattern.to_owned(), glob: None });
    }
    let slash: usize = index_of(all.as_slice(), '/');
    proof {
        crate::text::lemma_first_index(all@, '/');
    }
    let anchored = if slash < all.len() {
        pattern.to_owned()
    } else {
        let mut anchored = "**/".to_owned();
        anchored.append(pattern);
        anchored
    };
    if !is_within_limits(anchored.as_str()) {
        return Err(FilterError::TooLarge);
    }
    let compiled = compile_glob(anchored.as_str(), false);
    PathFilter::from_compiled(pattern, compiled)
}

// ---------------------------------------------------------------------------
// Laws
// ---------------------------------------------------------------------------

/// What a message says last is what stands behind its last colon and space;
/// all of it, where it has none.
pub proof fn law_the_cause_is_what_a_message_says_last(front: Seq<char>, cause: Seq<char>)
    requires
        !occurs(cause, ": "@),
    ensures
        after_last(cause, ": "@) == cause,
        after_last(front + ": "@ + cause, ": "@) == cause,
    decreases front.len(),
{
    let pat = ": "@;
    let s = front + pat + cause;
    lemma_no_first(cause, pat);
    lemma_after_none(cause, pat);
    let i = lemma_mark_in_front(front, cause);
    if i == front.len() {
        assert(s.skip(i + 2) =~= cause);
        lemma_after_some(s, pat, i);
    } else {
        assert(s.skip(i + 2) =~= front.skip(i + 2) + pat + cause);
        lemma_after_some(s, pat, i);
        law_the_cause_is_what_a_message_says_last(front.skip(i + 2), cause);
    }
}

proof fn lemma_no_first(s: Seq<char>, pat: Seq<char>)
    requires
        !occurs(s, pat),
    ensures
        first_occurrence(s, pat) is None,
{
    reveal(first_occurrence);
}

proof fn lemma_after_none(s: Seq<char>, pat: Seq<char>)
    requires
        first_occurrence(s, pat) is None,
    ensures
        after_last(s, pat) == s,
{
    reveal(after_last);
}

proof fn lemma_after_some(s: Seq<char>, pat: Seq<char>, i: int)
    requires
        first_occurrence(s, pat) == Some(i),
        0 <= i,
        pat.len() == 2,
        i + 2 <= s.len(),
    ensures
        after_last(s, pat) == after_last(s.skip(i + 2), pat),
{
    reveal(after_last);
}

/// The first mark in a text that has one behind its front: it is not across
/// the end of the front.
proof fn lemma_mark_in_front(front: Seq<char>, cause: Seq<char>) -> (i: int)
    ensures
        first_occurrence(front + ": "@ + cause, ": "@) == Some(i),
        0 <= i,
        i == front.len() || i + 2 <= front.len(),
        ": "@.len() == 2,
{
    reveal_strlit(": ");
    let pat = ": "@;
    let s = front + pat + cause;
    let at = front.len() as int;
    assert(s.subrange(at, at + 2) =~= pat);
    assert(occurs_at(s, pat, at));
    lemma_some_first(s, pat, at);
    let i = first_occurrence(s, pat)->0;
    if i == at - 1 {
        assert(occurs_at(s, pat, i));
        assert(s.subrange(i, i + 2)[1] == s[i + 1]);
        assert(s[i + 1] == pat[0]);
    }
    i
}

/// Where a text occurs, there is a first occurrence, no later than that.
proof fn lemma_some_first(s: Seq<char>, pat: Seq<char>, at: int)
    requires
        occurs_at(s, pat, at),
        0 <= at,
    ensures
        first_occurrence(s, pat) matches Some(i) && 0 <= i <= at && occurs_at(s, pat, i),
    decreases at,
{
    if exists|k: int| 0 <= k < at && occurs_at(s, pat, k) {
        let k = choose|k: int| 0 <= k < at && occurs_at(s, pat, k);
        lemma_some_first(s, pat, k);
    } else {
        lemma_first_occurrence(s, pat, at);
    }
}

/// The leading part of a path is its first names, as many as are asked for, or
/// all of it where it has no more.
pub proof fn law_a_path_is_cut_after_its_first_names(names: Seq<Seq<char>>, depth: nat)
    requires
        names.len() > 0,
        forall|i: int| 0 <= i < names.len() ==> !(#[trigger] names[i]).contains('/'),
    ensures
        depth >= names.len() ==> leading(joined(names, seq!['/']), depth) == joined(
            names,
            seq!['/'],
        ),
        depth < names.len() ==> leading(joined(names, seq!['/']), depth) == joined(
            names.take(depth as int),
            seq!['/'],
        ),
{
    reveal_strlit("/");
    assert("/"@ =~= seq!['/']);
    crate::text::lemma_segments_joined(names, '/');
}

/// What is rolled up is counted under its leading part, each group once: a
/// group's count is the number of paths whose leading part it is.
pub proof fn law_a_group_counts_its_own_paths(paths: Seq<Seq<char>>, depth: nat, i: int)
    requires
        0 <= i < rolled(paths, depth).len(),
    ensures
        rolled(paths, depth)[i].1 == paths.filter(
            |path: Seq<char>| leading(path, depth) == rolled(paths, depth)[i].0,
        ).len(),
        rolled(paths, depth)[i].1 > 0,
{
    lemma_rolled(paths, depth);
    let groups = rolled(paths, depth);
    assert(groups[i].1 == under(paths, depth, groups[i].0));
}

/// How many paths have a leading part.
spec fn under(paths: Seq<Seq<char>>, depth: nat, name: Seq<char>) -> int {
    paths.filter(|path: Seq<char>| leading(path, depth) == name).len() as int
}

proof fn lemma_rolled(paths: Seq<Seq<char>>, depth: nat)
    ensures
        forall|i: int|
            0 <= i < rolled(paths, depth).len() ==> (#[trigger] rolled(paths, depth)[i]).1 == under(
                paths,
                depth,
                rolled(paths, depth)[i].0,
            ) && rolled(paths, depth)[i].1 > 0,
        forall|name: Seq<char>|
            #[trigger] under(paths, depth, name) > 0 ==> exists|i: int|
                0 <= i < rolled(paths, depth).len() && (#[trigger] rolled(paths, depth)[i]).0
                    == name,
    decreases paths.len(),
{
    reveal(Seq::filter);
    if paths.len() > 0 {
        let front = paths.drop_last();
        lemma_rolled(front, depth);
        let before = rolled(front, depth);
        let name = leading(paths.last(), depth);
        lemma_counted_at(before, name, before.len() as int);
        let at = count_index(before, name, before.len() as int);
        let all = rolled(paths, depth);
        assert forall|other: Seq<char>| #[trigger]
            under(paths, depth, other) == under(front, depth, other) + if other == name {
                1int
            } else {
                0
            } by {
            let test = |path: Seq<char>| leading(path, depth) == other;
            assert(paths.filter(test).len() == front.filter(test).len() + if test(paths.last()) {
                1int
            } else {
                0
            });
        }
        assert forall|i: int| 0 <= i < all.len() implies (#[trigger] all[i]).1 == under(
            paths,
            depth,
            all[i].0,
        ) && all[i].1 > 0 by {
            if at < before.len() {
                if i != at {
                    assert(all[i] == before[i]);
                    if before[i].0 == name {
                        lemma_distinct(front, depth, i, at);
                    }
                }
            } else if i < before.len() {
                assert(all[i] == before[i]);
                assert(before[i].0 != name);
            } else {
                assert(under(front, depth, name) == 0) by {
                    if under(front, depth, name) > 0 {
                        let k = choose|k: int|
                            0 <= k < before.len() && (#[trigger] before[k]).0 == name;
                        assert(before[k].0 != name);
                    }
                }
            }
        }
        assert forall|other: Seq<char>| #[trigger]
            under(paths, depth, other) > 0 implies exists|i: int|
            0 <= i < all.len() && (#[trigger] all[i]).0 == other by {
            if other == name {
                if at < before.len() {
                    assert(all[at].0 == name);
                } else {
                    assert(all[before.len() as int].0 == name);
                }
            } else {
                assert(under(front, depth, other) > 0);
                let k = choose|k: int| 0 <= k < before.len() && (#[trigger] before[k]).0 == other;
                assert(all[k].0 == other);
            }
        }
    }
}

proof fn lemma_counted_at(list: Seq<(Seq<char>, int)>, name: Seq<char>, n: int)
    requires
        0 <= n <= list.len(),
    ensures
        0 <= count_index(list, name, n) <= n,
        forall|k: int| 0 <= k < count_index(list, name, n) ==> (#[trigger] list[k]).0 != name,
        count_index(list, name, n) < n ==> list[count_index(list, name, n)].0 == name,
    decreases n,
{
    if n > 0 {
        lemma_counted_at(list, name, n - 1);
    }
}

/// No two groups have one name.
proof fn lemma_distinct(paths: Seq<Seq<char>>, depth: nat, i: int, j: int)
    requires
        0 <= i < rolled(paths, depth).len(),
        0 <= j < rolled(paths, depth).len(),
        rolled(paths, depth)[i].0 == rolled(paths, depth)[j].0,
    ensures
        i == j,
    decreases paths.len(),
{
    if paths.len() > 0 {
        let front = paths.drop_last();
        let before = rolled(front, depth);
        let name = leading(paths.last(), depth);
        lemma_counted_at(before, name, before.len() as int);
        let at = count_index(before, name, before.len() as int);
        if at < before.len() {
            lemma_distinct(front, depth, i, j);
        } else if i < before.len() && j < before.len() {
            lemma_distinct(front, depth, i, j);
        } else if i < before.len() {
            assert(before[i].0 != name);
        } else if j < before.len() {
            assert(before[j].0 != name);
        }
    }
}

/// A path that is to be pasted stands as it is where a shell reads it as one
/// word, and is quoted where it does not; one that starts with a dash is led
/// by a dot and a separator. One with a control character is only shown.
pub proof fn law_a_pasted_path_is_one_argument(path: Seq<char>)
    requires
        path.len() > 0,
    ensures
        has_control(path) ==> pasted(path) == shown_text(path),
        !has_control(path) && path[0] != '-' && plain_text(path) ==> pasted(path) == path,
        !has_control(path) && path[0] != '-' && !plain_text(path) ==> pasted(path) == shell_quoted(
            path,
        ),
        !has_control(path) && path[0] == '-' ==> pasted(path) == seq!['.', '/'] + path || pasted(
            path,
        ) == shell_quoted(seq!['.', '/'] + path),
        plain_text(path) ==> !path.contains(' ') || alphanumeric(' '),
        plain_text(path) ==> !path.contains('$') || alphanumeric('$'),
        plain_text(path) ==> !path.contains('~') || alphanumeric('~'),
{
    reveal_strlit("./");
    assert("./"@ =~= seq!['.', '/']);
    assert(!plain_marks().contains(' ') && !plain_marks().contains('$') && !plain_marks().contains(
        '~',
    ));
    if path.contains(' ') {
        let k = choose|k: int| 0 <= k < path.len() && path[k] == ' ';
        assert(path[k] == ' ');
    }
    if path.contains('$') {
        let k = choose|k: int| 0 <= k < path.len() && path[k] == '$';
        assert(path[k] == '$');
    }
    if path.contains('~') {
        let k = choose|k: int| 0 <= k < path.len() && path[k] == '~';
        assert(path[k] == '~');
    }
}

/// A path below the home directory is written so that a shell finds it there,
/// with what is below it quoted; any other path is quoted as it is.
pub proof fn law_a_home_path_is_below_the_home_directory(rest: Seq<char>, path: Seq<char>)
    ensures
        home_text(seq!['~', '/'] + rest) == "\"$HOME\"/"@ + shell_quoted(rest),
        home_text(seq!['~']) == "\"$HOME\""@,
        path.len() > 0 && path[0] != '~' ==> home_text(path) == shell_quoted(path),
{
    reveal_strlit("~/");
    reveal_strlit("~");
    assert("~/"@ =~= seq!['~', '/']);
    assert("~"@ =~= seq!['~']);
    let path = seq!['~', '/'] + rest;
    assert(path.take(2) =~= "~/"@);
    assert(path.skip(2) =~= rest);
    assert(!has_prefix(seq!['~'], "~/"@));
}

/// What is advised about a blocked path, by its cause: a denied permission is
/// mended on the side it is on, at the path below that side's root; of two
/// names that collide, one is deleted on the other side; and of a cause that
/// is not known, nothing is.
pub proof fn law_a_blocked_path_is_mended_where_it_is(
    cause: Seq<char>,
    prefix: Seq<char>,
    plan: SessionPlan,
)
    requires
        prefix.len() > 0,
    ensures
        occurs(cause, "Permission denied"@) ==> {
            let alpha = fixes_for("alpha"@, cause, prefix, plan);
            let beta = fixes_for("beta"@, cause, prefix, plan);
            &&& 1 <= alpha.len() <= 2 && 1 <= beta.len() <= 2
            &&& alpha[0] == permission_fix(None, plan.alpha_spec@ + "/"@ + prefix)
            &&& remote_parts(plan.beta_spec@) is None ==> beta[0] == permission_fix(
                None,
                plan.beta_spec@ + "/"@ + prefix,
            )
            &&& remote_parts(plan.beta_spec@) matches Some(parts) ==> beta[0] == permission_fix(
                Some(parts.0),
                parts.1 + "/"@ + prefix,
            )
        },
        !occurs(cause, "Permission denied"@) && (cause == "unicode collision"@ || cause
            == "casing collision"@) ==> fixes_for("alpha"@, cause, prefix, plan).len() == 1
            && has_prefix(fixes_for("alpha"@, cause, prefix, plan)[0], plan.host@) && has_prefix(
            fixes_for("beta"@, cause, prefix, plan)[0],
            "alpha"@,
        ),
        !occurs(cause, "Permission denied"@) && cause != "unicode collision"@ && cause
            != "casing collision"@ && !occurs(cause, "refusing to create over existing content"@)
            ==> fixes_for("alpha"@, cause, prefix, plan).len() == 0,
{
    reveal_strlit("alpha");
    reveal_strlit("beta");
    assert("alpha"@[0] == 'a' && "beta"@[0] == 'b');
    if !occurs(cause, "Permission denied"@) && (cause == "unicode collision"@ || cause
        == "casing collision"@) {
        let a = fixes_for("alpha"@, cause, prefix, plan)[0];
        let b = fixes_for("beta"@, cause, prefix, plan)[0];
        assert(a.take(plan.host@.len() as int) =~= plan.host@);
        assert(b.take("alpha"@.len() as int) =~= "alpha"@);
    }
}

/// A filter without glob marks picks what holds it anywhere, in whatever case;
/// one with marks is a glob, anchored at the root where it holds a separator
/// and at any depth where it does not.
pub proof fn law_a_filter_is_a_substring_or_a_glob(pattern: Seq<char>, path: Seq<char>)
    ensures
        !pattern.contains('*') && !pattern.contains('?') && !pattern.contains('[')
            && !pattern.contains('{') ==> picks(pattern, path) == occurs(
            lowercase(path),
            lowercase(pattern),
        ),
        pattern.contains('*') || pattern.contains('?') || pattern.contains('[') || pattern.contains(
            '{',
        ) ==> picks(pattern, path) == (if pattern.contains('/') {
            glob_matches(false, pattern, path)
        } else {
            glob_matches(false, seq!['*', '*', '/'] + pattern, path)
        }),
{
    reveal_strlit("**/");
    assert("**/"@ =~= seq!['*', '*', '/']);
    let marks = glob_marks();
    assert(marks[0] == '*' && marks[1] == '?' && marks[2] == '[' && marks[3] == '{');
    if has_any(pattern, marks) {
        let k = choose|k: int| 0 <= k < pattern.len() && marks.contains(pattern[k]);
        assert(pattern.contains(pattern[k]));
    }
    if pattern.contains('*') {
        let k = choose|k: int| 0 <= k < pattern.len() && pattern[k] == '*';
        assert(marks.contains(pattern[k]));
    }
    if pattern.contains('?') {
        let k = choose|k: int| 0 <= k < pattern.len() && pattern[k] == '?';
        assert(marks.contains(pattern[k]));
    }
    if pattern.contains('[') {
        let k = choose|k: int| 0 <= k < pattern.len() && pattern[k] == '[';
        assert(marks.contains(pattern[k]));
    }
    if pattern.contains('{') {
        let k = choose|k: int| 0 <= k < pattern.len() && pattern[k] == '{';
        assert(marks.contains(pattern[k]));
    }
}

} // verus!
