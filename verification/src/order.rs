//! The order of names, and lists kept in it.
use crate::text::{chars_of, strings};
use vstd::prelude::*;

verus! {

/// Whether `a` comes before `b`: at the first character in which they differ
/// it has the smaller one, or it ends there.
pub open spec fn before(a: Seq<char>, b: Seq<char>) -> bool
    decreases a.len(),
{
    if b.len() == 0 {
        false
    } else if a.len() == 0 {
        true
    } else if a[0] != b[0] {
        a[0] < b[0]
    } else {
        before(a.skip(1), b.skip(1))
    }
}

/// Whether `a` comes before `b`.
pub fn precedes(a: &str, b: &str) -> (r: bool)
    ensures
        r == before(a@, b@),
{
    let x = chars_of(a);
    let y = chars_of(b);
    let mut i: usize = 0;
    assert(x@.skip(0) =~= x@ && y@.skip(0) =~= y@);
    while i < x.len() && i < y.len()
        invariant
            i <= x.len(),
            i <= y.len(),
            x@ == a@,
            y@ == b@,
            before(a@, b@) == before(x@.skip(i as int), y@.skip(i as int)),
        decreases x.len() - i,
    {
        assert(x@.skip(i as int)[0] == x@[i as int] && y@.skip(i as int)[0] == y@[i as int]);
        if x[i] != y[i] {
            return x[i] < y[i];
        }
        assert(x@.skip(i as int).skip(1) =~= x@.skip(i + 1));
        assert(y@.skip(i as int).skip(1) =~= y@.skip(i + 1));
        i += 1;
    }
    i < y.len()
}

/// Of two different texts one comes before the other.
pub proof fn lemma_total(a: Seq<char>, b: Seq<char>)
    ensures
        a == b || before(a, b) || before(b, a),
    decreases a.len(),
{
    if a.len() > 0 && b.len() > 0 {
        if a[0] == b[0] {
            lemma_total(a.skip(1), b.skip(1));
            if a.skip(1) == b.skip(1) {
                assert(a =~= seq![a[0]] + a.skip(1));
                assert(b =~= seq![b[0]] + b.skip(1));
            }
        } else {
            assert(a[0] < b[0] || b[0] < a[0]);
        }
    } else if a.len() == 0 && b.len() == 0 {
        assert(a =~= b);
    }
}

/// What comes before something comes before what that comes before.
pub proof fn lemma_transitive(a: Seq<char>, b: Seq<char>, c: Seq<char>)
    requires
        before(a, b),
        before(b, c),
    ensures
        before(a, c),
    decreases a.len(),
{
    if a.len() > 0 && a[0] == b[0] && b[0] == c[0] {
        lemma_transitive(a.skip(1), b.skip(1), c.skip(1));
    }
}

/// How many texts at the start of a list come before `text`.
pub open spec fn slot(list: Seq<Seq<char>>, text: Seq<char>) -> int
    decreases list.len(),
{
    if list.len() == 0 || !before(list[0], text) {
        0
    } else {
        1 + slot(list.skip(1), text)
    }
}

/// What `slot` says: everything before it comes before the text, and what is
/// at it does not.
pub proof fn lemma_slot(list: Seq<Seq<char>>, text: Seq<char>)
    ensures
        0 <= slot(list, text) <= list.len(),
        forall|k: int| 0 <= k < slot(list, text) ==> before(#[trigger] list[k], text),
        slot(list, text) < list.len() ==> !before(list[slot(list, text)], text),
    decreases list.len(),
{
    if list.len() > 0 && before(list[0], text) {
        lemma_slot(list.skip(1), text);
        assert forall|k: int| 0 <= k < slot(list, text) implies before(
            #[trigger] list[k],
            text,
        ) by {
            if k > 0 {
                assert(list.skip(1)[k - 1] == list[k]);
            }
        }
    }
}

/// The slot is the number with those properties.
pub proof fn lemma_slot_is(list: Seq<Seq<char>>, text: Seq<char>, i: int)
    requires
        0 <= i <= list.len(),
        forall|k: int| 0 <= k < i ==> before(#[trigger] list[k], text),
        i < list.len() ==> !before(list[i], text),
    ensures
        slot(list, text) == i,
{
    lemma_slot(list, text);
    let j = slot(list, text);
    if j < i {
        assert(before(list[j], text));
    }
    if i < j {
        assert(before(list[i], text));
    }
}

/// Whether every text of a list comes before the next.
pub open spec fn increasing(list: Seq<Seq<char>>) -> bool {
    forall|i: int, j: int| 0 <= i < j < list.len() ==> before(#[trigger] list[i], #[trigger] list[j])
}

/// A list with `text` in its place, unless it is there already.
pub open spec fn with_text(list: Seq<Seq<char>>, text: Seq<char>) -> Seq<Seq<char>> {
    let i = slot(list, text);
    if i < list.len() && list[i] == text {
        list
    } else {
        list.insert(i, text)
    }
}

/// Putting a text in its place keeps a list in order.
pub proof fn lemma_with_text(list: Seq<Seq<char>>, text: Seq<char>)
    requires
        increasing(list),
    ensures
        increasing(with_text(list, text)),
        forall|t: Seq<char>|
            with_text(list, text).contains(t) <==> (list.contains(t) || t == text),
{
    lemma_slot(list, text);
    let i = slot(list, text);
    let all = with_text(list, text);
    if i < list.len() && list[i] == text {
        assert(all == list);
    } else {
        if i < list.len() {
            lemma_total(list[i], text);
        }
        assert forall|a: int, b: int| 0 <= a < b < all.len() implies before(
            #[trigger] all[a],
            #[trigger] all[b],
        ) by {
            if a < i && b < i {
                assert(before(list[a], list[b]));
            } else if a < i && b == i {
            } else if a < i && b > i {
                assert(before(list[a], list[b - 1]));
            } else if a == i {
                if b - 1 > i {
                    assert(before(list[i], list[b - 1]));
                    lemma_transitive(text, list[i], list[b - 1]);
                }
            } else {
                assert(before(list[a - 1], list[b - 1]));
            }
        }
        assert forall|t: Seq<char>| all.contains(t) <==> (list.contains(t) || t == text) by {
            if list.contains(t) {
                let k = choose|k: int| 0 <= k < list.len() && list[k] == t;
                if k < i {
                    assert(all[k] == t);
                } else {
                    assert(all[k + 1] == t);
                }
            }
            if t == text {
                assert(all[i] == t);
            }
            if all.contains(t) {
                let k = choose|k: int| 0 <= k < all.len() && all[k] == t;
                if k < i {
                    assert(list[k] == t);
                } else if k > i {
                    assert(list[k - 1] == t);
                }
            }
        }
    }
}

/// The texts of a list, in order, each once.
pub open spec fn sorted(list: Seq<Seq<char>>) -> Seq<Seq<char>>
    decreases list.len(),
{
    if list.len() == 0 {
        Seq::empty()
    } else {
        with_text(sorted(list.drop_last()), list.last())
    }
}

/// A sorted list is in order, without repetition, and holds what the list it
/// was made from holds.
pub proof fn law_sorting_keeps_the_texts(list: Seq<Seq<char>>)
    ensures
        increasing(sorted(list)),
        forall|t: Seq<char>| sorted(list).contains(t) <==> list.contains(t),
    decreases list.len(),
{
    if list.len() > 0 {
        law_sorting_keeps_the_texts(list.drop_last());
        lemma_with_text(sorted(list.drop_last()), list.last());
        assert forall|t: Seq<char>| sorted(list).contains(t) <==> list.contains(t) by {
            if list.contains(t) {
                let k = choose|k: int| 0 <= k < list.len() && list[k] == t;
                if k < list.len() - 1 {
                    assert(list.drop_last()[k] == t);
                }
            }
            if list.drop_last().contains(t) {
                let k = choose|k: int| 0 <= k < list.len() - 1 && list.drop_last()[k] == t;
                assert(list[k] == t);
            }
        }
    }
}

/// The place of a text in a list of strings.
pub fn find_slot(list: &Vec<String>, text: &str) -> (i: usize)
    ensures
        i == slot(strings(list@), text@),
        i <= list.len(),
{
    let mut i: usize = 0;
    while i < list.len() && precedes(list[i].as_str(), text)
        invariant
            i <= list.len(),
            forall|k: int| 0 <= k < i ==> before(#[trigger] strings(list@)[k], text@),
        decreases list.len() - i,
    {
        i += 1;
    }
    proof {
        lemma_slot_is(strings(list@), text@, i as int);
    }
    i
}

/// Puts a text in its place in a list, unless it is there already.
pub fn insert_text(list: &mut Vec<String>, text: String)
    ensures
        strings(final(list)@) == with_text(strings(old(list)@), text@),
{
    let i = find_slot(list, text.as_str());
    let ghost names = strings(list@);
    if i < list.len() && list[i] == text {
        return;
    }
    let ghost added = text@;
    list.insert(i, text);
    assert(strings(list@) =~= names.insert(i as int, added));
}

/// The texts of a list, in order, each once.
pub fn sort_texts(list: &[String]) -> (r: Vec<String>)
    ensures
        strings(r@) == sorted(strings(list@)),
{
    let mut r: Vec<String> = Vec::new();
    let mut i: usize = 0;
    assert(strings(r@) =~= Seq::<Seq<char>>::empty());
    while i < list.len()
        invariant
            i <= list.len(),
            strings(r@) == sorted(strings(list@).take(i as int)),
        decreases list.len() - i,
    {
        assert(strings(list@).take(i + 1).drop_last() =~= strings(list@).take(i as int));
        insert_text(&mut r, list[i].clone());
        i += 1;
    }
    assert(strings(list@).take(list@.len() as int) =~= strings(list@));
    r
}

/// The first difference decides about the order of two texts, by what comes
/// first in Unicode; a text comes before whatever goes on from it, and none
/// before itself.
pub proof fn law_the_first_difference_decides(
    front: Seq<char>,
    x: char,
    y: char,
    a: Seq<char>,
    b: Seq<char>,
)
    requires
        x < y,
    ensures
        before(front + seq![x] + a, front + seq![y] + b),
        !before(front + seq![y] + b, front + seq![x] + a),
        before(front, front + seq![x] + a),
        !before(front + seq![x] + a, front),
        !before(front, front),
    decreases front.len(),
{
    let (one, other) = (front + seq![x] + a, front + seq![y] + b);
    if front.len() > 0 {
        let rest = front.skip(1);
        law_the_first_difference_decides(rest, x, y, a, b);
        assert(one.skip(1) =~= rest + seq![x] + a);
        assert(other.skip(1) =~= rest + seq![y] + b);
    } else {
        assert(one[0] == x && other[0] == y);
    }
}

} // verus!
