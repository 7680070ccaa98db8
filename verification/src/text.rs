//! Text: characters, numbers, lines, and the quoting of names for a reader
//! or a shell.
use vstd::prelude::*;
use vstd::slice::{slice_subrange, slice_to_vec};

verus! {

/// `String::push` appends one character.
pub assume_specification[ String::push ](s: &mut String, ch: char)
    ensures
        final(s)@ == old(s)@.push(ch),
;

/// What `str::to_lowercase` makes of a text.
pub uninterp spec fn lowercase(s: Seq<char>) -> Seq<char>;

/// `str::to_lowercase`: the lowercase equivalent of the text, named
/// `lowercase` here; nothing else is claimed of it.
pub assume_specification[ str::to_lowercase ](s: &str) -> (res: String)
    ensures
        res@ == lowercase(s@),
;

/// Whether `char::is_alphanumeric` holds of a character.
pub uninterp spec fn alphanumeric(c: char) -> bool;

/// `char::is_alphanumeric`: the Unicode property, named `alphanumeric` here;
/// nothing else is claimed of it.
pub assume_specification[ char::is_alphanumeric ](c: char) -> (res: bool)
    ensures
        res == alphanumeric(c),
;

/// What the debug format makes of a text.
pub uninterp spec fn debugged(s: Seq<char>) -> Seq<char>;

/// `format!` with `{:?}` of a text: quoted, and escaped where a reader could
/// not tell characters apart; named `debugged` here, and nothing else is
/// claimed of it.
#[verifier::external_body]
pub(crate) fn debug_text(s: &str) -> (r: String)
    ensures
        r@ == debugged(s@),
{
    format!("{s:?}")
}

/// What `str::escape_debug` makes of a text.
pub uninterp spec fn debug_escaped(s: Seq<char>) -> Seq<char>;

/// `str::escape_debug`, collected: what a reader could not see or tell apart
/// is escaped, without quotes around it; named `debug_escaped` here, and
/// nothing else is claimed of it.
#[verifier::external_body]
pub(crate) fn escape_debug(s: &str) -> (r: String)
    ensures
        r@ == debug_escaped(s@),
{
    s.escape_debug().to_string()
}

// ---------------------------------------------------------------------------
// Characters and strings
// ---------------------------------------------------------------------------

/// The characters of a string, in order.
pub fn chars_of(s: &str) -> (v: Vec<char>)
    ensures
        v@ == s@,
{
    let mut v: Vec<char> = Vec::new();
    for c in it: s.chars()
        invariant
            it.seq() == s@,
            v@ == s@.take(it.index()),
    {
        v.push(c);
        proof {
            assert(s@.take(it.index() + 1) =~= s@.take(it.index()).push(c));
        }
    }
    assert(s@.take(s@.len() as int) =~= s@);
    v
}

/// The string that holds the given characters.
pub fn string_of(v: &[char]) -> (s: String)
    ensures
        s@ == v@,
{
    let mut s = String::new();
    let mut i: usize = 0;
    while i < v.len()
        invariant
            i <= v.len(),
            s@ == v@.take(i as int),
        decreases v.len() - i,
    {
        s.push(v[i]);
        proof {
            assert(v@.take(i + 1) =~= v@.take(i as int).push(v@[i as int]));
        }
        i += 1;
    }
    assert(v@.take(v@.len() as int) =~= v@);
    s
}

/// Whether two strings hold the same characters.
pub fn same_text(a: &str, b: &str) -> (r: bool)
    ensures
        r == (a@ == b@),
{
    a.to_owned() == b.to_owned()
}

/// Whether two runs of characters are the same.
pub fn same(a: &[char], b: &[char]) -> (r: bool)
    ensures
        r == (a@ == b@),
{
    if a.len() != b.len() {
        return false;
    }
    let mut i: usize = 0;
    while i < a.len()
        invariant
            i <= a.len(),
            a.len() == b.len(),
            forall|k: int| 0 <= k < i ==> a@[k] == b@[k],
        decreases a.len() - i,
    {
        if a[i] != b[i] {
            return false;
        }
        i += 1;
    }
    assert(a@ =~= b@);
    true
}

/// The texts a vector of character runs holds.
pub open spec fn texts(v: Seq<Vec<char>>) -> Seq<Seq<char>> {
    Seq::new(v.len(), |i: int| v[i]@)
}

/// The texts a vector of strings holds.
pub open spec fn strings(v: Seq<String>) -> Seq<Seq<char>> {
    Seq::new(v.len(), |i: int| v[i]@)
}

/// The text of an optional string.
pub open spec fn optional(s: Option<String>) -> Option<Seq<char>> {
    match s {
        Some(text) => Some(text@),
        None => None,
    }
}

/// A copy of a vector of strings.
pub fn copy_strings(v: &[String]) -> (r: Vec<String>)
    ensures
        strings(r@) == strings(v@),
{
    let mut r: Vec<String> = Vec::new();
    let mut i: usize = 0;
    while i < v.len()
        invariant
            i <= v.len(),
            r.len() == i,
            forall|k: int| 0 <= k < i ==> (#[trigger] r@[k])@ == v@[k]@,
        decreases v.len() - i,
    {
        r.push(v[i].clone());
        i += 1;
    }
    assert(strings(r@) =~= strings(v@));
    r
}

/// A copy of an optional string.
pub fn copy_optional(s: &Option<String>) -> (r: Option<String>)
    ensures
        optional(r) == optional(*s),
{
    match s {
        Some(text) => Some(text.clone()),
        None => None,
    }
}

/// Whether a text is one of the given strings.
pub fn holds_text(v: &[String], s: &str) -> (r: bool)
    ensures
        r == strings(v@).contains(s@),
{
    let mut i: usize = 0;
    while i < v.len()
        invariant
            i <= v.len(),
            forall|k: int| 0 <= k < i ==> (#[trigger] v@[k])@ != s@,
        decreases v.len() - i,
    {
        if same_text(v[i].as_str(), s) {
            assert(strings(v@)[i as int] == s@);
            return true;
        }
        i += 1;
    }
    assert(!strings(v@).contains(s@));
    false
}

// ---------------------------------------------------------------------------
// Character classes
// ---------------------------------------------------------------------------

/// The characters with Unicode's `White_Space` property.
pub open spec fn whitespace(c: char) -> bool {
    ||| '\t' <= c <= '\r'
    ||| c == ' '
    ||| c == '\u{85}'
    ||| c == '\u{a0}'
    ||| c == '\u{1680}'
    ||| '\u{2000}' <= c <= '\u{200a}'
    ||| c == '\u{2028}'
    ||| c == '\u{2029}'
    ||| c == '\u{202f}'
    ||| c == '\u{205f}'
    ||| c == '\u{3000}'
}

/// Whether a character is white space.
pub fn is_whitespace(c: char) -> (r: bool)
    ensures
        r == whitespace(c),
{
    ('\t' <= c && c <= '\r') || c == ' ' || c == '\u{85}' || c == '\u{a0}' || c == '\u{1680}' || (
    '\u{2000}' <= c && c <= '\u{200a}') || c == '\u{2028}' || c == '\u{2029}' || c == '\u{202f}'
        || c == '\u{205f}' || c == '\u{3000}'
}

/// The control characters: Unicode's general category `Cc`.
pub open spec fn control(c: char) -> bool {
    c <= '\u{1f}' || '\u{7f}' <= c <= '\u{9f}'
}

/// Whether a character is a control character.
pub fn is_control(c: char) -> (r: bool)
    ensures
        r == control(c),
{
    c <= '\u{1f}' || ('\u{7f}' <= c && c <= '\u{9f}')
}

/// Whether a text holds a control character.
pub open spec fn has_control(s: Seq<char>) -> bool {
    exists|i: int| 0 <= i < s.len() && control(#[trigger] s[i])
}

/// Whether a run of characters holds a control character.
pub fn any_control(s: &[char]) -> (r: bool)
    ensures
        r == has_control(s@),
{
    let mut i: usize = 0;
    while i < s.len()
        invariant
            i <= s.len(),
            forall|k: int| 0 <= k < i ==> !control(#[trigger] s@[k]),
        decreases s.len() - i,
    {
        if is_control(s[i]) {
            assert(control(s@[i as int]));
            return true;
        }
        i += 1;
    }
    false
}

/// The characters that make a pattern a glob.
pub open spec fn has_any(s: Seq<char>, set: Seq<char>) -> bool {
    exists|i: int| 0 <= i < s.len() && set.contains(#[trigger] s[i])
}

/// Whether a character is among the given ones.
pub fn among(c: char, set: &[char]) -> (r: bool)
    ensures
        r == set@.contains(c),
{
    let mut i: usize = 0;
    while i < set.len()
        invariant
            i <= set.len(),
            forall|k: int| 0 <= k < i ==> set@[k] != c,
        decreases set.len() - i,
    {
        if set[i] == c {
            return true;
        }
        i += 1;
    }
    false
}

/// Whether a run of characters holds one of the given ones.
pub fn any_of(s: &[char], set: &[char]) -> (r: bool)
    ensures
        r == has_any(s@, set@),
{
    let mut i: usize = 0;
    while i < s.len()
        invariant
            i <= s.len(),
            forall|k: int| 0 <= k < i ==> !set@.contains(#[trigger] s@[k]),
        decreases s.len() - i,
    {
        if among(s[i], set) {
            assert(set@.contains(s@[i as int]));
            return true;
        }
        i += 1;
    }
    false
}

// ---------------------------------------------------------------------------
// Prefixes, suffixes, and searching
// ---------------------------------------------------------------------------

/// Whether `s` starts with `prefix`.
pub open spec fn has_prefix(s: Seq<char>, prefix: Seq<char>) -> bool {
    prefix.len() <= s.len() && s.take(prefix.len() as int) == prefix
}

/// Whether `s` ends with `suffix`.
pub open spec fn has_suffix(s: Seq<char>, suffix: Seq<char>) -> bool {
    suffix.len() <= s.len() && s.skip(s.len() - suffix.len()) == suffix
}

/// Whether `s` starts with `prefix`.
pub fn starts_with(s: &[char], prefix: &[char]) -> (r: bool)
    ensures
        r == has_prefix(s@, prefix@),
{
    if prefix.len() > s.len() {
        return false;
    }
    let head = slice_subrange(s, 0, prefix.len());
    assert(head@ =~= s@.take(prefix@.len() as int));
    same(head, prefix)
}

/// Whether `s` ends with `suffix`.
pub fn ends_with(s: &[char], suffix: &[char]) -> (r: bool)
    ensures
        r == has_suffix(s@, suffix@),
{
    if suffix.len() > s.len() {
        return false;
    }
    let tail = slice_subrange(s, s.len() - suffix.len(), s.len());
    assert(tail@ =~= s@.skip(s@.len() - suffix@.len()));
    same(tail, suffix)
}

/// Whether a string starts with another.
pub fn str_starts_with(s: &str, prefix: &str) -> (r: bool)
    ensures
        r == has_prefix(s@, prefix@),
{
    let s = chars_of(s);
    let prefix = chars_of(prefix);
    starts_with(s.as_slice(), prefix.as_slice())
}

/// Whether `pat` occurs in `s` at `i`.
pub open spec fn occurs_at(s: Seq<char>, pat: Seq<char>, i: int) -> bool {
    0 <= i && i + pat.len() <= s.len() && s.subrange(i, i + pat.len()) == pat
}

/// Whether `pat` occurs in `s`.
pub open spec fn occurs(s: Seq<char>, pat: Seq<char>) -> bool {
    exists|i: int| occurs_at(s, pat, i)
}

/// Where `pat` first occurs in `s`, or `None` where it does not.
#[verifier::opaque]
pub open spec fn first_occurrence(s: Seq<char>, pat: Seq<char>) -> Option<int> {
    if occurs(s, pat) {
        Some(
            choose|i: int|
                occurs_at(s, pat, i) && (forall|k: int| 0 <= k < i ==> !occurs_at(s, pat, k)),
        )
    } else {
        None
    }
}

/// The first occurrence is the one before which there is none.
pub proof fn lemma_first_occurrence(s: Seq<char>, pat: Seq<char>, i: int)
    requires
        occurs_at(s, pat, i),
        forall|k: int| 0 <= k < i ==> !occurs_at(s, pat, k),
    ensures
        first_occurrence(s, pat) == Some(i),
{
    reveal(first_occurrence);
    let j = choose|j: int|
        occurs_at(s, pat, j) && (forall|k: int| 0 <= k < j ==> !occurs_at(s, pat, k));
    assert(occurs_at(s, pat, j) && (forall|k: int| 0 <= k < j ==> !occurs_at(s, pat, k)));
    assert(i == j);
}

/// Where `pat` first occurs in `s`.
pub fn find(s: &[char], pat: &[char]) -> (r: Option<usize>)
    ensures
        match r {
            Some(i) => first_occurrence(s@, pat@) == Some(i as int) && occurs_at(s@, pat@, i as int)
                && forall|k: int| 0 <= k < i ==> !occurs_at(s@, pat@, k),
            None => first_occurrence(s@, pat@) is None && !occurs(s@, pat@),
        },
{
    if pat.len() > s.len() {
        proof {
            assert forall|k: int| !occurs_at(s@, pat@, k) by {}
            reveal(first_occurrence);
        }
        return None;
    }
    let last: usize = s.len() - pat.len();
    let mut i: usize = 0;
    while i <= last
        invariant
            i <= last + 1,
            last == s.len() - pat.len(),
            pat.len() <= s.len(),
            forall|k: int| 0 <= k < i ==> !occurs_at(s@, pat@, k),
        decreases last + 1 - i,
    {
        let window = slice_subrange(s, i, i + pat.len());
        if same(window, pat) {
            proof {
                assert(occurs_at(s@, pat@, i as int));
                lemma_first_occurrence(s@, pat@, i as int);
            }
            return Some(i);
        }
        assert(!occurs_at(s@, pat@, i as int));
        if i == last {
            proof {
                assert forall|k: int| !occurs_at(s@, pat@, k) by {}
                reveal(first_occurrence);
            }
            return None;
        }
        i += 1;
    }
    proof {
        assert forall|k: int| !occurs_at(s@, pat@, k) by {}
        reveal(first_occurrence);
    }
    None
}

/// Where a character first occurs: the index, or the length where it does not.
pub open spec fn first_index(s: Seq<char>, c: char) -> int
    decreases s.len(),
{
    if s.len() == 0 {
        0
    } else if first_index(s.drop_last(), c) < s.len() - 1 {
        first_index(s.drop_last(), c)
    } else if s.last() == c {
        s.len() - 1
    } else {
        s.len() as int
    }
}

/// What `first_index` says: nothing before it is the character, and it is
/// the character there, unless it is the length.
pub proof fn lemma_first_index(s: Seq<char>, c: char)
    ensures
        0 <= first_index(s, c) <= s.len(),
        forall|k: int| 0 <= k < first_index(s, c) ==> s[k] != c,
        first_index(s, c) < s.len() ==> s[first_index(s, c)] == c,
        first_index(s, c) < s.len() <==> s.contains(c),
    decreases s.len(),
{
    if s.len() > 0 {
        lemma_first_index(s.drop_last(), c);
        let i = first_index(s, c);
        assert forall|k: int| 0 <= k < i implies s[k] != c by {
            if k < s.len() - 1 {
                assert(s.drop_last()[k] == s[k]);
            }
        }
        if i < s.len() - 1 {
            assert(s.drop_last()[i] == s[i]);
        }
        if s.contains(c) {
            let k = choose|k: int| 0 <= k < s.len() && s[k] == c;
            assert(!(k < i));
        }
    }
}

/// The index before which a character does not occur and at which it does is
/// the first one.
pub proof fn lemma_first_index_is(s: Seq<char>, c: char, i: int)
    requires
        0 <= i <= s.len(),
        forall|k: int| 0 <= k < i ==> s[k] != c,
        i < s.len() ==> s[i] == c,
    ensures
        first_index(s, c) == i,
{
    lemma_first_index(s, c);
    let j = first_index(s, c);
    if j < i {
        assert(s[j] != c);
    }
    if i < j {
        assert(s[i] != c);
    }
}

/// Where a character first occurs, or the length where it does not.
pub fn index_of(s: &[char], c: char) -> (r: usize)
    ensures
        r == first_index(s@, c),
        r <= s.len(),
        r < s.len() ==> s@[r as int] == c,
        forall|k: int| 0 <= k < r ==> s@[k] != c,
{
    let mut i: usize = 0;
    while i < s.len()
        invariant
            i <= s.len(),
            forall|k: int| 0 <= k < i ==> s@[k] != c,
        decreases s.len() - i,
    {
        if s[i] == c {
            proof {
                lemma_first_index_is(s@, c, i as int);
            }
            return i;
        }
        i += 1;
    }
    proof {
        lemma_first_index_is(s@, c, i as int);
    }
    i
}

// ---------------------------------------------------------------------------
// Splitting and joining
// ---------------------------------------------------------------------------

/// The pieces of `s` between occurrences of `sep`. There is always one more
/// piece than there are separators.
pub open spec fn segments(s: Seq<char>, sep: char) -> Seq<Seq<char>>
    decreases s.len(),
{
    if s.len() == 0 {
        seq![Seq::empty()]
    } else {
        let front = segments(s.drop_last(), sep);
        if s.last() == sep {
            front.push(Seq::empty())
        } else {
            front.drop_last().push(front.last().push(s.last()))
        }
    }
}

/// There is always a piece.
pub proof fn lemma_segments_nonempty(s: Seq<char>, sep: char)
    ensures
        segments(s, sep).len() >= 1,
    decreases s.len(),
{
    if s.len() > 0 {
        lemma_segments_nonempty(s.drop_last(), sep);
    }
}

/// The pieces of a text that goes on after a piece without separators.
pub proof fn lemma_segments_front(head: Seq<char>, sep: char, tail: Seq<char>)
    requires
        !head.contains(sep),
    ensures
        segments(head + seq![sep] + tail, sep) == seq![head] + segments(tail, sep),
    decreases tail.len(),
{
    let all = head + seq![sep] + tail;
    if tail.len() == 0 {
        assert(all.drop_last() =~= head);
        lemma_segments_single(head, sep);
        assert(segments(all, sep) =~= seq![head] + segments(tail, sep));
    } else {
        lemma_segments_front(head, sep, tail.drop_last());
        assert(all.drop_last() =~= head + seq![sep] + tail.drop_last());
        let front = segments(tail.drop_last(), sep);
        lemma_segments_nonempty(tail.drop_last(), sep);
        let before = seq![head] + front;
        assert(before.last() == front.last());
        assert(before.drop_last() =~= seq![head] + front.drop_last());
        assert(segments(all, sep) =~= seq![head] + segments(tail, sep));
    }
}

/// A text without separators is one piece.
pub proof fn lemma_segments_single(head: Seq<char>, sep: char)
    requires
        !head.contains(sep),
    ensures
        segments(head, sep) == seq![head],
    decreases head.len(),
{
    if head.len() == 0 {
        assert(head =~= Seq::<char>::empty());
    } else {
        let front = head.drop_last();
        assert(!front.contains(sep)) by {
            if front.contains(sep) {
                let k = choose|k: int| 0 <= k < front.len() && front[k] == sep;
                assert(head[k] == sep);
            }
        }
        lemma_segments_single(front, sep);
        assert(head.last() != sep) by {
            assert(head.contains(head.last())) by {
                assert(head[head.len() - 1] == head.last());
            }
        }
        assert(front.push(head.last()) =~= head);
        assert(segments(head, sep) =~= seq![head]);
    }
}

/// The pieces of a text with one more behind a separator.
proof fn lemma_segments_back(all: Seq<char>, sep: char, last: Seq<char>)
    requires
        !last.contains(sep),
    ensures
        segments(all + seq![sep] + last, sep) == segments(all, sep).push(last),
    decreases last.len(),
{
    let whole = all + seq![sep] + last;
    if last.len() == 0 {
        assert(whole.drop_last() =~= all);
        assert(last =~= Seq::<char>::empty());
    } else {
        let front = last.drop_last();
        assert(!front.contains(sep)) by {
            if front.contains(sep) {
                let k = choose|k: int| 0 <= k < front.len() && front[k] == sep;
                assert(last[k] == sep);
            }
        }
        assert(last.last() != sep) by {
            assert(last[last.len() - 1] == last.last());
        }
        lemma_segments_back(all, sep, front);
        assert(whole.drop_last() =~= all + seq![sep] + front);
        assert(front.push(last.last()) =~= last);
        assert(segments(all, sep).push(front).drop_last() =~= segments(all, sep));
    }
}

/// The pieces of a text with one more behind a separator.
pub proof fn lemma_segments_behind(all: Seq<char>, sep: char, last: Seq<char>)
    requires
        !last.contains(sep),
    ensures
        segments(all + seq![sep] + last, sep) == segments(all, sep).push(last),
{
    lemma_segments_back(all, sep, last);
}

/// What was joined by a separator splits into what was joined, where none of
/// it holds the separator.
pub proof fn lemma_segments_joined(parts: Seq<Seq<char>>, sep: char)
    requires
        parts.len() > 0,
        forall|i: int| 0 <= i < parts.len() ==> !(#[trigger] parts[i]).contains(sep),
    ensures
        segments(joined(parts, seq![sep]), sep) == parts,
    decreases parts.len(),
{
    if parts.len() == 1 {
        lemma_segments_single(parts[0], sep);
        assert(seq![parts[0]] =~= parts);
    } else {
        lemma_segments_joined(parts.drop_last(), sep);
        lemma_segments_back(joined(parts.drop_last(), seq![sep]), sep, parts.last());
        assert(parts.drop_last().push(parts.last()) =~= parts);
    }
}

/// The pieces of `s` between occurrences of `sep`.
pub fn split(s: &[char], sep: char) -> (r: Vec<Vec<char>>)
    ensures
        texts(r@) == segments(s@, sep),
        r.len() >= 1,
{
    let mut done: Vec<Vec<char>> = Vec::new();
    let mut current: Vec<char> = Vec::new();
    let mut i: usize = 0;
    assert(texts(done@).push(current@) =~= segments(s@.take(0), sep));
    while i < s.len()
        invariant
            i <= s.len(),
            texts(done@).push(current@) == segments(s@.take(i as int), sep),
        decreases s.len() - i,
    {
        let ghost before = texts(done@).push(current@);
        proof {
            assert(s@.take(i + 1).drop_last() =~= s@.take(i as int));
            assert(before.drop_last() =~= texts(done@));
            assert(before.last() == current@);
        }
        if s[i] == sep {
            let mut fresh: Vec<char> = Vec::new();
            std::mem::swap(&mut fresh, &mut current);
            done.push(fresh);
            assert(texts(done@) =~= before);
            assert(texts(done@).push(current@) =~= segments(s@.take(i + 1), sep));
        } else {
            current.push(s[i]);
            assert(texts(done@).push(current@) =~= segments(s@.take(i + 1), sep));
        }
        i += 1;
    }
    assert(s@.take(s@.len() as int) =~= s@);
    let ghost all = texts(done@).push(current@);
    done.push(current);
    assert(texts(done@) =~= all);
    done
}

/// The texts with `sep` between each two.
pub open spec fn joined(parts: Seq<Seq<char>>, sep: Seq<char>) -> Seq<char>
    decreases parts.len(),
{
    if parts.len() == 0 {
        Seq::empty()
    } else if parts.len() == 1 {
        parts[0]
    } else {
        joined(parts.drop_last(), sep) + sep + parts.last()
    }
}

/// The first `n` runs, with `sep` between each two.
pub fn join_first(parts: &[Vec<char>], n: usize, sep: &str) -> (r: String)
    requires
        n <= parts.len(),
    ensures
        r@ == joined(texts(parts@).take(n as int), sep@),
{
    let mut r = String::new();
    let mut i: usize = 0;
    assert(texts(parts@).take(0) =~= Seq::<Seq<char>>::empty());
    while i < n
        invariant
            i <= n <= parts.len(),
            r@ == joined(texts(parts@).take(i as int), sep@),
        decreases n - i,
    {
        let ghost whole = texts(parts@).take(i + 1);
        proof {
            assert(whole.drop_last() =~= texts(parts@).take(i as int));
            assert(whole.last() == parts@[i as int]@);
        }
        if i > 0 {
            r.append(sep);
        }
        let piece = string_of(parts[i].as_slice());
        r.append(piece.as_str());
        proof {
            if i == 0 {
                assert(Seq::<char>::empty() + parts@[0]@ =~= parts@[0]@);
            }
        }
        i += 1;
    }
    r
}

/// The strings, with `sep` between each two.
pub fn join_strings(parts: &[String], sep: &str) -> (r: String)
    ensures
        r@ == joined(strings(parts@), sep@),
{
    let mut r = String::new();
    let mut i: usize = 0;
    assert(strings(parts@).take(0) =~= Seq::<Seq<char>>::empty());
    while i < parts.len()
        invariant
            i <= parts.len(),
            r@ == joined(strings(parts@).take(i as int), sep@),
        decreases parts.len() - i,
    {
        let ghost whole = strings(parts@).take(i + 1);
        proof {
            assert(whole.drop_last() =~= strings(parts@).take(i as int));
            assert(whole.last() == parts@[i as int]@);
        }
        if i > 0 {
            r.append(sep);
        }
        r.append(parts[i].as_str());
        proof {
            if i == 0 {
                assert(Seq::<char>::empty() + parts@[0]@ =~= parts@[0]@);
            }
        }
        i += 1;
    }
    assert(strings(parts@).take(parts@.len() as int) =~= strings(parts@));
    r
}

/// A line without the carriage return before its end.
pub open spec fn without_return(s: Seq<char>) -> Seq<char> {
    if s.len() > 0 && s.last() == '\r' {
        s.drop_last()
    } else {
        s
    }
}

/// The lines of a text: what stands before each line feed, without a carriage
/// return directly before it, and what follows the last one unless that is
/// nothing.
pub open spec fn line_texts(s: Seq<char>) -> Seq<Seq<char>> {
    let parts = segments(s, '\n');
    let ended = Seq::new((parts.len() - 1) as nat, |i: int| without_return(parts[i]));
    if parts.last().len() == 0 {
        ended
    } else {
        ended.push(parts.last())
    }
}

/// The lines of a text.
pub fn lines(s: &[char]) -> (r: Vec<Vec<char>>)
    ensures
        texts(r@) == line_texts(s@),
{
    let mut parts = split(s, '\n');
    let ghost all = segments(s@, '\n');
    let last = match parts.pop() {
        Some(last) => last,
        None => Vec::new(),
    };
    assert(last@ == all.last());
    let mut r: Vec<Vec<char>> = Vec::new();
    let mut i: usize = 0;
    while i < parts.len()
        invariant
            i <= parts.len(),
            parts.len() + 1 == all.len(),
            forall|k: int| 0 <= k < parts.len() ==> (#[trigger] parts@[k])@ == all[k],
            r.len() == i,
            forall|k: int| 0 <= k < i ==> (#[trigger] r@[k])@ == without_return(all[k]),
        decreases parts.len() - i,
    {
        let n: usize = parts[i].len();
        let keep: usize = if n > 0 && parts[i][n - 1] == '\r' {
            n - 1
        } else {
            n
        };
        let line = slice_to_vec(slice_subrange(parts[i].as_slice(), 0, keep));
        assert(line@ =~= without_return(all[i as int]));
        r.push(line);
        i += 1;
    }
    let ghost ended = Seq::new((all.len() - 1) as nat, |i: int| without_return(all[i]));
    assert(texts(r@) =~= ended);
    if last.len() > 0 {
        r.push(last);
        assert(texts(r@) =~= ended.push(all.last()));
    }
    r
}

/// A text without the white space at its end.
pub open spec fn trimmed_end(s: Seq<char>) -> Seq<char>
    decreases s.len(),
{
    if s.len() > 0 && whitespace(s.last()) {
        trimmed_end(s.drop_last())
    } else {
        s
    }
}

/// A text without the white space at its start.
pub open spec fn trimmed_start(s: Seq<char>) -> Seq<char>
    decreases s.len(),
{
    if s.len() > 0 && whitespace(s[0]) {
        trimmed_start(s.skip(1))
    } else {
        s
    }
}

/// A text without the white space at its ends.
pub open spec fn trimmed(s: Seq<char>) -> Seq<char> {
    trimmed_start(trimmed_end(s))
}

/// A run without the white space at its end.
pub fn trim_end(s: &[char]) -> (r: &[char])
    ensures
        r@ == trimmed_end(s@),
{
    let mut n: usize = s.len();
    assert(s@.take(n as int) =~= s@);
    while n > 0 && is_whitespace(s[n - 1])
        invariant
            n <= s.len(),
            trimmed_end(s@.take(n as int)) == trimmed_end(s@),
        decreases n,
    {
        assert(s@.take(n as int).drop_last() =~= s@.take(n - 1));
        n -= 1;
    }
    let r = slice_subrange(s, 0, n);
    assert(r@ =~= s@.take(n as int));
    r
}

/// A run without the white space at its start.
pub fn trim_start(s: &[char]) -> (r: &[char])
    ensures
        r@ == trimmed_start(s@),
{
    let mut i: usize = 0;
    assert(s@.skip(0) =~= s@);
    while i < s.len() && is_whitespace(s[i])
        invariant
            i <= s.len(),
            trimmed_start(s@.skip(i as int)) == trimmed_start(s@),
        decreases s.len() - i,
    {
        assert(s@.skip(i as int).skip(1) =~= s@.skip(i + 1));
        i += 1;
    }
    let r = slice_subrange(s, i, s.len());
    assert(r@ =~= s@.skip(i as int));
    r
}

// ---------------------------------------------------------------------------
// Replacing
// ---------------------------------------------------------------------------

/// `s` with every `c` replaced by `with`.
pub open spec fn replaced(s: Seq<char>, c: char, with: Seq<char>) -> Seq<char>
    decreases s.len(),
{
    if s.len() == 0 {
        Seq::empty()
    } else {
        replaced(s.drop_last(), c, with) + (if s.last() == c {
            with
        } else {
            seq![s.last()]
        })
    }
}

/// `s` with every `c` replaced by `with`.
pub fn replace(s: &[char], c: char, with: &str) -> (r: String)
    ensures
        r@ == replaced(s@, c, with@),
{
    let mut r = String::new();
    let mut i: usize = 0;
    while i < s.len()
        invariant
            i <= s.len(),
            r@ == replaced(s@.take(i as int), c, with@),
        decreases s.len() - i,
    {
        assert(s@.take(i + 1).drop_last() =~= s@.take(i as int));
        let ghost before = r@;
        if s[i] == c {
            r.append(with);
        } else {
            r.push(s[i]);
            assert(before.push(s@[i as int]) =~= before + seq![s@[i as int]]);
        }
        i += 1;
    }
    assert(s@.take(s@.len() as int) =~= s@);
    r
}

/// `s` with every occurrence of `pat`, read from the left and not
/// overlapping, replaced by `with`.
pub open spec fn substituted(s: Seq<char>, pat: Seq<char>, with: Seq<char>) -> Seq<char>
    decreases s.len(),
{
    if s.len() == 0 || pat.len() == 0 {
        s
    } else if has_prefix(s, pat) {
        with + substituted(s.skip(pat.len() as int), pat, with)
    } else {
        seq![s[0]] + substituted(s.skip(1), pat, with)
    }
}

/// `s` with every occurrence of `pat` replaced by `with`.
pub fn substitute(s: &[char], pat: &[char], with: &str) -> (r: String)
    requires
        pat@.len() > 0,
    ensures
        r@ == substituted(s@, pat@, with@),
{
    let mut r = String::new();
    let mut i: usize = 0;
    assert(s@.skip(0) =~= s@);
    assert(r@ + substituted(s@, pat@, with@) =~= substituted(s@, pat@, with@));
    while i < s.len()
        invariant
            i <= s.len(),
            pat@.len() > 0,
            r@ + substituted(s@.skip(i as int), pat@, with@) == substituted(s@, pat@, with@),
        decreases s.len() - i,
    {
        let ghost before = r@;
        let ghost rest = s@.skip(i as int);
        let tail = slice_subrange(s, i, s.len());
        assert(tail@ =~= rest);
        if starts_with(tail, pat) {
            r.append(with);
            proof {
                assert(rest.skip(pat@.len() as int) =~= s@.skip(i + pat@.len()));
                let after = substituted(s@.skip(i + pat@.len()), pat@, with@);
                assert(before + (with@ + after) =~= (before + with@) + after);
            }
            i += pat.len();
        } else {
            r.push(s[i]);
            proof {
                assert(rest.skip(1) =~= s@.skip(i + 1));
                let after = substituted(s@.skip(i + 1), pat@, with@);
                assert(before + (seq![rest[0]] + after) =~= before.push(s@[i as int]) + after);
            }
            i += 1;
        }
    }
    assert(s@.skip(i as int) =~= Seq::<char>::empty());
    assert(r@ + Seq::<char>::empty() =~= r@);
    r
}

// ---------------------------------------------------------------------------
// Numbers
// ---------------------------------------------------------------------------

/// The decimal digit of a number below ten.
pub open spec fn digit(d: int) -> char {
    if d == 0 {
        '0'
    } else if d == 1 {
        '1'
    } else if d == 2 {
        '2'
    } else if d == 3 {
        '3'
    } else if d == 4 {
        '4'
    } else if d == 5 {
        '5'
    } else if d == 6 {
        '6'
    } else if d == 7 {
        '7'
    } else if d == 8 {
        '8'
    } else {
        '9'
    }
}

/// The decimal digit of a number below ten.
fn digit_char(d: u64) -> (c: char)
    requires
        d < 10,
    ensures
        c == digit(d as int),
{
    match d {
        0 => '0',
        1 => '1',
        2 => '2',
        3 => '3',
        4 => '4',
        5 => '5',
        6 => '6',
        7 => '7',
        8 => '8',
        _ => '9',
    }
}

/// A number in decimal, without leading zeros.
pub open spec fn decimal_text(n: nat) -> Seq<char>
    decreases n,
{
    if n < 10 {
        seq![digit(n as int)]
    } else {
        decimal_text(n / 10).push(digit((n % 10) as int))
    }
}

/// A number in decimal, without leading zeros.
pub fn decimal(n: u64) -> (r: String)
    ensures
        r@ == decimal_text(n as nat),
    decreases n,
{
    if n < 10 {
        let mut r = String::new();
        r.push(digit_char(n));
        assert(r@ =~= seq![digit(n as int)]);
        r
    } else {
        let mut r = decimal(n / 10);
        r.push(digit_char(n % 10));
        r
    }
}

/// The value of a decimal digit, or `None` of any other character.
pub open spec fn digit_value(c: char) -> Option<nat> {
    if '0' <= c <= '9' {
        Some((c as u32 - 48) as nat)
    } else {
        None
    }
}

/// The number a run of decimal digits spells, or `None` where the run is
/// empty or holds anything else.
pub open spec fn number(s: Seq<char>) -> Option<nat>
    decreases s.len(),
{
    if s.len() == 0 {
        None
    } else {
        match (digit_value(s.last()), number(s.drop_last())) {
            (None, _) => None,
            (Some(d), Some(n)) => Some((n * 10 + d) as nat),
            (Some(d), None) => if s.len() == 1 {
                Some(d)
            } else {
                None
            },
        }
    }
}

/// The number a run of decimal digits spells, where it is at most `u32::MAX`.
pub fn number_u32(s: &[char]) -> (r: Option<u32>)
    ensures
        r == match number(s@) {
            Some(n) => if n <= u32::MAX {
                Some(n as u32)
            } else {
                None
            },
            None => None::<u32>,
        },
{
    if s.len() == 0 {
        return None;
    }
    let mut value: u64 = 0;
    let mut over: bool = false;
    let mut i: usize = 0;
    while i < s.len()
        invariant
            i <= s.len(),
            s.len() > 0,
            value <= u32::MAX,
            i > 0 ==> number(s@.take(i as int)) is Some,
            i > 0 && !over ==> number(s@.take(i as int)) == Some(value as nat),
            i == 0 ==> value == 0 && !over,
            over ==> number(s@.take(i as int))->0 > u32::MAX,
        decreases s.len() - i,
    {
        let c = s[i];
        let ghost whole = s@.take(i + 1);
        proof {
            assert(whole.drop_last() =~= s@.take(i as int));
        }
        if !('0' <= c && c <= '9') {
            proof {
                assert(number(whole) is None);
                lemma_number_prefix(s@, i + 1);
            }
            return None;
        }
        let d: u64 = (c as u32 - 48) as u64;
        if !over {
            let next: u64 = value * 10 + d;
            if next > 4294967295 {
                over = true;
            } else {
                value = next;
            }
        }
        i += 1;
    }
    assert(s@.take(s@.len() as int) =~= s@);
    if over {
        None
    } else {
        Some(value as u32)
    }
}

/// A run with a prefix that spells no number spells none.
proof fn lemma_number_prefix(s: Seq<char>, i: int)
    requires
        0 < i <= s.len(),
        number(s.take(i)) is None,
    ensures
        number(s) is None,
    decreases s.len(),
{
    if i == s.len() {
        assert(s.take(i) =~= s);
    } else {
        assert(s.drop_last().take(i) =~= s.take(i));
        lemma_number_prefix(s.drop_last(), i);
    }
}

// ---------------------------------------------------------------------------
// Names for a reader and for a shell
// ---------------------------------------------------------------------------

/// The lower-case hexadecimal digit of a number below sixteen.
pub open spec fn hex_digit(d: int) -> char {
    if d < 10 {
        digit(d)
    } else if d == 10 {
        'a'
    } else if d == 11 {
        'b'
    } else if d == 12 {
        'c'
    } else if d == 13 {
        'd'
    } else if d == 14 {
        'e'
    } else {
        'f'
    }
}

fn hex_char(d: u64) -> (c: char)
    requires
        d < 16,
    ensures
        c == hex_digit(d as int),
{
    match d {
        10 => 'a',
        11 => 'b',
        12 => 'c',
        13 => 'd',
        14 => 'e',
        15 => 'f',
        _ => digit_char(d),
    }
}

/// The code point of a control character.
fn control_code(c: char) -> (r: u64)
    requires
        control(c),
    ensures
        r == c as int,
        r < 160,
{
    c as u64
}

/// How a character is shown: itself, or an escape where it is a control
/// character.
pub open spec fn shown(c: char) -> Seq<char> {
    if !control(c) {
        seq![c]
    } else if c == '\n' {
        "\\n"@
    } else if c == '\r' {
        "\\r"@
    } else if c == '\t' {
        "\\t"@
    } else if (c as u32) < 16 {
        "\\u{"@ + seq![hex_digit(c as int)] + "}"@
    } else {
        "\\u{"@ + seq![hex_digit(c as int / 16), hex_digit(c as int % 16)] + "}"@
    }
}

/// A text as it is shown: every control character as an escape.
pub open spec fn shown_text(s: Seq<char>) -> Seq<char>
    decreases s.len(),
{
    if s.len() == 0 {
        Seq::empty()
    } else {
        shown_text(s.drop_last()) + shown(s.last())
    }
}

/// A text made safe to show: every control character is written as an escape,
/// so that a name cannot move the cursor or start a line of its own.
pub fn display_safe(s: &str) -> (r: String)
    ensures
        r@ == shown_text(s@),
{
    let v = chars_of(s);
    let mut r = String::new();
    let mut i: usize = 0;
    while i < v.len()
        invariant
            i <= v.len(),
            v@ == s@,
            r@ == shown_text(v@.take(i as int)),
        decreases v.len() - i,
    {
        let c = v[i];
        assert(v@.take(i + 1).drop_last() =~= v@.take(i as int));
        let ghost before = r@;
        if !is_control(c) {
            r.push(c);
            assert(before.push(c) =~= before + seq![c]);
        } else if c == '\n' {
            r.append("\\n");
        } else if c == '\r' {
            r.append("\\r");
        } else if c == '\t' {
            r.append("\\t");
        } else {
            let code: u64 = control_code(c);
            r.append("\\u{");
            if code < 16 {
                r.push(hex_char(code));
                r.append("}");
                assert(r@ =~= before + ("\\u{"@ + seq![hex_digit(c as int)] + "}"@));
            } else {
                r.push(hex_char(code / 16));
                r.push(hex_char(code % 16));
                r.append("}");
                assert(r@ =~= before + ("\\u{"@ + seq![
                    hex_digit(c as int / 16),
                    hex_digit(c as int % 16),
                ] + "}"@));
            }
        }
        i += 1;
    }
    assert(v@.take(v@.len() as int) =~= s@);
    r
}

/// A text as one single-quoted shell word.
pub open spec fn shell_quoted(s: Seq<char>) -> Seq<char> {
    "'"@ + replaced(s, '\'', "'\\''"@) + "'"@
}

/// A text as one shell word: in single quotes, with a quote in it written as
/// a quote outside them.
pub fn shell_quote(s: &str) -> (r: String)
    ensures
        r@ == shell_quoted(s@),
{
    let v = chars_of(s);
    let mut r = String::new();
    r.append("'");
    let inner = replace(v.as_slice(), '\'', "'\\''");
    r.append(inner.as_str());
    r.append("'");
    assert(r@ =~= shell_quoted(s@));
    r
}

// ---------------------------------------------------------------------------
// Laws
// ---------------------------------------------------------------------------

/// Where a shell is in reading a word.
pub enum ShellState {
    /// Outside of quotes.
    Bare,
    /// Inside of single quotes.
    Quoted,
    /// Behind a backslash.
    Escaped,
    /// At a character that it would give a meaning of its own.
    Lost,
}

/// Where a shell is after one more character, and the word it has read.
pub open spec fn shell_step(at: (ShellState, Seq<char>), c: char) -> (ShellState, Seq<char>) {
    match at.0 {
        ShellState::Bare => if c == '\'' {
            (ShellState::Quoted, at.1)
        } else if c == '\\' {
            (ShellState::Escaped, at.1)
        } else {
            (ShellState::Lost, at.1)
        },
        ShellState::Quoted => if c == '\'' {
            (ShellState::Bare, at.1)
        } else {
            (ShellState::Quoted, at.1.push(c))
        },
        ShellState::Escaped => (ShellState::Bare, at.1.push(c)),
        ShellState::Lost => at,
    }
}

/// Where a shell is after reading a text, and the word it has read.
pub open spec fn shell_reading(s: Seq<char>) -> (ShellState, Seq<char>)
    decreases s.len(),
{
    if s.len() == 0 {
        (ShellState::Bare, Seq::empty())
    } else {
        shell_step(shell_reading(s.drop_last()), s.last())
    }
}

proof fn lemma_shell_step(s: Seq<char>, c: char)
    ensures
        shell_reading(s.push(c)) == shell_step(shell_reading(s), c),
{
    assert(s.push(c).drop_last() =~= s);
}

proof fn lemma_shell_quoted(s: Seq<char>)
    ensures
        shell_reading("'"@ + replaced(s, '\'', "'\\''"@)) == (ShellState::Quoted, s),
    decreases s.len(),
{
    reveal_strlit("'");
    reveal_strlit("'\\''");
    let quote = "'\\''"@;
    let start = "'"@;
    if s.len() == 0 {
        assert(start + replaced(s, '\'', quote) =~= Seq::<char>::empty().push('\''));
        lemma_shell_step(Seq::empty(), '\'');
        assert(s =~= Seq::<char>::empty());
    } else {
        let front = s.drop_last();
        lemma_shell_quoted(front);
        let read = start + replaced(front, '\'', quote);
        if s.last() == '\'' {
            assert(start + replaced(s, '\'', quote) =~= read.push('\'').push('\\').push(
                '\'',
            ).push('\''));
            lemma_shell_step(read, '\'');
            lemma_shell_step(read.push('\''), '\\');
            lemma_shell_step(read.push('\'').push('\\'), '\'');
            lemma_shell_step(read.push('\'').push('\\').push('\''), '\'');
        } else {
            assert(start + replaced(s, '\'', quote) =~= read.push(s.last()));
            lemma_shell_step(read, s.last());
        }
        assert(s =~= front.push(s.last()));
    }
}

/// A shell reads a quoted text as one word, which is the text: nothing in it
/// stands where the shell would give it a meaning.
pub proof fn law_a_quoted_text_is_one_word(s: Seq<char>)
    ensures
        shell_reading(shell_quoted(s)) == (ShellState::Bare, s),
{
    reveal_strlit("'");
    lemma_shell_quoted(s);
    let read = "'"@ + replaced(s, '\'', "'\\''"@);
    assert(shell_quoted(s) =~= read.push('\''));
    lemma_shell_step(read, '\'');
}

/// What is shown holds no control character, whatever the text holds.
pub proof fn law_what_is_shown_holds_no_control_character(s: Seq<char>)
    ensures
        !has_control(shown_text(s)),
    decreases s.len(),
{
    if s.len() > 0 {
        law_what_is_shown_holds_no_control_character(s.drop_last());
        reveal_strlit("\\n");
        reveal_strlit("\\r");
        reveal_strlit("\\t");
        reveal_strlit("\\u{");
        reveal_strlit("}");
        let front = shown_text(s.drop_last());
        let last = shown(s.last());
        assert forall|i: int| 0 <= i < last.len() implies !control(#[trigger] last[i]) by {}
        assert forall|i: int| 0 <= i < shown_text(s).len() implies !control(
            #[trigger] shown_text(s)[i],
        ) by {
            if i < front.len() {
                assert(shown_text(s)[i] == front[i]);
            } else {
                assert(shown_text(s)[i] == last[i - front.len()]);
            }
        }
    }
}

/// What a list holds once something is added at its end.
pub proof fn lemma_pushed<A>(front: Seq<A>, last: A, a: A)
    ensures
        front.push(last).contains(a) <==> front.contains(a) || a == last,
{
    let all = front.push(last);
    assert(all[all.len() - 1] == last);
    if front.contains(a) {
        let k = choose|k: int| 0 <= k < front.len() && front[k] == a;
        assert(all[k] == a);
    }
    if all.contains(a) {
        let k = choose|k: int| 0 <= k < all.len() && all[k] == a;
        if k < front.len() {
            assert(front[k] == a);
        }
    }
}

/// What two lists hold, one after the other.
pub proof fn lemma_either<A>(one: Seq<A>, other: Seq<A>, a: A)
    ensures
        (one + other).contains(a) <==> one.contains(a) || other.contains(a),
{
    let all = one + other;
    if one.contains(a) {
        let k = choose|k: int| 0 <= k < one.len() && one[k] == a;
        assert(all[k] == a);
    }
    if other.contains(a) {
        let k = choose|k: int| 0 <= k < other.len() && other[k] == a;
        assert(all[one.len() + k] == a);
    }
    if all.contains(a) {
        let k = choose|k: int| 0 <= k < all.len() && all[k] == a;
        if k < one.len() {
            assert(one[k] == a);
        } else {
            assert(other[k - one.len()] == a);
        }
    }
}

/// A number that is written in decimal reads back.
pub proof fn law_a_number_reads_back(n: nat)
    ensures
        number(decimal_text(n)) == Some(n),
    decreases n,
{
    let d = (n % 10) as int;
    assert(digit_value(digit(d)) == Some(d as nat));
    if n >= 10 {
        law_a_number_reads_back(n / 10);
        assert(decimal_text(n).drop_last() =~= decimal_text(n / 10));
        assert(decimal_text(n).last() == digit(d));
        assert(number(decimal_text(n).drop_last()) == Some(n / 10));
        assert((n / 10) * 10 + d == n);
    } else {
        assert(decimal_text(n).drop_last() =~= Seq::<char>::empty());
        assert(number(decimal_text(n).drop_last()) is None);
        assert(decimal_text(n).last() == digit(d));
    }
}

/// Control characters are those below the space, the one that deletes, and the
/// thirty-two behind it.
pub proof fn law_control_characters(c: char)
    ensures
        control(c) <==> (c as u32) < 0x20 || 0x7f <= (c as u32) < 0xa0,
{
}

/// White space is the space, what moves to another place or line, and the
/// spaces of other widths.
pub proof fn law_white_space(c: char)
    ensures
        whitespace(c) <==> {
            let n = c as u32;
            ||| n == 0x20 || 0x9 <= n <= 0xd || n == 0x85 || n == 0xa0 || n == 0x1680
            ||| 0x2000 <= n <= 0x200a || n == 0x2028 || n == 0x2029 || n == 0x202f
            ||| n == 0x205f || n == 0x3000
        },
{
}

/// No piece of a text holds the separator that it was split at.
pub proof fn lemma_segments_plain(s: Seq<char>, sep: char)
    ensures
        forall|i: int| 0 <= i < segments(s, sep).len() ==> !(#[trigger] segments(s, sep)[i]).contains(sep),
    decreases s.len(),
{
    let all = segments(s, sep);
    if s.len() == 0 {
        assert(all[0].len() == 0);
    } else {
        let front = segments(s.drop_last(), sep);
        lemma_segments_nonempty(s.drop_last(), sep);
        lemma_segments_plain(s.drop_last(), sep);
        assert forall|i: int| 0 <= i < all.len() implies !(#[trigger] all[i]).contains(sep) by {
            if s.last() == sep {
                if i < front.len() {
                    assert(all[i] == front[i]);
                } else {
                    assert(all[i].len() == 0);
                }
            } else if i < front.len() - 1 {
                assert(all[i] == front[i]);
            } else {
                assert(all[i] == front.last().push(s.last()));
                assert(!front[front.len() - 1].contains(sep));
                if all[i].contains(sep) {
                    let k = choose|k: int| 0 <= k < all[i].len() && all[i][k] == sep;
                    assert(front.last()[k] == sep);
                }
            }
        }
    }
}

/// Digits are the characters of their numbers: those from `0`, and from `a` on
/// for ten to fifteen.
pub proof fn law_digits_are_counted_from_zero(d: int)
    requires
        0 <= d < 16,
    ensures
        d < 10 ==> digit(d) as u32 == d + 0x30,
        d < 10 ==> hex_digit(d) as u32 == d + 0x30,
        d >= 10 ==> hex_digit(d) as u32 == d - 10 + 0x61,
{
}

/// A text is shown a character at a time. What is no control character is
/// shown as it is; line ends and tabs by their letters, and the others by their
/// numbers.
pub proof fn law_plain_text_is_shown_as_it_is(s: Seq<char>, c: char)
    ensures
        shown_text(s.push(c)) == shown_text(s) + shown_text(seq![c]),
        !has_control(s) ==> shown_text(s) == s,
        shown_text(seq!['\n']) == seq!['\\', 'n'],
        shown_text(seq!['\r']) == seq!['\\', 'r'],
        shown_text(seq!['\t']) == seq!['\\', 't'],
        control(c) && c != '\n' && c != '\r' && c != '\t' && (c as u32) < 16 ==> shown_text(seq![c])
            == seq!['\\', 'u', '{', hex_digit(c as int), '}'],
        control(c) && (c as u32) >= 16 ==> shown_text(seq![c]) == seq![
            '\\',
            'u',
            '{',
            hex_digit(c as int / 16),
            hex_digit(c as int % 16),
            '}',
        ],
    decreases s.len(),
{
    reveal_strlit("\\n");
    reveal_strlit("\\r");
    reveal_strlit("\\t");
    reveal_strlit("\\u{");
    reveal_strlit("}");
    lemma_one_shown(c);
    lemma_one_shown('\n');
    lemma_one_shown('\r');
    lemma_one_shown('\t');
    assert(s.push(c).drop_last() =~= s);
    assert(shown('\n') =~= seq!['\\', 'n']);
    assert(shown('\r') =~= seq!['\\', 'r']);
    assert(shown('\t') =~= seq!['\\', 't']);
    assert(control(c) && c != '\n' && c != '\r' && c != '\t' && (c as u32) < 16 ==> shown(c) =~= seq![
        '\\',
        'u',
        '{',
        hex_digit(c as int),
        '}',
    ]);
    assert(control(c) && (c as u32) >= 16 ==> shown(c) =~= seq![
        '\\',
        'u',
        '{',
        hex_digit(c as int / 16),
        hex_digit(c as int % 16),
        '}',
    ]);
    if s.len() > 0 && !has_control(s) {
        let front = s.drop_last();
        assert forall|i: int| 0 <= i < front.len() implies !control(#[trigger] front[i]) by {
            assert(front[i] == s[i]);
        }
        law_plain_text_is_shown_as_it_is(front, c);
        assert(!control(s[s.len() - 1]));
        assert(shown_text(s) =~= s);
    } else if s.len() == 0 {
        assert(shown_text(s) =~= s);
    }
}

proof fn lemma_one_shown(c: char)
    ensures
        shown_text(seq![c]) == shown(c),
{
    assert(seq![c].drop_last() =~= Seq::empty());
    assert(shown_text(seq![c].drop_last()) =~= Seq::empty());
    assert(shown_text(seq![c]) =~= shown(c));
}

/// White space is taken off both ends of a text and left within it; of a text
/// that is nothing else, nothing is left.
pub proof fn law_trimming_takes_white_space_off_the_ends(
    lead: Seq<char>,
    text: Seq<char>,
    tail: Seq<char>,
)
    requires
        forall|i: int| 0 <= i < lead.len() ==> whitespace(#[trigger] lead[i]),
        forall|i: int| 0 <= i < tail.len() ==> whitespace(#[trigger] tail[i]),
        text.len() > 0 ==> !whitespace(text[0]) && !whitespace(text.last()),
    ensures
        trimmed(lead + text + tail) == text,
        trimmed_end(lead + text + tail) == (if text.len() > 0 {
            lead + text
        } else {
            Seq::empty()
        }),
        trimmed_start(text + tail) == (if text.len() > 0 {
            text + tail
        } else {
            Seq::empty()
        }),
    decreases lead.len() + tail.len(),
{
    if tail.len() > 0 {
        let all = lead + text + tail;
        assert(all.last() == tail[tail.len() - 1]);
        assert(all.drop_last() =~= lead + text + tail.drop_last());
        law_trimming_takes_white_space_off_the_ends(lead, text, tail.drop_last());
        if text.len() == 0 {
            lemma_only_space(text + tail);
        } else {
            assert((text + tail)[0] == text[0]);
        }
    } else {
        assert(lead + text + tail =~= lead + text);
        assert(text + tail =~= text);
        if text.len() == 0 {
            assert(lead + text =~= lead);
            lemma_only_space(lead);
            assert(trimmed_start(text) =~= Seq::empty());
            assert(trimmed_start(Seq::<char>::empty()) =~= Seq::empty());
        } else {
            assert((lead + text).last() == text.last());
            lemma_lead_trimmed(lead, text);
        }
    }
}

proof fn lemma_only_space(s: Seq<char>)
    requires
        forall|i: int| 0 <= i < s.len() ==> whitespace(#[trigger] s[i]),
    ensures
        trimmed_end(s) == Seq::<char>::empty(),
        trimmed_start(s) == Seq::<char>::empty(),
    decreases s.len(),
{
    if s.len() > 0 {
        assert(whitespace(s[s.len() - 1]));
        assert forall|i: int| 0 <= i < s.drop_last().len() implies whitespace(
            #[trigger] s.drop_last()[i],
        ) by {
            assert(s.drop_last()[i] == s[i]);
        }
        assert forall|i: int| 0 <= i < s.skip(1).len() implies whitespace(
            #[trigger] s.skip(1)[i],
        ) by {
            assert(s.skip(1)[i] == s[i + 1]);
        }
        lemma_only_space(s.drop_last());
        lemma_only_space(s.skip(1));
    } else {
        assert(s =~= Seq::empty());
    }
}

proof fn lemma_lead_trimmed(lead: Seq<char>, text: Seq<char>)
    requires
        forall|i: int| 0 <= i < lead.len() ==> whitespace(#[trigger] lead[i]),
        text.len() > 0,
        !whitespace(text[0]),
    ensures
        trimmed_start(lead + text) == text,
    decreases lead.len(),
{
    if lead.len() > 0 {
        assert((lead + text)[0] == lead[0]);
        assert((lead + text).skip(1) =~= lead.skip(1) + text);
        assert forall|i: int| 0 <= i < lead.skip(1).len() implies whitespace(
            #[trigger] lead.skip(1)[i],
        ) by {
            assert(lead.skip(1)[i] == lead[i + 1]);
        }
        lemma_lead_trimmed(lead.skip(1), text);
    } else {
        assert(lead + text =~= text);
    }
}

/// A character is replaced wherever it stands, and every other is left.
pub proof fn law_every_occurrence_is_replaced(s: Seq<char>, last: char, c: char, with: Seq<char>)
    ensures
        replaced(Seq::empty(), c, with) == Seq::<char>::empty(),
        replaced(s.push(c), c, with) == replaced(s, c, with) + with,
        last != c ==> replaced(s.push(last), c, with) == replaced(s, c, with).push(last),
{
    assert(s.push(c).drop_last() =~= s);
    assert(s.push(last).drop_last() =~= s);
    if last != c {
        assert(replaced(s.push(last), c, with) =~= replaced(s, c, with).push(last));
    }
}

/// A line is what stands before its end, which is a line feed or a carriage
/// return and one; a last line needs none.
pub proof fn law_a_line_ends_at_its_line_feed(s: Seq<char>, line: Seq<char>)
    requires
        !line.contains('\n'),
        line.len() > 0 ==> line.last() != '\r',
        s.len() == 0 || s.last() == '\n',
    ensures
        line_texts(Seq::empty()) == Seq::<Seq<char>>::empty(),
        line_texts(s + line + seq!['\n']) == line_texts(s).push(line),
        line_texts(s + line + seq!['\r', '\n']) == line_texts(s).push(line),
        line.len() > 0 ==> line_texts(s + line) == line_texts(s).push(line),
{
    let none = Seq::<char>::empty();
    lemma_lines_before(s);
    assert(line_texts(none) =~= Seq::<Seq<char>>::empty());
    let returned = line.push('\r');
    assert(!returned.contains('\n')) by {
        if returned.contains('\n') {
            let i = choose|i: int| 0 <= i < returned.len() && returned[i] == '\n';
            assert(line[i] == '\n');
        }
    }
    lemma_line_behind(s, line);
    lemma_line_behind(s, returned);
    assert(s + line + seq!['\r', '\n'] =~= s + returned + seq!['\n']);
    assert(returned.drop_last() =~= line);
}

proof fn lemma_lines_before(s: Seq<char>)
    requires
        s.len() == 0 || s.last() == '\n',
    ensures
        segments(s, '\n').last().len() == 0,
{
    lemma_segments_nonempty(s, '\n');
}

proof fn lemma_line_behind(s: Seq<char>, line: Seq<char>)
    requires
        !line.contains('\n'),
        s.len() == 0 || s.last() == '\n',
    ensures
        line_texts(s + line + seq!['\n']) == line_texts(s).push(without_return(line)),
        line.len() > 0 ==> line_texts(s + line) == line_texts(s).push(line),
{
    let none = Seq::<char>::empty();
    lemma_lines_before(s);
    let parts = segments(s, '\n');
    lemma_segments_nonempty(s, '\n');
    if s.len() == 0 {
        assert(s + line =~= line);
        lemma_segments_single(line, '\n');
        assert(parts =~= seq![none]);
        assert(segments(s + line, '\n') =~= parts.drop_last().push(line));
    } else {
        let front = s.drop_last();
        assert(s + line =~= front + seq!['\n'] + line);
        lemma_segments_behind(front, '\n', line);
        assert(front + seq!['\n'] + none =~= s);
        lemma_segments_behind(front, '\n', none);
        assert(segments(s + line, '\n') =~= parts.drop_last().push(line));
    }
    assert(s + line + seq!['\n'] + none =~= s + line + seq!['\n']);
    lemma_segments_behind(s + line, '\n', none);
    assert(line_texts(s + line + seq!['\n']) =~= line_texts(s).push(without_return(line)));
    if line.len() > 0 {
        assert(line_texts(s + line) =~= line_texts(s).push(line));
    }
}

/// A text has a prefix exactly where it is that with something behind it, and
/// an end exactly where it is something with that behind it.
pub proof fn law_a_text_starts_with_its_prefix(s: Seq<char>, part: Seq<char>, rest: Seq<char>)
    ensures
        has_prefix(part + rest, part),
        has_suffix(rest + part, part),
        has_prefix(s, part) <==> exists|more: Seq<char>| s == #[trigger] (part + more),
        has_suffix(s, part) <==> exists|more: Seq<char>| s == #[trigger] (more + part),
{
    assert((part + rest).take(part.len() as int) =~= part);
    assert((rest + part).skip(rest.len() as int) =~= part);
    if has_prefix(s, part) {
        assert(s =~= part + s.skip(part.len() as int));
    }
    if exists|more: Seq<char>| s == #[trigger] (part + more) {
        let more = choose|more: Seq<char>| s == #[trigger] (part + more);
        assert((part + more).take(part.len() as int) =~= part);
    }
    if has_suffix(s, part) {
        assert(s =~= s.take(s.len() - part.len()) + part);
    }
    if exists|more: Seq<char>| s == #[trigger] (more + part) {
        let more = choose|more: Seq<char>| s == #[trigger] (more + part);
        assert((more + part).skip(more.len() as int) =~= part);
    }
}

/// A piece occurs in a text exactly where the text is that with something
/// before and behind it.
pub proof fn law_a_piece_occurs_between_the_rest(s: Seq<char>, pat: Seq<char>)
    ensures
        occurs(s, pat) <==> exists|a: Seq<char>, b: Seq<char>| s == #[trigger] (a + pat + b),
{
    if occurs(s, pat) {
        let i = choose|i: int| #[trigger] occurs_at(s, pat, i);
        assert(s =~= s.take(i) + pat + s.skip(i + pat.len()));
    }
    if exists|a: Seq<char>, b: Seq<char>| s == #[trigger] (a + pat + b) {
        let (a, b) = choose|a: Seq<char>, b: Seq<char>| s == #[trigger] (a + pat + b);
        let i = a.len() as int;
        assert(s.subrange(i, i + pat.len()) =~= pat);
        assert(occurs_at(s, pat, i));
    }
}

} // verus!
