//! Ignore files: where one is looked for, and the patterns it holds.
use crate::order::{sort_texts, sorted};
use crate::paths::{join_path, path_below};
use crate::text::{
    chars_of, index_of, line_texts, lines, string_of, strings, texts, trim_end, trim_start, trimmed,
    trimmed_end, trimmed_start, whitespace,
};
use vstd::prelude::*;

verus! {

/// The pattern on a line: without the white space around it. A line with
/// nothing on it, and one that starts with `#`, holds none.
pub open spec fn line_pattern(line: Seq<char>) -> Option<Seq<char>> {
    let text = trimmed(line);
    if text.len() == 0 || text[0] == '#' {
        None
    } else {
        Some(text)
    }
}

/// The patterns on the first `n` lines.
pub open spec fn patterns_on(all: Seq<Seq<char>>, n: int) -> Seq<Seq<char>>
    decreases n,
{
    if n <= 0 {
        Seq::empty()
    } else {
        match line_pattern(all[n - 1]) {
            Some(pattern) => patterns_on(all, n - 1).push(pattern),
            None => patterns_on(all, n - 1),
        }
    }
}

/// The patterns of an ignore file, one from each line that holds one.
pub fn parse(text: &str) -> (r: Vec<String>)
    ensures
        strings(r@) == patterns_on(line_texts(text@), line_texts(text@).len() as int),
{
    let all = lines(chars_of(text).as_slice());
    let ghost views = line_texts(text@);
    let mut r: Vec<String> = Vec::new();
    let mut i: usize = 0;
    assert(strings(r@) =~= patterns_on(views, 0));
    assert(all@.len() == views.len()) by {
        assert(texts(all@).len() == all@.len());
    }
    while i < all.len()
        invariant
            i <= all@.len(),
            texts(all@) == views,
            strings(r@) == patterns_on(views, i as int),
        decreases all@.len() - i,
    {
        assert(views[i as int] == all@[i as int]@);
        let pattern = trim_start(trim_end(all[i].as_slice()));
        if pattern.len() > 0 && pattern[0] != '#' {
            let ghost before = strings(r@);
            let kept = string_of(pattern);
            r.push(kept);
            assert(strings(r@) =~= before.push(pattern@));
        }
        i += 1;
    }
    r
}

/// Where an entry says an ignore file is.
#[derive(Clone, Copy, Debug, PartialEq, Eq)]
pub enum Location {
    /// Nowhere: the entry is empty.
    Nowhere,
    /// In the directory of ignore files, under the entry's name.
    Named,
    /// At the path the entry gives.
    Path,
}

/// Where an entry says an ignore file is: at a path where it starts with `~`
/// or holds a separator, and in the directory of ignore files otherwise.
pub fn location(entry: &str) -> (r: Location)
    ensures
        r == (if trimmed(entry@).len() == 0 {
            Location::Nowhere
        } else if entry@[0] == '~' || entry@.contains('/') {
            Location::Path
        } else {
            Location::Named
        }),
{
    let all = chars_of(entry);
    let bare = trim_start(trim_end(all.as_slice()));
    if bare.len() == 0 {
        return Location::Nowhere;
    }
    proof {
        lemma_trimmed_shorter(entry@);
        crate::text::lemma_first_index(all@, '/');
    }
    if all[0] == '~' || index_of(all.as_slice(), '/') < all.len() {
        Location::Path
    } else {
        Location::Named
    }
}

proof fn lemma_trimmed_end_shorter(s: Seq<char>)
    ensures
        trimmed_end(s).len() <= s.len(),
    decreases s.len(),
{
    if s.len() > 0 && whitespace(s.last()) {
        lemma_trimmed_end_shorter(s.drop_last());
    }
}

proof fn lemma_trimmed_start_shorter(s: Seq<char>)
    ensures
        trimmed_start(s).len() <= s.len(),
    decreases s.len(),
{
    if s.len() > 0 && whitespace(s[0]) {
        lemma_trimmed_start_shorter(s.skip(1));
    }
}

/// Trimming makes nothing longer.
proof fn lemma_trimmed_shorter(s: Seq<char>)
    ensures
        trimmed(s).len() <= s.len(),
{
    lemma_trimmed_end_shorter(s);
    lemma_trimmed_start_shorter(trimmed_end(s));
}

/// Why an ignore file is not found.
#[derive(Debug)]
pub enum LocateError {
    /// The entry is empty.
    Empty,
    /// The directory holds no file of that name.
    Unnamed {
        /// The entry.
        entry: String,
        /// The names the directory holds.
        available: Vec<String>,
    },
    /// The entry's `~` cannot be expanded.
    Unexpandable {
        /// The entry.
        entry: String,
    },
    /// The path is relative.
    Relative {
        /// The entry.
        entry: String,
    },
    /// No file is at the path.
    Missing {
        /// The path.
        path: String,
    },
}

/// The path of an ignore file, from what was found of it: for a name, whether
/// the directory holds such a file and what it holds; for a path, what the
/// entry expands to (`None` where it cannot be expanded) and whether a file is
/// there. A path has to be absolute, since it is not read where it was
/// written.
pub fn locate(
    directory: &str,
    entry: &str,
    named_is_file: bool,
    available: Vec<String>,
    expanded: Option<String>,
    expanded_is_file: bool,
) -> (r: Result<String, LocateError>)
    ensures
        trimmed(entry@).len() == 0 ==> r matches Err(LocateError::Empty),
        trimmed(entry@).len() > 0 && !(entry@[0] == '~' || entry@.contains('/')) ==> (
        if named_is_file {
            r matches Ok(path) && path@ == path_below(directory@, entry@)
        } else {
            r matches Err(LocateError::Unnamed { entry: e, available: a }) && e@ == entry@ && a
                == available
        }),
        trimmed(entry@).len() > 0 && (entry@[0] == '~' || entry@.contains('/')) ==> (
        match expanded {
            None => r matches Err(LocateError::Unexpandable { entry: e }) && e@ == entry@,
            Some(path) => if !(path@.len() > 0 && path@[0] == '/') {
                r matches Err(LocateError::Relative { entry: e }) && e@ == entry@
            } else if !expanded_is_file {
                r matches Err(LocateError::Missing { path: p }) && p@ == path@
            } else {
                r matches Ok(p) && p@ == path@
            },
        }),
{
    match location(entry) {
        Location::Nowhere => Err(LocateError::Empty),
        Location::Named => {
            if named_is_file {
                Ok(join_path(directory, entry))
            } else {
                Err(LocateError::Unnamed { entry: entry.to_owned(), available })
            }
        },
        Location::Path => match expanded {
            None => Err(LocateError::Unexpandable { entry: entry.to_owned() }),
            Some(path) => {
                let all = chars_of(path.as_str());
                if !(all.len() > 0 && all[0] == '/') {
                    Err(LocateError::Relative { entry: entry.to_owned() })
                } else if !expanded_is_file {
                    Err(LocateError::Missing { path })
                } else {
                    Ok(path)
                }
            },
        },
    }
}

/// Those of the first `n` names that are not hidden.
pub open spec fn visible(names: Seq<Seq<char>>, n: int) -> Seq<Seq<char>>
    decreases n,
{
    if n <= 0 {
        Seq::empty()
    } else if names[n - 1].len() > 0 && names[n - 1][0] == '.' {
        visible(names, n - 1)
    } else {
        visible(names, n - 1).push(names[n - 1])
    }
}

/// The names of the ignore files among the names of a directory's files:
/// those that are not hidden, in order.
pub fn list(names: &[String]) -> (r: Vec<String>)
    ensures
        strings(r@) == sorted(visible(strings(names@), names@.len() as int)),
{
    let ghost all = strings(names@);
    let mut kept: Vec<String> = Vec::new();
    let mut i: usize = 0;
    assert(strings(kept@) =~= visible(all, 0));
    while i < names.len()
        invariant
            i <= names@.len(),
            all == strings(names@),
            strings(kept@) == visible(all, i as int),
        decreases names@.len() - i,
    {
        let name = chars_of(names[i].as_str());
        if !(name.len() > 0 && name[0] == '.') {
            let ghost before = strings(kept@);
            kept.push(names[i].clone());
            assert(strings(kept@) =~= before.push(names@[i as int]@));
        }
        i += 1;
    }
    sort_texts(kept.as_slice())
}

/// A line holds the pattern that is on it, whatever white space is around it.
/// A line that is empty or white, or whose first mark is `#`, holds none.
pub proof fn law_a_line_holds_its_pattern(a: Seq<char>, pattern: Seq<char>, b: Seq<char>)
    requires
        forall|i: int| 0 <= i < a.len() ==> whitespace(#[trigger] a[i]),
        forall|i: int| 0 <= i < b.len() ==> whitespace(#[trigger] b[i]),
        pattern.len() > 0 ==> !whitespace(pattern[0]) && !whitespace(pattern.last()),
    ensures
        pattern.len() == 0 || pattern[0] == '#' ==> line_pattern(a + pattern + b) is None,
        pattern.len() > 0 && pattern[0] != '#' ==> line_pattern(a + pattern + b) == Some(pattern),
{
    lemma_trimmed_white_end(a + pattern, b);
    if pattern.len() > 0 {
        assert((a + pattern).last() == pattern.last());
        assert(trimmed_end(a + pattern) == a + pattern);
        lemma_trimmed_white_start(a, pattern);
    } else {
        assert(a + pattern =~= Seq::<char>::empty() + a);
        lemma_trimmed_white_end(Seq::<char>::empty(), a);
        assert(trimmed_end(Seq::<char>::empty()) =~= Seq::<char>::empty());
    }
}

proof fn lemma_trimmed_white_end(s: Seq<char>, b: Seq<char>)
    requires
        forall|i: int| 0 <= i < b.len() ==> whitespace(#[trigger] b[i]),
    ensures
        trimmed_end(s + b) == trimmed_end(s),
    decreases b.len(),
{
    if b.len() > 0 {
        assert(whitespace(b[b.len() - 1]));
        assert((s + b).drop_last() =~= s + b.drop_last());
        lemma_trimmed_white_end(s, b.drop_last());
    } else {
        assert(s + b =~= s);
    }
}

proof fn lemma_trimmed_white_start(a: Seq<char>, s: Seq<char>)
    requires
        forall|i: int| 0 <= i < a.len() ==> whitespace(#[trigger] a[i]),
        s.len() > 0,
        !whitespace(s[0]),
    ensures
        trimmed_start(a + s) == s,
    decreases a.len(),
{
    if a.len() > 0 {
        assert((a + s)[0] == a[0]);
        assert((a + s).skip(1) =~= a.skip(1) + s);
        lemma_trimmed_white_start(a.skip(1), s);
    } else {
        assert(a + s =~= s);
    }
}

/// The patterns of a file are those of its lines, in order: one more line
/// gives its pattern behind the others, or nothing.
pub proof fn law_every_line_is_read(all: Seq<Seq<char>>, n: int)
    requires
        0 <= n < all.len(),
    ensures
        patterns_on(all, 0).len() == 0,
        patterns_on(all, n + 1) == (match line_pattern(all[n]) {
            Some(pattern) => patterns_on(all, n) + seq![pattern],
            None => patterns_on(all, n),
        }),
{
    if let Some(pattern) = line_pattern(all[n]) {
        assert(patterns_on(all, n).push(pattern) =~= patterns_on(all, n) + seq![pattern]);
    }
}

/// An ignore file is listed exactly where its name does not start with a dot.
pub proof fn law_hidden_files_are_not_listed(names: Seq<Seq<char>>, n: int, name: Seq<char>)
    requires
        0 <= n <= names.len(),
    ensures
        visible(names, n).contains(name) <==> !(name.len() > 0 && name[0] == '.') && exists|i: int|
            0 <= i < n && #[trigger] names[i] == name,
    decreases n,
{
    if n > 0 {
        law_hidden_files_are_not_listed(names, n - 1, name);
        let front = visible(names, n - 1);
        let all = visible(names, n);
        if all != front {
            assert(all[all.len() - 1] == names[n - 1]);
            if front.contains(name) {
                let k = choose|k: int| 0 <= k < front.len() && front[k] == name;
                assert(all[k] == name);
            }
            if all.contains(name) {
                let k = choose|k: int| 0 <= k < all.len() && all[k] == name;
                if k < front.len() {
                    assert(front[k] == name);
                }
            }
        }
    }
}

} // verus!
