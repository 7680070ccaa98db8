//! Globs: compiling them and matching paths against them.
use crate::text::{chars_of, has_any, has_prefix, has_suffix};
use vstd::prelude::*;

verus! {

/// A compiled set of globs.
#[verifier::external_type_specification]
#[verifier::external_body]
pub struct ExGlobSet(globset::GlobSet);

/// What is wrong with a glob.
#[verifier::external_type_specification]
#[verifier::external_body]
pub struct ExGlobError(globset::Error);

/// The text of the one glob that a set was compiled from.
pub uninterp spec fn glob_text(set: globset::GlobSet) -> Seq<char>;

/// Whether wildcards of the one glob that a set was compiled from stop at
/// separators.
pub uninterp spec fn glob_literal(set: globset::GlobSet) -> bool;

/// Whether a glob matches a path.
pub uninterp spec fn glob_matches(literal: bool, glob: Seq<char>, path: Seq<char>) -> bool;

// ---------------------------------------------------------------------------
// Limits
// ---------------------------------------------------------------------------

/// The longest glob that is compiled, in characters: the states of the
/// automaton for a glob's literal end are numbered in 31 bits, and there is
/// one for each of its bytes.
pub const MAXIMUM_GLOB: usize = 500000000;

/// The deepest that alternatives are nested in a glob that is compiled. No
/// regular expression nested deeper than this is accepted, so that only a
/// glob whose innermost alternatives are all empty could be.
pub const MAXIMUM_NESTING: usize = 250;

/// Where the next character of a glob stands.
#[derive(Clone, Copy, Debug, PartialEq, Eq, Structural)]
pub enum Standing {
    /// Where it means what it means.
    Free,
    /// Behind a backslash.
    Escaped,
    /// Behind the bracket that opens a character class.
    ClassOpened,
    /// Behind the bracket and the mark that negates the class.
    ClassNegated,
    /// Further on in a character class.
    InClass,
}

/// Where the character after `c` stands.
pub open spec fn standing_after(standing: Standing, c: char) -> Standing {
    match standing {
        Standing::Free => if c == '[' {
            Standing::ClassOpened
        } else if c == '\\' {
            Standing::Escaped
        } else {
            Standing::Free
        },
        Standing::Escaped => Standing::Free,
        Standing::ClassOpened => if c == '!' || c == '^' {
            Standing::ClassNegated
        } else {
            Standing::InClass
        },
        Standing::ClassNegated => Standing::InClass,
        Standing::InClass => if c == ']' {
            Standing::Free
        } else {
            Standing::InClass
        },
    }
}

/// How braces stand after some characters of a glob.
pub struct Braces {
    /// How many are open.
    pub open: int,
    /// The most that were open at once.
    pub deepest: int,
    /// Where the next character stands.
    pub standing: Standing,
}

/// How braces stand after the first `n` characters. A brace counts where it is
/// one: not behind a backslash, and not in a character class.
pub open spec fn braces(glob: Seq<char>, n: int) -> Braces
    decreases n,
{
    if n <= 0 {
        Braces { open: 0, deepest: 0, standing: Standing::Free }
    } else {
        let b = braces(glob, n - 1);
        let c = glob[n - 1];
        let open = if b.standing == Standing::Free && c == '{' {
            b.open + 1
        } else if b.standing == Standing::Free && c == '}' && b.open > 0 {
            b.open - 1
        } else {
            b.open
        };
        Braces {
            open,
            deepest: if open > b.deepest {
                open
            } else {
                b.deepest
            },
            standing: standing_after(b.standing, c),
        }
    }
}

fn next_standing(standing: Standing, c: char) -> (r: Standing)
    ensures
        r == standing_after(standing, c),
{
    match standing {
        Standing::Free => if c == '[' {
            Standing::ClassOpened
        } else if c == '\\' {
            Standing::Escaped
        } else {
            Standing::Free
        },
        Standing::Escaped => Standing::Free,
        Standing::ClassOpened => if c == '!' || c == '^' {
            Standing::ClassNegated
        } else {
            Standing::InClass
        },
        Standing::ClassNegated => Standing::InClass,
        Standing::InClass => if c == ']' {
            Standing::Free
        } else {
            Standing::InClass
        },
    }
}

/// Whether a glob is short and flat enough to be compiled.
pub open spec fn within_limits(glob: Seq<char>) -> bool {
    glob.len() <= MAXIMUM_GLOB && braces(glob, glob.len() as int).deepest <= MAXIMUM_NESTING
}

/// Whether a glob is short and flat enough to be compiled.
pub fn is_within_limits(glob: &str) -> (r: bool)
    ensures
        r == within_limits(glob@),
{
    let all = chars_of(glob);
    if all.len() > MAXIMUM_GLOB {
        return false;
    }
    let mut open: usize = 0;
    let mut deepest: usize = 0;
    let mut standing = Standing::Free;
    let mut n: usize = 0;
    while n < all.len()
        invariant
            n <= all.len(),
            all@ == glob@,
            open <= n,
            deepest <= n,
            braces(glob@, n as int) == (Braces {
                open: open as int,
                deepest: deepest as int,
                standing,
            }),
        decreases all.len() - n,
    {
        let c = all[n];
        if standing == Standing::Free && c == '{' {
            open += 1;
            if open > deepest {
                deepest = open;
            }
        } else if standing == Standing::Free && c == '}' && open > 0 {
            open -= 1;
        }
        standing = next_standing(standing, c);
        n += 1;
    }
    deepest <= MAXIMUM_NESTING
}

// ---------------------------------------------------------------------------
// What is known of matching
// ---------------------------------------------------------------------------

/// The characters that mean more than themselves in a glob.
pub open spec fn special() -> Seq<char> {
    seq!['*', '?', '[', '{', '}', '\\']
}

/// Whether a path is another one, or leads to it below some directory.
pub open spec fn ends_at(path: Seq<char>, name: Seq<char>) -> bool {
    path == name || exists|above: Seq<char>| path == #[trigger] below(above, name)
}

/// A path below a directory.
pub open spec fn below(directory: Seq<char>, path: Seq<char>) -> Seq<char> {
    directory + seq!['/'] + path
}

/// Whether a glob is a path in which no character means more than itself.
pub open spec fn names_path(glob: Seq<char>) -> bool {
    glob.len() > 0 && !has_any(glob, special())
}

/// Whether a glob is such a path at any depth.
pub open spec fn names_anywhere(glob: Seq<char>) -> bool {
    has_prefix(glob, "**/"@) && names_path(glob.skip("**/"@.len() as int))
}

/// Whether a glob is an extension at any depth: `**/*.` and a name without
/// dots and separators.
pub open spec fn names_extension(glob: Seq<char>) -> bool {
    let name = glob.skip("**/*."@.len() as int);
    has_prefix(glob, "**/*."@) && names_path(name) && !name.contains('.') && !name.contains('/')
}

/// Whether a glob is one that is matched without an automaton, and so
/// compiles on every machine.
pub open spec fn always_compiles(glob: Seq<char>) -> bool {
    names_path(glob) || names_anywhere(glob) || names_extension(glob)
}

/// What holds of a glob that compiles. A path matches only itself; after
/// `**/`, only itself at some depth, where `..` matches nothing; an extension
/// matches what ends in it. `**` matches everything. A glob that starts with
/// `**/` matches at any depth: what it matches, it matches below every
/// directory.
pub open spec fn matches_as_written(literal: bool, glob: Seq<char>) -> bool {
    let name = glob.skip("**/"@.len() as int);
    &&& names_path(glob) ==> forall|path: Seq<char>| #[trigger]
        glob_matches(literal, glob, path) == (path == glob)
    &&& names_anywhere(glob) ==> forall|path: Seq<char>| #[trigger]
        glob_matches(literal, glob, path) == (ends_at(path, name) && name != ".."@)
    &&& names_extension(glob) ==> forall|path: Seq<char>| #[trigger]
        glob_matches(literal, glob, path) == has_suffix(path, glob.skip("**/*"@.len() as int))
    &&& glob == "**"@ ==> forall|path: Seq<char>| #[trigger] glob_matches(literal, glob, path)
    &&& has_prefix(glob, "**/"@) ==> forall|above: Seq<char>, path: Seq<char>|
        glob_matches(literal, glob, path) ==> #[trigger] glob_matches(
            literal,
            glob,
            below(above, path),
        )
}

/// `globset::GlobBuilder` with `literal_separator`, and `GlobSet::new` of the
/// one glob it builds. A glob that is matched without an automaton compiles;
/// whether another does is not stated, since a large one may be too large for
/// the machine. Where it succeeds, the set holds that glob, and the glob
/// matches as it is written.
#[verifier::external_body]
pub(crate) fn compile_glob(glob: &str, literal: bool) -> (r: Result<
    globset::GlobSet,
    globset::Error,
>)
    requires
        within_limits(glob@),
    ensures
        always_compiles(glob@) ==> r is Ok,
        r matches Ok(set) ==> glob_text(set) == glob@ && glob_literal(set) == literal,
        r is Ok ==> matches_as_written(literal, glob@),
{
    globset::GlobSet::new([globset::GlobBuilder::new(glob).literal_separator(literal).build()?])
}

/// `globset::GlobSet::is_match`: whether the set's glob matches the path, by
/// the glob and the path alone. Beyond what is known where the glob compiled,
/// which paths a glob matches is not stated.
#[verifier::external_body]
pub(crate) fn glob_is_match(set: &globset::GlobSet, path: &str) -> (r: bool)
    ensures
        r == glob_matches(glob_literal(*set), glob_text(*set), path@),
{
    set.is_match(path)
}

/// The words of a `globset::Error`, by its `Display`. Nothing is stated of
/// them.
#[verifier::external_body]
pub(crate) fn glob_error_words(error: &globset::Error) -> (r: String)
{
    error.to_string()
}

} // verus!
