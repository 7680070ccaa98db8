//! Ignore patterns, in the manner of gitignore: the last pattern that matches
//! a path decides, and a negation brings back what an earlier one left out.
use crate::globs::{
    always_compiles, below, compile_glob, ends_at, glob_error_words, glob_is_match, glob_literal, glob_matches,
    glob_text, is_within_limits, matches_as_written, special, within_limits,
};
use crate::text::{
    any_of, chars_of, has_any, has_prefix, joined, lemma_segments_joined, same_text, starts_with, string_of,
    strings,
};
use vstd::prelude::*;
use vstd::slice::slice_subrange;

verus! {

/// What an ignore pattern says.
pub struct PatternView {
    /// Whether it brings back what it matches.
    pub negated: bool,
    /// Whether it matches directories alone.
    pub directory_only: bool,
    /// The glob it matches by.
    pub glob: Seq<char>,
}

/// An ignore pattern taken apart.
#[derive(Debug)]
pub struct Parsed {
    /// Whether it brings back what it matches.
    pub negated: bool,
    /// Whether it matches directories alone.
    pub directory_only: bool,
    /// The glob it matches by.
    pub glob: String,
}

impl Parsed {
    /// What the pattern says.
    pub open spec fn view(&self) -> PatternView {
        PatternView {
            negated: self.negated,
            directory_only: self.directory_only,
            glob: self.glob@,
        }
    }
}

/// What a written pattern says: a leading `!` negates it and a trailing `/`
/// holds it to directories. What is left is anchored at the root where it
/// holds a separator (one at its start is only that), and matches at any depth
/// where it does not. A pattern with nothing left says nothing.
pub open spec fn pattern_of(text: Seq<char>) -> Option<PatternView> {
    let negated = text.len() > 0 && text[0] == '!';
    let body = if negated {
        text.skip(1)
    } else {
        text
    };
    let directory_only = body.len() > 0 && body.last() == '/';
    let core = if directory_only {
        body.drop_last()
    } else {
        body
    };
    let anchored = if core.len() > 0 && core[0] == '/' {
        core.skip(1)
    } else {
        core
    };
    if core.len() == 0 {
        None
    } else if !core.contains('/') {
        Some(PatternView { negated, directory_only, glob: "**/"@ + core })
    } else if anchored.len() == 0 {
        None
    } else {
        Some(PatternView { negated, directory_only, glob: anchored })
    }
}

/// Takes a written pattern apart.
pub fn parse_pattern(text: &str) -> (r: Option<Parsed>)
    ensures
        match r {
            Some(parsed) => pattern_of(text@) == Some(parsed.view()),
            None => pattern_of(text@) is None,
        },
{
    let all = chars_of(text);
    let negated = all.len() > 0 && all[0] == '!';
    let from: usize = if negated {
        1
    } else {
        0
    };
    let directory_only = all.len() > from && all[all.len() - 1] == '/';
    let to: usize = if directory_only {
        all.len() - 1
    } else {
        all.len()
    };
    let core = slice_subrange(all.as_slice(), from, to);
    let ghost body = if negated {
        text@.skip(1)
    } else {
        text@
    };
    assert(core@ =~= if directory_only {
        body.drop_last()
    } else {
        body
    });
    if core.len() == 0 {
        return None;
    }
    let slash: [char; 1] = ['/'];
    let separated = any_of(core, slash.as_slice());
    proof {
        assert(slash@ =~= seq!['/']);
        if core@.contains('/') {
            let k = choose|k: int| 0 <= k < core@.len() && core@[k] == '/';
            assert(slash@.contains(core@[k])) by {
                assert(slash@[0] == '/');
            }
        }
        if has_any(core@, slash@) {
            let k = choose|k: int| 0 <= k < core@.len() && slash@.contains(core@[k]);
            assert(core@[k] == '/');
        }
        assert(separated == core@.contains('/'));
    }
    if !separated {
        let mut glob = "**/".to_owned();
        let rest = string_of(core);
        glob.append(rest.as_str());
        return Some(Parsed { negated, directory_only, glob });
    }
    let skip: usize = if core[0] == '/' {
        1
    } else {
        0
    };
    let anchored = slice_subrange(core, skip, core.len());
    assert(anchored@ =~= if core@[0] == '/' {
        core@.skip(1)
    } else {
        core@
    });
    if anchored.len() == 0 {
        return None;
    }
    Some(Parsed { negated, directory_only, glob: string_of(anchored) })
}

/// A compiled ignore pattern.
pub struct Pattern {
    source: String,
    glob: String,
    matcher: globset::GlobSet,
    negated: bool,
    directory_only: bool,
}

impl Pattern {
    /// What the pattern says.
    pub closed spec fn view(&self) -> PatternView {
        PatternView {
            negated: self.negated,
            directory_only: self.directory_only,
            glob: self.glob@,
        }
    }

    /// The pattern as it was written.
    pub closed spec fn source(&self) -> Seq<char> {
        self.source@
    }

    /// Whether the pattern says what was written, and the matcher is its
    /// glob's.
    pub closed spec fn well_formed(&self) -> bool {
        &&& glob_text(self.matcher) == self.glob@
        &&& glob_literal(self.matcher)
        &&& matches_as_written(true, self.glob@)
        &&& pattern_of(self.source@) == Some(self.view())
    }

    /// What a well-formed pattern is: it says what was written, and its glob
    /// matches as a glob that compiles does.
    pub proof fn lemma_well_formed(&self)
        requires
            self.well_formed(),
        ensures
            pattern_of(self.source()) == Some(self.view()),
            matches_as_written(true, self.view().glob),
    {
    }

    /// Whether the glob matches a path.
    fn is_match(&self, path: &str) -> (r: bool)
        requires
            self.well_formed(),
        ensures
            r == glob_matches(true, self.view().glob, path@),
    {
        glob_is_match(&self.matcher, path)
    }
}

/// Why a pattern is refused.
#[derive(Debug)]
pub enum PatternError {
    /// Nothing is left of it to match.
    NoContent {
        /// The pattern.
        pattern: String,
    },
    /// It is too long or too deeply nested to be compiled.
    TooLarge {
        /// The pattern.
        pattern: String,
    },
    /// It does not compile.
    Invalid {
        /// The pattern.
        pattern: String,
        /// Why.
        cause: String,
    },
}

impl PatternError {
    /// The pattern that is refused.
    pub open spec fn pattern(&self) -> Seq<char> {
        match self {
            PatternError::NoContent { pattern } => pattern@,
            PatternError::TooLarge { pattern } => pattern@,
            PatternError::Invalid { pattern, .. } => pattern@,
        }
    }
}

/// Whether an error is the one for a pattern: there is nothing to match, or
/// its glob is too large, or it did not compile, which one that always
/// compiles does.
pub open spec fn refused_for(error: PatternError, pattern: Seq<char>) -> bool {
    &&& error.pattern() == pattern
    &&& match pattern_of(pattern) {
        None => error is NoContent,
        Some(view) => if !within_limits(view.glob) {
            error is TooLarge
        } else {
            error is Invalid && !always_compiles(view.glob)
        },
    }
}

/// Whether a pattern is one that always compiles.
pub open spec fn certain(pattern: Seq<char>) -> bool {
    pattern_of(pattern) matches Some(view) && within_limits(view.glob) && always_compiles(view.glob)
}

impl Pattern {
    /// The pattern of a text that was taken apart, given how compiling its
    /// glob came out.
    pub fn from_compiled(
        pattern: &str,
        parsed: Parsed,
        compiled: Result<globset::GlobSet, globset::Error>,
    ) -> (r: Result<Pattern, PatternError>)
        requires
            pattern_of(pattern@) == Some(parsed.view()),
            compiled matches Ok(set) ==> glob_text(set) == parsed.glob@ && glob_literal(set)
                && matches_as_written(true, parsed.glob@),
        ensures
            r is Ok <==> compiled is Ok,
            match r {
                Ok(found) => found.well_formed() && found.source() == pattern@ && found.view()
                    == parsed.view(),
                Err(error) => error is Invalid && error.pattern() == pattern@,
            },
    {
        match compiled {
            Ok(matcher) => Ok(
                Pattern {
                    source: pattern.to_owned(),
                    glob: parsed.glob,
                    matcher,
                    negated: parsed.negated,
                    directory_only: parsed.directory_only,
                },
            ),
            Err(error) => Err(
                PatternError::Invalid {
                    pattern: pattern.to_owned(),
                    cause: glob_error_words(&error),
                },
            ),
        }
    }

    /// Compiles a written pattern. One with nothing to match is refused, one
    /// whose glob is too large, and one whose glob does not compile. A path
    /// and an extension compile, at any depth or not.
    pub fn compile(pattern: &str) -> (r: Result<Pattern, PatternError>)
        ensures
            match r {
                Ok(compiled) => compiled.well_formed() && compiled.source() == pattern@
                    && pattern_of(pattern@) == Some(compiled.view()) && within_limits(
                    compiled.view().glob,
                ),
                Err(error) => refused_for(error, pattern@),
            },
    {
        let parsed = match parse_pattern(pattern) {
            Some(parsed) => parsed,
            None => {
                return Err(PatternError::NoContent { pattern: pattern.to_owned() });
            },
        };
        if !is_within_limits(parsed.glob.as_str()) {
            return Err(PatternError::TooLarge { pattern: pattern.to_owned() });
        }
        let compiled = compile_glob(parsed.glob.as_str(), true);
        Pattern::from_compiled(pattern, parsed, compiled)
    }
}

/// What patterns say.
pub open spec fn pattern_views(patterns: Seq<Pattern>) -> Seq<PatternView> {
    Seq::new(patterns.len(), |i: int| patterns[i].view())
}

/// Whether a pattern applies to a path.
pub open spec fn applies(pattern: PatternView, path: Seq<char>, is_directory: bool) -> bool {
    (is_directory || !pattern.directory_only) && glob_matches(true, pattern.glob, path)
}

/// What a pattern says of a path, given whether its glob matches.
pub open spec fn said(
    negated: bool,
    directory_only: bool,
    is_directory: bool,
    matched: bool,
) -> Option<bool> {
    if (is_directory || !directory_only) && matched {
        Some(!negated)
    } else {
        None
    }
}

/// What a pattern says of a path, given whether its glob matches: `Some` of
/// whether the path is ignored, or `None` where the pattern does not apply.
pub fn verdict(negated: bool, directory_only: bool, is_directory: bool, matched: bool) -> (r:
    Option<bool>)
    ensures
        r == said(negated, directory_only, is_directory, matched),
{
    if (is_directory || !directory_only) && matched {
        Some(!negated)
    } else {
        None
    }
}

/// The pattern that decides about a path: the last that applies to it.
pub open spec fn deciding(
    patterns: Seq<PatternView>,
    path: Seq<char>,
    is_directory: bool,
) -> Option<PatternView>
    decreases patterns.len(),
{
    if patterns.len() == 0 {
        None
    } else if applies(patterns.last(), path, is_directory) {
        Some(patterns.last())
    } else {
        deciding(patterns.drop_last(), path, is_directory)
    }
}

/// Whether patterns leave a path out.
pub open spec fn leaves_out(
    patterns: Seq<PatternView>,
    path: Seq<char>,
    is_directory: bool,
) -> bool {
    match deciding(patterns, path, is_directory) {
        Some(pattern) => !pattern.negated,
        None => false,
    }
}

/// Whether patterns bring a path back.
pub open spec fn brings_back(
    patterns: Seq<PatternView>,
    path: Seq<char>,
    is_directory: bool,
) -> bool {
    match deciding(patterns, path, is_directory) {
        Some(pattern) => pattern.negated,
        None => false,
    }
}

/// The wildcards that keep a pattern from naming one path.
pub open spec fn wildcards() -> Seq<char> {
    seq!['*', '?', '[']
}

fn wildcard_set() -> (r: [char; 3])
    ensures
        r@ == wildcards(),
{
    let r: [char; 3] = ['*', '?', '['];
    assert(r@ =~= wildcards());
    r
}

fn special_set() -> (r: [char; 6])
    ensures
        r@ == special(),
{
    let r: [char; 6] = ['*', '?', '[', '{', '}', '\\'];
    assert(r@ =~= special());
    r
}

/// Whether a glob matches at any depth.
fn is_any_depth(glob: &str) -> (r: bool)
    ensures
        r == any_depth(glob@),
{
    let all = chars_of(glob);
    let lead = chars_of("**/");
    starts_with(all.as_slice(), lead.as_slice())
}

/// The path a glob names at any depth: what follows a leading `**/`.
pub open spec fn named_path(glob: Seq<char>) -> Seq<char> {
    if has_prefix(glob, "**/"@) {
        glob.skip("**/"@.len() as int)
    } else {
        glob
    }
}

/// Whether a negation names one path, and that path lies below `directory`.
pub open spec fn opens(pattern: PatternView, directory: Seq<char>) -> bool {
    let path = named_path(pattern.glob);
    &&& pattern.negated
    &&& !has_any(path, wildcards())
    &&& directory.len() < path.len()
    &&& path.take(directory.len() as int) == directory
    &&& path[directory.len() as int] == '/'
}

/// Whether some negation names a path below `directory`.
pub open spec fn door(patterns: Seq<PatternView>, directory: Seq<char>) -> bool {
    exists|i: int| 0 <= i < patterns.len() && opens(#[trigger] patterns[i], directory)
}

/// A glob without its leading `**/`.
fn without_any_depth(glob: &str) -> (r: Vec<char>)
    ensures
        r@ == named_path(glob@),
{
    let all = chars_of(glob);
    let lead = chars_of("**/");
    if starts_with(all.as_slice(), lead.as_slice()) {
        let rest = vstd::slice::slice_to_vec(slice_subrange(all.as_slice(), lead.len(), all.len()));
        assert(rest@ =~= glob@.skip(lead@.len() as int));
        rest
    } else {
        all
    }
}

/// The patterns of a synchronized root.
pub struct IgnoreSet {
    patterns: Vec<Pattern>,
}

impl IgnoreSet {
    /// What the patterns say, in their order.
    pub closed spec fn view(&self) -> Seq<PatternView> {
        pattern_views(self.patterns@)
    }

    /// The patterns as they were written, in their order.
    pub closed spec fn sources(&self) -> Seq<Seq<char>> {
        Seq::new(self.patterns@.len(), |i: int| self.patterns@[i].source())
    }

    /// Whether every pattern says what was written and is compiled from its
    /// glob.
    pub closed spec fn well_formed(&self) -> bool {
        forall|i: int| 0 <= i < self.patterns@.len() ==> (#[trigger] self.patterns@[i]).well_formed()
    }

    /// What a well-formed set is: each pattern says what was written, and its
    /// glob matches as a glob that compiles does.
    pub proof fn lemma_well_formed(&self)
        requires
            self.well_formed(),
        ensures
            self.sources().len() == self.view().len(),
            forall|i: int|
                0 <= i < self.view().len() ==> pattern_of(#[trigger] self.sources()[i]) == Some(
                    self.view()[i],
                ),
            forall|i: int|
                0 <= i < self.view().len() ==> matches_as_written(
                    true,
                    (#[trigger] self.view()[i]).glob,
                ),
    {
        assert forall|i: int| 0 <= i < self.view().len() implies pattern_of(
            #[trigger] self.sources()[i],
        ) == Some(self.view()[i]) by {
            self.patterns@[i].lemma_well_formed();
        }
        assert forall|i: int| 0 <= i < self.view().len() implies matches_as_written(
            true,
            (#[trigger] self.view()[i]).glob,
        ) by {
            self.patterns@[i].lemma_well_formed();
        }
    }

    /// The set without patterns.
    pub fn empty() -> (set: IgnoreSet)
        ensures
            set.well_formed(),
            set.view() == Seq::<PatternView>::empty(),
            set.sources() == Seq::<Seq<char>>::empty(),
    {
        let set = IgnoreSet { patterns: Vec::new() };
        assert(set.view() =~= Seq::<PatternView>::empty());
        assert(set.sources() =~= Seq::<Seq<char>>::empty());
        set
    }

    /// Compiles patterns, in order. The first that does not compile is the
    /// error.
    pub fn new(patterns: &[String]) -> (r: Result<IgnoreSet, PatternError>)
        ensures
            (forall|i: int| 0 <= i < patterns@.len() ==> certain(#[trigger] patterns@[i]@))
                ==> r is Ok,
            match r {
                Ok(set) => {
                    &&& set.well_formed()
                    &&& set.sources() == strings(patterns@)
                    &&& set.view().len() == patterns@.len()
                    &&& forall|i: int|
                        0 <= i < patterns@.len() ==> pattern_of(#[trigger] patterns@[i]@) == Some(
                            set.view()[i],
                        ) && within_limits(set.view()[i].glob)
                },
                Err(error) => exists|i: int|
                    {
                        &&& 0 <= i < patterns@.len()
                        &&& refused_for(error, (#[trigger] patterns@[i])@)
                        &&& forall|k: int|
                            0 <= k < i ==> (pattern_of(#[trigger] patterns@[k]@) matches Some(view)
                                && within_limits(view.glob))
                    },
            },
    {
        let mut compiled: Vec<Pattern> = Vec::new();
        let mut i: usize = 0;
        while i < patterns.len()
            invariant
                i <= patterns.len(),
                compiled.len() == i,
                forall|k: int| 0 <= k < i ==> (#[trigger] compiled@[k]).well_formed(),
                forall|k: int| 0 <= k < i ==> (#[trigger] compiled@[k]).source() == patterns@[k]@,
                forall|k: int|
                    0 <= k < i ==> pattern_of(#[trigger] patterns@[k]@) == Some(
                        compiled@[k].view(),
                    ) && within_limits(compiled@[k].view().glob),
            decreases patterns.len() - i,
        {
            match Pattern::compile(patterns[i].as_str()) {
                Ok(pattern) => {
                    compiled.push(pattern);
                },
                Err(error) => {
                    assert(refused_for(error, patterns@[i as int]@));
                    assert(!certain(patterns@[i as int]@));
                    return Err(error);
                },
            }
            i += 1;
        }
        let set = IgnoreSet { patterns: compiled };
        assert(set.sources() =~= strings(patterns@));
        assert forall|k: int| 0 <= k < patterns@.len() implies pattern_of(#[trigger] patterns@[k]@)
            == Some(set.view()[k]) && within_limits(set.view()[k].glob) by {}
        Ok(set)
    }

    /// What the last pattern that applies says of a path.
    fn decide(&self, path: &str, is_directory: bool) -> (r: Option<bool>)
        requires
            self.well_formed(),
        ensures
            r == (match deciding(self.view(), path@, is_directory) {
                Some(pattern) => Some(!pattern.negated),
                None => None::<bool>,
            }),
    {
        let mut n: usize = self.patterns.len();
        let ghost all = self.view();
        assert(all.take(n as int) =~= all);
        while n > 0
            invariant
                n <= self.patterns@.len(),
                self.well_formed(),
                all == self.view(),
                deciding(all, path@, is_directory) == deciding(
                    all.take(n as int),
                    path@,
                    is_directory,
                ),
            decreases n,
        {
            let pattern = &self.patterns[n - 1];
            proof {
                assert(all.take(n as int).last() == pattern.view());
                assert(all.take(n as int).drop_last() =~= all.take(n - 1));
            }
            if is_directory || !pattern.directory_only {
                let matched = pattern.is_match(path);
                match verdict(pattern.negated, pattern.directory_only, is_directory, matched) {
                    Some(ignored) => {
                        return Some(ignored);
                    },
                    None => {},
                }
            }
            n -= 1;
        }
        None
    }

    /// Whether the patterns leave a path out: the last that applies to it is
    /// no negation.
    pub fn ignored(&self, path: &str, is_directory: bool) -> (r: bool)
        requires
            self.well_formed(),
        ensures
            r == leaves_out(self.view(), path@, is_directory),
    {
        match self.decide(path, is_directory) {
            Some(ignored) => ignored,
            None => false,
        }
    }

    /// Whether the patterns bring a path back: the last that applies to it is
    /// a negation.
    pub fn re_included(&self, path: &str, is_directory: bool) -> (r: bool)
        requires
            self.well_formed(),
        ensures
            r == brings_back(self.view(), path@, is_directory),
    {
        match self.decide(path, is_directory) {
            Some(ignored) => !ignored,
            None => false,
        }
    }

    /// Whether a negation names something below a directory, so that the walk
    /// has to enter it although it is ignored.
    pub fn holds_a_re_inclusion(&self, path: &str) -> (r: bool)
        ensures
            r == door(self.view(), path@),
    {
        let directory = chars_of(path);
        let set = wildcard_set();
        let mut i: usize = 0;
        while i < self.patterns.len()
            invariant
                i <= self.patterns@.len(),
                directory@ == path@,
                set@ == wildcards(),
                forall|k: int| 0 <= k < i ==> !opens(#[trigger] self.view()[k], path@),
            decreases self.patterns@.len() - i,
        {
            let pattern = &self.patterns[i];
            let named = without_any_depth(pattern.glob.as_str());
            assert(self.view()[i as int] == pattern.view());
            if pattern.negated && directory.len() < named.len() && !any_of(
                named.as_slice(),
                set.as_slice(),
            ) && named[directory.len()] == '/' {
                let head = slice_subrange(named.as_slice(), 0, directory.len());
                assert(head@ =~= named@.take(path@.len() as int));
                if crate::text::same(head, directory.as_slice()) {
                    assert(opens(self.view()[i as int], path@));
                    return true;
                }
            }
            i += 1;
        }
        false
    }

    /// Whether an entry is ignored, given whether it stands in an ignored
    /// directory that is walked for a re-inclusion: there it is, unless it is
    /// brought back.
    pub fn ignored_within(&self, path: &str, is_directory: bool, within_ignored: bool) -> (r: bool)
        requires
            self.well_formed(),
        ensures
            r == left_out_within(self.view(), path@, is_directory, within_ignored),
    {
        if within_ignored {
            !self.re_included(path, is_directory)
        } else {
            self.ignored(path, is_directory)
        }
    }

    /// What the walk does with an entry: `None` when it is left alone, or
    /// whether what it holds stands in an ignored region. An ignored directory
    /// is entered where a negation names something below it.
    pub fn traversal(&self, path: &str, is_directory: bool, within_ignored: bool) -> (r: Option<
        bool,
    >)
        requires
            self.well_formed(),
        ensures
            r == walked(self.view(), path@, is_directory, within_ignored),
    {
        let ignored = self.ignored_within(path, is_directory, within_ignored);
        if ignored && !(is_directory && self.holds_a_re_inclusion(path)) {
            None
        } else {
            Some(ignored)
        }
    }

    /// A text that tells sets with different patterns apart: the patterns as
    /// they were written, each on a line.
    pub fn key(&self) -> (r: String)
        ensures
            r@ == key_of(self.sources()),
    {
        let mut key = String::new();
        let ghost all = self.sources();
        let mut i: usize = 0;
        assert(key@ =~= key_of(all.take(0)));
        while i < self.patterns.len()
            invariant
                i <= self.patterns@.len(),
                all == self.sources(),
                key@ == key_of(all.take(i as int)),
            decreases self.patterns@.len() - i,
        {
            assert(all[i as int] == self.patterns@[i as int].source@);
            assert(all.take(i + 1).drop_last() =~= all.take(i as int));
            let line = on_one_line(self.patterns[i].source.as_str());
            key.append(line.as_str());
            key.append("\n");
            i += 1;
        }
        assert(all.take(all.len() as int) =~= all);
        key
    }
}

impl Default for IgnoreSet {
    fn default() -> (set: IgnoreSet)
        ensures
            set.well_formed(),
            set.view() == Seq::<PatternView>::empty(),
            set.sources() == Seq::<Seq<char>>::empty(),
    {
        IgnoreSet::empty()
    }
}

/// Whether patterns leave an entry out, given whether it stands in an ignored
/// region.
pub open spec fn left_out_within(
    patterns: Seq<PatternView>,
    path: Seq<char>,
    is_directory: bool,
    within_ignored: bool,
) -> bool {
    if within_ignored {
        !brings_back(patterns, path, is_directory)
    } else {
        leaves_out(patterns, path, is_directory)
    }
}

/// What the walk does with an entry.
pub open spec fn walked(
    patterns: Seq<PatternView>,
    path: Seq<char>,
    is_directory: bool,
    within_ignored: bool,
) -> Option<bool> {
    let ignored = left_out_within(patterns, path, is_directory, within_ignored);
    if ignored && !(is_directory && door(patterns, path)) {
        None
    } else {
        Some(ignored)
    }
}

/// A character as a key writes it: a line feed and a backslash after a
/// backslash.
pub open spec fn keyed(c: char) -> Seq<char> {
    if c == '\n' {
        seq!['\\', 'n']
    } else if c == '\\' {
        seq!['\\', '\\']
    } else {
        seq![c]
    }
}

/// A text as a key writes it, on one line.
pub open spec fn one_line(text: Seq<char>) -> Seq<char>
    decreases text.len(),
{
    if text.len() == 0 {
        Seq::empty()
    } else {
        keyed(text[0]) + one_line(text.skip(1))
    }
}

/// A text as a key writes it.
fn on_one_line(text: &str) -> (r: String)
    ensures
        r@ == one_line(text@),
{
    let all = chars_of(text);
    let mut r = String::new();
    let mut i: usize = 0;
    assert(all@.skip(0) =~= all@);
    assert(r@ + one_line(all@) =~= one_line(all@));
    while i < all.len()
        invariant
            i <= all.len(),
            r@ + one_line(all@.skip(i as int)) == one_line(all@),
        decreases all.len() - i,
    {
        let ghost start = r@;
        let c = all[i];
        if c == '\n' {
            r.push('\\');
            r.push('n');
        } else if c == '\\' {
            r.push('\\');
            r.push('\\');
        } else {
            r.push(c);
        }
        proof {
            let rest = all@.skip(i as int);
            assert(rest.skip(1) =~= all@.skip(i + 1));
            assert(r@ =~= start + keyed(c));
            assert(r@ + one_line(rest.skip(1)) =~= start + (keyed(c) + one_line(rest.skip(1))));
        }
        i += 1;
    }
    assert(r@ + one_line(all@.skip(all@.len() as int)) =~= r@);
    r
}

/// The key of a set of patterns, from how they were written.
pub open spec fn key_of(sources: Seq<Seq<char>>) -> Seq<char>
    decreases sources.len(),
{
    if sources.len() == 0 {
        Seq::empty()
    } else {
        key_of(sources.drop_last()) + one_line(sources.last()) + "\n"@
    }
}

proof fn lemma_one_line(text: Seq<char>)
    ensures
        !one_line(text).contains('\n'),
    decreases text.len(),
{
    if text.len() > 0 {
        lemma_one_line(text.skip(1));
        let (head, tail) = (keyed(text[0]), one_line(text.skip(1)));
        assert forall|i: int| 0 <= i < one_line(text).len() implies one_line(text)[i] != '\n' by {
            if i < head.len() {
                assert(one_line(text)[i] == head[i]);
            } else {
                assert(one_line(text)[i] == tail[i - head.len()]);
                assert(tail.contains(tail[i - head.len()]));
            }
        }
    }
}

proof fn lemma_one_line_apart(one: Seq<char>, other: Seq<char>)
    requires
        one_line(one) == one_line(other),
    ensures
        one == other,
    decreases one.len(),
{
    let (a, b) = (one_line(one), one_line(other));
    if one.len() == 0 {
        if other.len() > 0 {
            assert(b[0] == keyed(other[0])[0]);
        }
        assert(one =~= other);
    } else if other.len() == 0 {
        assert(a[0] == keyed(one[0])[0]);
    } else {
        let (x, y) = (keyed(one[0]), keyed(other[0]));
        assert(a[0] == x[0] && b[0] == y[0]);
        if x[0] == '\\' {
            assert(a[1] == x[1] && b[1] == y[1]);
        }
        assert(one[0] == other[0]);
        assert(one_line(one.skip(1)) =~= a.skip(x.len() as int));
        assert(one_line(other.skip(1)) =~= b.skip(y.len() as int));
        lemma_one_line_apart(one.skip(1), other.skip(1));
        assert(one =~= seq![one[0]] + one.skip(1));
        assert(other =~= seq![other[0]] + other.skip(1));
    }
}

/// The lines of a key.
spec fn key_lines(sources: Seq<Seq<char>>) -> Seq<Seq<char>> {
    Seq::new(sources.len(), |i: int| one_line(sources[i]))
}

proof fn lemma_key_lines(sources: Seq<Seq<char>>)
    requires
        sources.len() > 0,
    ensures
        key_of(sources) == joined(key_lines(sources), "\n"@) + "\n"@,
    decreases sources.len(),
{
    let lines = key_lines(sources);
    assert(lines.last() == one_line(sources.last()));
    if sources.len() == 1 {
        assert(sources.drop_last().len() == 0);
        assert(key_of(sources.drop_last()) == Seq::<char>::empty());
        assert(joined(lines, "\n"@) =~= one_line(sources[0]));
        assert(key_of(sources) =~= one_line(sources[0]) + "\n"@);
    } else {
        lemma_key_lines(sources.drop_last());
        assert(key_lines(sources.drop_last()) =~= lines.drop_last());
        assert(joined(lines, "\n"@) =~= joined(lines.drop_last(), "\n"@) + "\n"@ + lines.last());
        assert(key_of(sources) =~= joined(lines, "\n"@) + "\n"@);
    }
}

/// Two sets have one key exactly where they were made from the same patterns
/// in the same order.
pub proof fn law_a_key_tells_patterns_apart(one: Seq<Seq<char>>, other: Seq<Seq<char>>)
    ensures
        key_of(one) == key_of(other) <==> one == other,
{
    reveal_strlit("\n");
    assert("\n"@ =~= seq!['\n']);
    if key_of(one) == key_of(other) {
        let (a, b) = (key_lines(one), key_lines(other));
        if one.len() > 0 {
            lemma_key_lines(one);
            assert(key_of(one).len() > 0);
        }
        if other.len() > 0 {
            lemma_key_lines(other);
            assert(key_of(other).len() > 0);
        }
        if one.len() > 0 && other.len() > 0 {
            assert forall|i: int| 0 <= i < a.len() implies !(#[trigger] a[i]).contains('\n') by {
                lemma_one_line(one[i]);
            }
            assert forall|i: int| 0 <= i < b.len() implies !(#[trigger] b[i]).contains('\n') by {
                lemma_one_line(other[i]);
            }
            assert(joined(a, "\n"@) =~= key_of(one).drop_last());
            assert(joined(b, "\n"@) =~= key_of(other).drop_last());
            lemma_segments_joined(a, '\n');
            lemma_segments_joined(b, '\n');
            assert(a == b);
            assert(one.len() == a.len() && other.len() == b.len());
            assert forall|i: int| 0 <= i < one.len() implies one[i] == other[i] by {
                assert(a[i] == b[i]);
                lemma_one_line_apart(one[i], other[i]);
            }
        }
        assert(one =~= other);
    }
}

// ---------------------------------------------------------------------------
// Negations without effect
// ---------------------------------------------------------------------------

/// Whether a glob matches at any depth.
pub open spec fn any_depth(glob: Seq<char>) -> bool {
    has_prefix(glob, "**/"@)
}

/// Whether a pattern ignores again all that a glob without wildcards matches,
/// given the path that the glob names: it applies to whatever is there, and
/// where the glob matches at any depth, so does it, or it matches everything.
pub open spec fn undoes(later: PatternView, glob: Seq<char>, path: Seq<char>) -> bool {
    &&& !later.negated
    &&& !later.directory_only
    &&& any_depth(glob) ==> any_depth(later.glob) || later.glob == "**"@
    &&& glob_matches(true, later.glob, path)
}

/// The first pattern from `from` on that ignores again all that the negation
/// at `index` brings back.
pub open spec fn undone_by(
    patterns: Seq<PatternView>,
    index: int,
    path: Seq<char>,
    from: int,
) -> Option<PatternView>
    decreases patterns.len() - from,
{
    if from >= patterns.len() {
        None
    } else if undoes(patterns[from], patterns[index].glob, path) {
        Some(patterns[from])
    } else {
        undone_by(patterns, index, path, from + 1)
    }
}

/// What is said of the negation at `index`, where a later pattern undoes it.
pub open spec fn dead_at(patterns: Seq<PatternView>, index: int) -> Option<Seq<char>> {
    let pattern = patterns[index];
    let path = named_path(pattern.glob);
    if !pattern.negated || path.len() == 0 || has_any(path, special()) {
        None
    } else {
        match undone_by(patterns, index, path, index + 1) {
            Some(later) => Some(
                "!"@ + path + " can never take effect: "@ + later.glob
                    + " later ignores it again"@,
            ),
            None => None,
        }
    }
}

/// What is said of the negations among the first `n` patterns.
pub open spec fn dead_texts(patterns: Seq<PatternView>, n: int) -> Seq<Seq<char>>
    decreases n,
{
    if n <= 0 {
        Seq::empty()
    } else {
        match dead_at(patterns, n - 1) {
            Some(text) => dead_texts(patterns, n - 1).push(text),
            None => dead_texts(patterns, n - 1),
        }
    }
}

impl IgnoreSet {
    /// The negations that a later pattern undoes, each with what undoes it.
    pub fn dead_negations(&self) -> (dead: Vec<String>)
        requires
            self.well_formed(),
        ensures
            strings(dead@) == dead_texts(self.view(), self.view().len() as int),
    {
        let set = special_set();
        let ghost all = self.view();
        let mut dead: Vec<String> = Vec::new();
        let mut i: usize = 0;
        assert(strings(dead@) =~= dead_texts(all, 0));
        while i < self.patterns.len()
            invariant
                i <= self.patterns@.len(),
                self.well_formed(),
                all == self.view(),
                set@ == special(),
                strings(dead@) == dead_texts(all, i as int),
            decreases self.patterns@.len() - i,
        {
            let pattern = &self.patterns[i];
            let named = without_any_depth(pattern.glob.as_str());
            assert(all[i as int] == pattern.view());
            if pattern.negated && named.len() > 0 && !any_of(named.as_slice(), set.as_slice()) {
                let deep = is_any_depth(pattern.glob.as_str());
                let path = string_of(named.as_slice());
                let mut j: usize = i + 1;
                let mut found: Option<usize> = None;
                while j < self.patterns.len() && found.is_none()
                    invariant
                        i < j <= self.patterns@.len(),
                        self.well_formed(),
                        all == self.view(),
                        all[i as int] == pattern.view(),
                        deep == any_depth(pattern.view().glob),
                        found is None ==> undone_by(all, i as int, path@, i + 1) == undone_by(
                            all,
                            i as int,
                            path@,
                            j as int,
                        ),
                        found matches Some(k) ==> k < self.patterns@.len() && undone_by(
                            all,
                            i as int,
                            path@,
                            i + 1,
                        ) == Some(all[k as int]),
                    decreases self.patterns@.len() - j,
                {
                    let later = &self.patterns[j];
                    assert(all[j as int] == later.view());
                    if !later.negated && !later.directory_only && (!deep || is_any_depth(
                        later.glob.as_str(),
                    ) || same_text(later.glob.as_str(), "**")) && later.is_match(path.as_str()) {
                        found = Some(j);
                    }
                    j += 1;
                }
                if let Some(k) = found {
                    let ghost before = strings(dead@);
                    assert(all[k as int] == self.patterns@[k as int].view());
                    let mut text = "!".to_owned();
                    text.append(path.as_str());
                    text.append(" can never take effect: ");
                    text.append(self.patterns[k].glob.as_str());
                    text.append(" later ignores it again");
                    dead.push(text);
                    assert(strings(dead@) =~= before.push(text@));
                }
            }
            i += 1;
        }
        dead
    }
}

/// The first directory on the way to a path, at or after separator `from`,
/// that the walk does not enter, given whether the way so far lies in an
/// ignored region. A wildcard in a directory's name ends the search.
pub open spec fn pruned(
    patterns: Seq<PatternView>,
    path: Seq<char>,
    from: int,
    within: bool,
) -> Option<Seq<char>>
    decreases path.len() - from,
{
    if from >= path.len() || from < 0 {
        None
    } else if path[from] != '/' {
        pruned(patterns, path, from + 1, within)
    } else {
        let directory = path.take(from);
        let ignored = left_out_within(patterns, directory, true, within);
        if has_any(directory, wildcards()) {
            None
        } else if ignored && !door(patterns, directory) {
            Some(directory)
        } else {
            pruned(patterns, path, from + 1, ignored)
        }
    }
}

/// What is said of the negation at `index`, where the walk does not reach
/// what it names.
pub open spec fn ineffective_at(patterns: Seq<PatternView>, index: int) -> Option<Seq<char>> {
    let pattern = patterns[index];
    if !pattern.negated || !has_any(pattern.glob, wildcards()) {
        None
    } else {
        match pruned(patterns, pattern.glob, 0, false) {
            Some(directory) => Some(
                "!"@ + pattern.glob + " has no effect: "@ + directory
                    + " is ignored, and a negation with a wildcard does not open an ignored directory. Ignore its contents instead ("@
                    + directory + "/*), or name what to keep without a wildcard"@,
            ),
            None => None,
        }
    }
}

/// What is said of the negations among the first `n` patterns.
pub open spec fn ineffective_texts(patterns: Seq<PatternView>, n: int) -> Seq<Seq<char>>
    decreases n,
{
    if n <= 0 {
        Seq::empty()
    } else {
        match ineffective_at(patterns, n - 1) {
            Some(text) => ineffective_texts(patterns, n - 1).push(text),
            None => ineffective_texts(patterns, n - 1),
        }
    }
}

impl IgnoreSet {
    /// The first directory on the way to a path that the walk does not enter.
    fn pruned_ancestor(&self, path: &str) -> (r: Option<String>)
        requires
            self.well_formed(),
        ensures
            crate::text::optional(r) == pruned(self.view(), path@, 0, false),
    {
        let all = chars_of(path);
        let set = wildcard_set();
        let mut within: bool = false;
        let mut at: usize = 0;
        while at < all.len()
            invariant
                at <= all.len(),
                all@ == path@,
                set@ == wildcards(),
                self.well_formed(),
                pruned(self.view(), path@, 0, false) == pruned(
                    self.view(),
                    path@,
                    at as int,
                    within,
                ),
            decreases all.len() - at,
        {
            if all[at] == '/' {
                let head = slice_subrange(all.as_slice(), 0, at);
                assert(head@ =~= path@.take(at as int));
                if any_of(head, set.as_slice()) {
                    return None;
                }
                let directory = string_of(head);
                let ignored = self.ignored_within(directory.as_str(), true, within);
                if ignored && !self.holds_a_re_inclusion(directory.as_str()) {
                    return Some(directory);
                }
                within = ignored;
            }
            at += 1;
        }
        None
    }

    /// The negations with a wildcard below a directory that the walk does not
    /// enter, each with the directory.
    pub fn ineffective_negations(&self) -> (ineffective: Vec<String>)
        requires
            self.well_formed(),
        ensures
            strings(ineffective@) == ineffective_texts(self.view(), self.view().len() as int),
    {
        let set = wildcard_set();
        let ghost all = self.view();
        let mut ineffective: Vec<String> = Vec::new();
        let mut i: usize = 0;
        assert(strings(ineffective@) =~= ineffective_texts(all, 0));
        while i < self.patterns.len()
            invariant
                i <= self.patterns@.len(),
                self.well_formed(),
                all == self.view(),
                set@ == wildcards(),
                strings(ineffective@) == ineffective_texts(all, i as int),
            decreases self.patterns@.len() - i,
        {
            let pattern = &self.patterns[i];
            assert(all[i as int] == pattern.view());
            let glob = chars_of(pattern.glob.as_str());
            if pattern.negated && any_of(glob.as_slice(), set.as_slice()) {
                match self.pruned_ancestor(pattern.glob.as_str()) {
                    Some(directory) => {
                        let ghost before = strings(ineffective@);
                        let mut text = "!".to_owned();
                        text.append(pattern.glob.as_str());
                        text.append(" has no effect: ");
                        text.append(directory.as_str());
                        text.append(
                            " is ignored, and a negation with a wildcard does not open an ignored directory. Ignore its contents instead (",
                        );
                        text.append(directory.as_str());
                        text.append("/*), or name what to keep without a wildcard");
                        ineffective.push(text);
                        assert(strings(ineffective@) =~= before.push(text@));
                    },
                    None => {},
                }
            }
            i += 1;
        }
        ineffective
    }
}

/// A negation that is reported as dead decides nothing: about every path that
/// it matches, a later pattern does.
pub proof fn law_a_dead_negation_never_decides(
    set: IgnoreSet,
    index: int,
    path: Seq<char>,
    is_directory: bool,
)
    requires
        set.well_formed(),
        0 <= index < set.view().len(),
        dead_at(set.view(), index) is Some,
        glob_matches(true, set.view()[index].glob, path),
    ensures
        deciding(set.view(), path, is_directory) is Some,
        deciding(set.view(), path, is_directory) == deciding(
            set.view().skip(index + 1),
            path,
            is_directory,
        ),
{
    let patterns = set.view();
    set.lemma_well_formed();
    let glob = patterns[index].glob;
    let name = named_path(glob);
    assert(matches_as_written(true, patterns[index].glob));
    if any_depth(glob) {
        assert(ends_at(path, name));
    } else {
        assert(path == name);
    }
    lemma_undone(patterns, index, name, path, index + 1, is_directory);
}

proof fn lemma_undone(
    patterns: Seq<PatternView>,
    index: int,
    name: Seq<char>,
    path: Seq<char>,
    from: int,
    is_directory: bool,
)
    requires
        0 <= index < from <= patterns.len(),
        forall|i: int|
            0 <= i < patterns.len() ==> matches_as_written(true, (#[trigger] patterns[i]).glob),
        if any_depth(patterns[index].glob) {
            ends_at(path, name)
        } else {
            path == name
        },
        undone_by(patterns, index, name, from) is Some,
    ensures
        deciding(patterns, path, is_directory) is Some,
        deciding(patterns, path, is_directory) == deciding(
            patterns.skip(index + 1),
            path,
            is_directory,
        ),
    decreases patterns.len() - from,
{
    if undoes(patterns[from], patterns[index].glob, name) {
        assert(matches_as_written(true, patterns[from].glob));
        if path != name {
            let above = choose|above: Seq<char>| path == #[trigger] below(above, name);
            assert(glob_matches(true, patterns[from].glob, below(above, name)));
        }
        lemma_decided_late(patterns, index + 1, from, path, is_directory);
    } else {
        lemma_undone(patterns, index, name, path, from + 1, is_directory);
    }
}

/// Where a pattern at or after `from` applies, the patterns before `from` do
/// not matter.
proof fn lemma_decided_late(
    patterns: Seq<PatternView>,
    from: int,
    at: int,
    path: Seq<char>,
    is_directory: bool,
)
    requires
        0 <= from <= at < patterns.len(),
        applies(patterns[at], path, is_directory),
    ensures
        deciding(patterns, path, is_directory) is Some,
        deciding(patterns, path, is_directory) == deciding(
            patterns.skip(from),
            path,
            is_directory,
        ),
    decreases patterns.len(),
{
    let tail = patterns.skip(from);
    assert(tail.last() == patterns.last());
    if !applies(patterns.last(), path, is_directory) {
        lemma_decided_late(patterns.drop_last(), from, at, path, is_directory);
        assert(tail.drop_last() =~= patterns.drop_last().skip(from));
    }
}

// ---------------------------------------------------------------------------
// What patterns do
// ---------------------------------------------------------------------------

/// A pattern as it is written: with a `!` in front where it is negated, and a
/// `/` behind where it is held to directories.
pub open spec fn written(negated: bool, core: Seq<char>, directory_only: bool) -> Seq<char> {
    (if negated {
        seq!['!']
    } else {
        seq![]
    }) + core + (if directory_only {
        seq!['/']
    } else {
        seq![]
    })
}

/// Whether a text is what a pattern says besides its marks: it holds
/// something, and neither of its ends is a mark that is not written.
pub open spec fn markless(negated: bool, core: Seq<char>, directory_only: bool) -> bool {
    core.len() > 0 && (negated || core[0] != '!') && (directory_only || core.last() != '/')
}

/// A pattern without a separator matches at any depth, and one with a
/// separator is anchored at the root, where one separator in front is only
/// that. The marks of negation and of directories change nothing about it,
/// and are read off the text.
pub proof fn law_a_separator_anchors_a_pattern(
    negated: bool,
    core: Seq<char>,
    directory_only: bool,
)
    requires
        markless(negated, core, directory_only),
    ensures
        !core.contains('/') ==> pattern_of(written(negated, core, directory_only)) == Some(
            PatternView { negated, directory_only, glob: seq!['*', '*', '/'] + core },
        ),
        core.contains('/') && core[0] != '/' ==> pattern_of(
            written(negated, core, directory_only),
        ) == Some(PatternView { negated, directory_only, glob: core }),
        core[0] == '/' && core.len() > 1 ==> pattern_of(written(negated, core, directory_only))
            == Some(PatternView { negated, directory_only, glob: core.skip(1) }),
        core == seq!['/'] ==> pattern_of(written(negated, core, directory_only)) is None,
{
    reveal_strlit("**/");
    assert("**/"@ =~= seq!['*', '*', '/']);
    let text = written(negated, core, directory_only);
    let body = if negated {
        text.skip(1)
    } else {
        text
    };
    assert(negated == (text.len() > 0 && text[0] == '!'));
    assert(body =~= written(false, core, directory_only));
    assert(directory_only == (body.len() > 0 && body.last() == '/'));
    if directory_only {
        assert(body.drop_last() =~= core);
    } else {
        assert(body =~= core);
    }
    if core[0] == '/' {
        assert(core.contains('/'));
    }
    if core == seq!['/'] {
        assert(core.skip(1).len() == 0);
    }
}

/// Whether no character of a text means more than itself in a pattern.
pub open spec fn plain_names(core: Seq<char>) -> bool {
    forall|i: int|
        0 <= i < core.len() ==> {
            let c = #[trigger] core[i];
            c != '*' && c != '?' && c != '[' && c != '{' && c != '}' && c != '\\'
        }
}

/// A pattern of plain names with a separator leaves out the one path that it
/// names, and nothing below another directory; held to directories, it leaves
/// that path out only where it is one. Negated, it leaves nothing out.
pub proof fn law_an_anchored_pattern_names_one_path(
    set: IgnoreSet,
    negated: bool,
    core: Seq<char>,
    directory_only: bool,
    path: Seq<char>,
    is_directory: bool,
)
    requires
        set.well_formed(),
        set.sources() == seq![written(negated, core, directory_only)],
        markless(negated, core, directory_only),
        plain_names(core),
        core.contains('/'),
        core[0] != '/',
    ensures
        leaves_out(set.view(), path, is_directory) == (!negated && path == core && (is_directory
            || !directory_only)),
        brings_back(set.view(), path, is_directory) == (negated && path == core && (is_directory
            || !directory_only)),
{
    set.lemma_well_formed();
    law_a_separator_anchors_a_pattern(negated, core, directory_only);
    assert(set.sources()[0] == written(negated, core, directory_only));
    let v = set.view()[0];
    assert(v.glob == core);
    assert(!has_any(core, special()));
    assert(glob_matches(true, v.glob, path) == (path == core));
    assert(set.view().last() == v);
    assert(set.view().drop_last().len() == 0);
    assert(deciding(set.view().drop_last(), path, is_directory) is None);
}

/// A pattern that is one plain name leaves out whatever has that name, at any
/// depth; held to directories, only directories.
pub proof fn law_a_bare_name_matches_at_any_depth(
    set: IgnoreSet,
    negated: bool,
    core: Seq<char>,
    directory_only: bool,
    path: Seq<char>,
    is_directory: bool,
)
    requires
        set.well_formed(),
        set.sources() == seq![written(negated, core, directory_only)],
        markless(negated, core, directory_only),
        plain_names(core),
        !core.contains('/'),
        core != seq!['.', '.'],
    ensures
        ({
            let named = path == core || exists|above: Seq<char>|
                path == #[trigger] (above + seq!['/'] + core);
            &&& leaves_out(set.view(), path, is_directory) == (!negated && named && (is_directory
                || !directory_only))
            &&& brings_back(set.view(), path, is_directory) == (negated && named && (is_directory
                || !directory_only))
        }),
{
    set.lemma_well_formed();
    law_a_separator_anchors_a_pattern(negated, core, directory_only);
    assert(set.sources()[0] == written(negated, core, directory_only));
    reveal_strlit("**/");
    reveal_strlit("..");
    assert("**/"@ =~= seq!['*', '*', '/']);
    assert(".."@ =~= seq!['.', '.']);
    let v = set.view()[0];
    assert(v.glob == "**/"@ + core);
    assert(v.glob.skip(3) =~= core);
    assert(v.glob.take(3) =~= "**/"@);
    assert(!has_any(core, special()));
    assert(crate::globs::names_anywhere(v.glob));
    assert(glob_matches(true, v.glob, path) == ends_at(path, core));
    if exists|above: Seq<char>| path == #[trigger] (above + seq!['/'] + core) {
        let above = choose|above: Seq<char>| path == #[trigger] (above + seq!['/'] + core);
        assert(path == below(above, core));
    }
    if exists|above: Seq<char>| path == #[trigger] below(above, core) {
        let above = choose|above: Seq<char>| path == #[trigger] below(above, core);
        assert(path == above + seq!['/'] + core);
    }
    assert(set.view().last() == v);
    assert(set.view().drop_last().len() == 0);
    assert(deciding(set.view().drop_last(), path, is_directory) is None);
}

/// Where there are no patterns, nothing is left out. One more pattern at the
/// end changes what it matches and nothing else: that is left out, or, where
/// the pattern is a negation, brought back.
pub proof fn law_the_last_match_decides(
    patterns: Seq<PatternView>,
    last: PatternView,
    path: Seq<char>,
    is_directory: bool,
)
    ensures
        !leaves_out(Seq::empty(), path, is_directory),
        !brings_back(Seq::empty(), path, is_directory),
        ({
            let matched = glob_matches(true, last.glob, path) && (!last.directory_only
                || is_directory);
            let all = patterns.push(last);
            &&& matched ==> leaves_out(all, path, is_directory) == !last.negated
            &&& matched ==> brings_back(all, path, is_directory) == last.negated
            &&& !matched ==> leaves_out(all, path, is_directory) == leaves_out(
                patterns,
                path,
                is_directory,
            )
            &&& !matched ==> brings_back(all, path, is_directory) == brings_back(
                patterns,
                path,
                is_directory,
            )
        }),
{
    assert(patterns.push(last).drop_last() =~= patterns);
}

/// What a walk does with an entry. Outside ignored regions, what the patterns
/// do not leave out is walked, and not as part of one; inside, only what they
/// bring back is. Anything else is left alone, but for a directory below which
/// a negation names something: that one is walked, as an ignored region.
pub proof fn law_what_is_walked(
    patterns: Seq<PatternView>,
    path: Seq<char>,
    is_directory: bool,
    within: bool,
)
    ensures
        walked(patterns, path, is_directory, false) == Some(false) <==> !leaves_out(
            patterns,
            path,
            is_directory,
        ),
        walked(patterns, path, is_directory, true) == Some(false) <==> brings_back(
            patterns,
            path,
            is_directory,
        ),
        walked(patterns, path, is_directory, within) == Some(true) ==> is_directory && exists|
            i: int,
            rest: Seq<char>,
        |
            0 <= i < patterns.len() && patterns[i].negated && #[trigger] names_below(
                patterns[i].glob,
                path,
                rest,
            ),
{
    if walked(patterns, path, is_directory, within) == Some(true) {
        let i = choose|i: int| 0 <= i < patterns.len() && opens(#[trigger] patterns[i], path);
        let glob = patterns[i].glob;
        let name = named_path(glob);
        let rest = name.skip((path.len() + 1) as int);
        reveal_strlit("**/");
        assert("**/"@ =~= seq!['*', '*', '/']);
        assert(name =~= path + seq!['/'] + rest);
        if has_prefix(glob, "**/"@) {
            assert(glob =~= glob.take(3) + glob.skip(3));
            assert(glob =~= seq!['*', '*', '/'] + path + seq!['/'] + rest);
        }
        assert forall|k: int| 0 <= k < rest.len() implies !"*?["@.contains(#[trigger] rest[k]) by {
            reveal_strlit("*?[");
            assert("*?["@ =~= wildcards());
            assert(name[(path.len() + 1 + k) as int] == rest[k]);
        }
        assert(names_below(glob, path, rest));
    }
}

/// Whether a glob names, without wildcards from there on, something below a
/// directory: at the root, or at any depth.
pub open spec fn names_below(glob: Seq<char>, directory: Seq<char>, rest: Seq<char>) -> bool {
    &&& glob == directory + seq!['/'] + rest || glob == seq!['*', '*', '/'] + directory + seq!['/']
        + rest
    &&& forall|k: int| 0 <= k < rest.len() ==> !"*?["@.contains(#[trigger] rest[k])
}

/// A directory is walked, ignored or not, where a negation names something
/// below it without wildcards; and where it is ignored, so is what is in it,
/// unless it is brought back.
pub proof fn law_a_negation_opens_the_directories_above_it(
    patterns: Seq<PatternView>,
    directory: Seq<char>,
    within: bool,
    i: int,
    rest: Seq<char>,
)
    requires
        0 <= i < patterns.len(),
        patterns[i].negated,
        names_below(patterns[i].glob, directory, rest),
        directory.len() > 0,
        !directory.contains('*') && !directory.contains('?') && !directory.contains('['),
    ensures
        walked(patterns, directory, true, within) is Some,
        leaves_out(patterns, directory, true) ==> walked(patterns, directory, true, false) == Some(
            true,
        ),
{
    reveal_strlit("**/");
    reveal_strlit("*?[");
    assert("**/"@ =~= seq!['*', '*', '/']);
    assert("*?["@ =~= wildcards());
    let tail = directory + seq!['/'] + rest;
    let glob = patterns[i].glob;
    if glob == tail {
        assert(tail[0] == directory[0]);
        assert(directory.contains(directory[0]));
        if has_prefix(glob, "**/"@) {
            assert(glob.take(3)[0] == '*');
        }
    } else {
        assert(glob =~= seq!['*', '*', '/'] + tail);
        assert(glob.take(3) =~= "**/"@);
        assert(glob.skip(3) =~= tail);
    }
    assert(named_path(glob) == tail);
    if has_any(tail, wildcards()) {
        let k = choose|k: int| 0 <= k < tail.len() && wildcards().contains(tail[k]);
        if k < directory.len() {
            assert(directory.contains(tail[k]));
        } else if k > directory.len() {
            assert(rest[k - directory.len() - 1] == tail[k]);
        }
    }
    assert(tail.take(directory.len() as int) =~= directory);
    assert(opens(patterns[i], directory));
}

/// A pattern says something only of what it matches, and one for directories
/// only of directories: that it is ignored, or the opposite where the pattern
/// is negated.
pub proof fn law_a_pattern_speaks_of_what_it_matches(
    negated: bool,
    directory_only: bool,
    is_directory: bool,
    matched: bool,
)
    ensures
        said(negated, directory_only, is_directory, false) is None,
        said(negated, true, false, matched) is None,
        said(false, false, is_directory, true) == Some(true),
        said(true, false, is_directory, true) == Some(false),
        said(false, true, true, true) == Some(true),
        said(true, true, true, true) == Some(false),
{
}

proof fn lemma_undone_by(
    patterns: Seq<PatternView>,
    index: int,
    path: Seq<char>,
    from: int,
    j: int,
)
    requires
        0 <= from,
    ensures
        from <= j < patterns.len() && undoes(patterns[j], patterns[index].glob, path) ==> undone_by(
            patterns,
            index,
            path,
            from,
        ) is Some,
        undone_by(patterns, index, path, from) is Some ==> exists|k: int|
            from <= k < patterns.len() && undoes(#[trigger] patterns[k], patterns[index].glob, path),
    decreases patterns.len() - from,
{
    if from < patterns.len() && !undoes(patterns[from], patterns[index].glob, path) {
        lemma_undone_by(patterns, index, path, from + 1, j);
    }
}

/// A negation of a plain name is reported as dead exactly where a pattern
/// behind it leaves that name out again, of files and directories alike, and at
/// any depth where the negation is for any depth. No other pattern is.
pub proof fn law_a_negation_is_dead_where_its_name_is_left_out_again(
    patterns: Seq<PatternView>,
    index: int,
)
    requires
        0 <= index < patterns.len(),
    ensures
        ({
            let pattern = patterns[index];
            let deep = has_prefix(pattern.glob, seq!['*', '*', '/']);
            let name = if deep {
                pattern.glob.skip(3)
            } else {
                pattern.glob
            };
            dead_at(patterns, index) is Some <==> {
                &&& pattern.negated
                &&& name.len() > 0
                &&& !has_any(name, special())
                &&& exists|k: int|
                    index < k < patterns.len() && {
                        let later = #[trigger] patterns[k];
                        &&& !later.negated
                        &&& !later.directory_only
                        &&& glob_matches(true, later.glob, name)
                        &&& deep ==> has_prefix(later.glob, seq!['*', '*', '/']) || later.glob
                            == seq!['*', '*']
                    }
            }
        }),
{
    reveal_strlit("**/");
    reveal_strlit("**");
    assert("**/"@ =~= seq!['*', '*', '/']);
    assert("**"@ =~= seq!['*', '*']);
    let pattern = patterns[index];
    let name = named_path(pattern.glob);
    assert forall|k: int| index < k < patterns.len() implies (undoes(
        #[trigger] patterns[k],
        pattern.glob,
        name,
    ) ==> undone_by(patterns, index, name, index + 1) is Some) by {
        lemma_undone_by(patterns, index, name, index + 1, k);
    }
    lemma_undone_by(patterns, index, name, index + 1, 0);
}

/// Every dead negation has its text in the report, and nothing else has.
pub proof fn law_every_dead_negation_is_reported(
    patterns: Seq<PatternView>,
    n: int,
    text: Seq<char>,
)
    requires
        0 <= n <= patterns.len(),
    ensures
        dead_texts(patterns, n).contains(text) <==> exists|i: int|
            0 <= i < n && #[trigger] dead_at(patterns, i) == Some(text),
    decreases n,
{
    if n > 0 {
        law_every_dead_negation_is_reported(patterns, n - 1, text);
        if let Some(last) = dead_at(patterns, n - 1) {
            crate::text::lemma_pushed(dead_texts(patterns, n - 1), last, text);
        }
        if exists|i: int| 0 <= i < n - 1 && #[trigger] dead_at(patterns, i) == Some(text) {
            let i = choose|i: int| 0 <= i < n - 1 && #[trigger] dead_at(patterns, i) == Some(text);
            assert(dead_at(patterns, i) == Some(text));
        }
    }
}

/// Every ineffective negation has its text in the report, and nothing else has.
pub proof fn law_every_ineffective_negation_is_reported(
    patterns: Seq<PatternView>,
    n: int,
    text: Seq<char>,
)
    requires
        0 <= n <= patterns.len(),
    ensures
        ineffective_texts(patterns, n).contains(text) <==> exists|i: int|
            0 <= i < n && #[trigger] ineffective_at(patterns, i) == Some(text),
    decreases n,
{
    if n > 0 {
        law_every_ineffective_negation_is_reported(patterns, n - 1, text);
        if let Some(last) = ineffective_at(patterns, n - 1) {
            crate::text::lemma_pushed(ineffective_texts(patterns, n - 1), last, text);
        }
        if exists|i: int| 0 <= i < n - 1 && #[trigger] ineffective_at(patterns, i) == Some(text) {
            let i = choose|i: int|
                0 <= i < n - 1 && #[trigger] ineffective_at(patterns, i) == Some(text);
            assert(ineffective_at(patterns, i) == Some(text));
        }
    }
}

proof fn lemma_pruned(patterns: Seq<PatternView>, path: Seq<char>, from: int, within: bool)
    requires
        0 <= from,
    ensures
        pruned(patterns, path, from, within) matches Some(directory) ==> exists|k: int, inside: bool|
            from <= k < path.len() && path[k] == '/' && directory == path.take(k) && #[trigger]
            walked(patterns, path.take(k), true, inside) is None && !has_any(
                directory,
                wildcards(),
            ),
    decreases path.len() - from,
{
    if from < path.len() {
        let directory = path.take(from);
        let ignored = left_out_within(patterns, directory, true, within);
        if path[from] != '/' {
            lemma_pruned(patterns, path, from + 1, within);
        } else if !has_any(directory, wildcards()) && !(ignored && !door(patterns, directory)) {
            lemma_pruned(patterns, path, from + 1, ignored);
        } else if !has_any(directory, wildcards()) {
            assert(walked(patterns, path.take(from), true, within) is None);
        }
    }
}

proof fn lemma_first_directory(
    patterns: Seq<PatternView>,
    directory: Seq<char>,
    rest: Seq<char>,
    from: int,
)
    requires
        0 <= from <= directory.len(),
        !directory.contains('/'),
        !has_any(directory, wildcards()),
        walked(patterns, directory, true, false) is None,
    ensures
        pruned(patterns, directory + seq!['/'] + rest, from, false) == Some(directory),
    decreases directory.len() - from,
{
    let path = directory + seq!['/'] + rest;
    if from < directory.len() {
        assert(path[from] == directory[from]);
        assert(directory.contains(directory[from]));
        lemma_first_directory(patterns, directory, rest, from + 1);
    } else {
        assert(path[from] == '/');
        assert(path.take(from) =~= directory);
    }
}

/// A negation is reported as ineffective only where it has a wildcard and a
/// directory that it leads through is not walked; and it is where the first
/// directory on its way is one.
pub proof fn law_a_wildcard_opens_no_ignored_directory(
    patterns: Seq<PatternView>,
    index: int,
    directory: Seq<char>,
    rest: Seq<char>,
)
    requires
        0 <= index < patterns.len(),
    ensures
        ineffective_at(patterns, index) is Some ==> {
            let glob = patterns[index].glob;
            &&& patterns[index].negated
            &&& glob.contains('*') || glob.contains('?') || glob.contains('[')
            &&& exists|k: int, inside: bool|
                0 <= k < glob.len() && glob[k] == '/' && #[trigger] walked(
                    patterns,
                    glob.take(k),
                    true,
                    inside,
                ) is None
        },
        patterns[index].negated && patterns[index].glob == directory + seq!['/'] + rest && (
        rest.contains('*') || rest.contains('?') || rest.contains('[')) && !directory.contains('/')
            && !directory.contains('*') && !directory.contains('?') && !directory.contains('[')
            && walked(patterns, directory, true, false) is None ==> ineffective_at(patterns, index)
            is Some,
{
    let glob = patterns[index].glob;
    let marks = wildcards();
    assert(marks[0] == '*' && marks[1] == '?' && marks[2] == '[');
    assert(marks.contains('*') && marks.contains('?') && marks.contains('['));
    lemma_pruned(patterns, glob, 0, false);
    if has_any(glob, marks) {
        let i = choose|i: int| 0 <= i < glob.len() && marks.contains(#[trigger] glob[i]);
        let k = choose|k: int| 0 <= k < marks.len() && marks[k] == glob[i];
        assert(k == 0 || k == 1 || k == 2);
        assert(glob.contains(glob[i]));
    }
    if !directory.contains('*') && !directory.contains('?') && !directory.contains('[') {
        if has_any(directory, marks) {
            let i = choose|i: int|
                0 <= i < directory.len() && marks.contains(#[trigger] directory[i]);
            let k = choose|k: int| 0 <= k < marks.len() && marks[k] == directory[i];
            assert(k == 0 || k == 1 || k == 2);
            assert(directory.contains(directory[i]));
        }
        if !directory.contains('/') && walked(patterns, directory, true, false) is None {
            lemma_first_directory(patterns, directory, rest, 0);
        }
    }
    if glob == directory + seq!['/'] + rest && (rest.contains('*') || rest.contains('?')
        || rest.contains('[')) {
        let c = if rest.contains('*') {
            '*'
        } else if rest.contains('?') {
            '?'
        } else {
            '['
        };
        let i = choose|i: int| 0 <= i < rest.len() && rest[i] == c;
        assert(glob[directory.len() + 1 + i] == c);
        assert(marks.contains(glob[directory.len() + 1 + i]));
    }
}

} // verus!
