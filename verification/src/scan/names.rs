//! Names and link targets: which ones are autobahn's own, and which ones
//! another machine can follow.
use crate::text::{chars_of, has_prefix, index_of, same, segments, split, starts_with, texts};
use vstd::prelude::*;
use vstd::slice::slice_subrange;

verus! {

/// Whether a text is one or more decimal digits.
pub open spec fn numeric(s: Seq<char>) -> bool {
    s.len() > 0 && forall|k: int| 0 <= k < s.len() ==> '0' <= #[trigger] s[k] <= '9'
}

/// Whether a text is one or more lower-case ASCII letters.
pub open spec fn lowercase_word(s: Seq<char>) -> bool {
    s.len() > 0 && forall|k: int| 0 <= k < s.len() ==> 'a' <= #[trigger] s[k] <= 'z'
}

/// Whether a text is one or more lower-case ASCII letters and digits.
pub open spec fn identifier_word(s: Seq<char>) -> bool {
    s.len() > 0 && forall|k: int|
        0 <= k < s.len() ==> ('a' <= #[trigger] s[k] <= 'z' || '0' <= s[k] <= '9')
}

/// Whether what stands between dashes is `staging`, a session and a side: the
/// name of a staging directory.
pub open spec fn staging_name(parts: Seq<Seq<char>>) -> bool {
    &&& parts.len() == 3
    &&& parts[0] == "staging"@
    &&& identifier_word(parts[1])
    &&& parts[2] == "alpha"@ || parts[2] == "beta"@
}

/// Whether what stands between dashes starts with a purpose, a process and a
/// count: the name of a temporary file.
pub open spec fn numbered_name(parts: Seq<Seq<char>>) -> bool {
    parts.len() >= 3 && lowercase_word(parts[0]) && numeric(parts[1]) && numeric(parts[2])
}

/// Whether a name is one that autobahn gives its temporaries: the reserved
/// prefix, and then `staging`, a session and a side, or a purpose and two
/// numbers.
pub open spec fn temporary(name: Seq<char>) -> bool {
    let lead = ".autobahn-tmp-"@;
    let parts = segments(name.skip(lead.len() as int), '-');
    has_prefix(name, lead) && (staging_name(parts) || numbered_name(parts))
}

fn is_numeric(s: &[char]) -> (r: bool)
    ensures
        r == numeric(s@),
{
    let mut i: usize = 0;
    while i < s.len()
        invariant
            i <= s@.len(),
            forall|k: int| 0 <= k < i ==> '0' <= #[trigger] s@[k] <= '9',
        decreases s@.len() - i,
    {
        if !('0' <= s[i] && s[i] <= '9') {
            return false;
        }
        i += 1;
    }
    s.len() > 0
}

fn is_identifier_word(s: &[char]) -> (r: bool)
    ensures
        r == identifier_word(s@),
{
    let mut i: usize = 0;
    while i < s.len()
        invariant
            i <= s@.len(),
            forall|k: int| 0 <= k < i ==> ('a' <= #[trigger] s@[k] <= 'z' || '0' <= s@[k] <= '9'),
        decreases s@.len() - i,
    {
        if !(('a' <= s[i] && s[i] <= 'z') || ('0' <= s[i] && s[i] <= '9')) {
            return false;
        }
        i += 1;
    }
    s.len() > 0
}

fn is_lowercase_word(s: &[char]) -> (r: bool)
    ensures
        r == lowercase_word(s@),
{
    let mut i: usize = 0;
    while i < s.len()
        invariant
            i <= s@.len(),
            forall|k: int| 0 <= k < i ==> 'a' <= #[trigger] s@[k] <= 'z',
        decreases s@.len() - i,
    {
        if !('a' <= s[i] && s[i] <= 'z') {
            return false;
        }
        i += 1;
    }
    s.len() > 0
}

/// Whether a name is one that autobahn gives its temporaries. A user's file
/// that only shares the reserved prefix is not.
pub fn autobahn_temporary(name: &str) -> (r: bool)
    ensures
        r == temporary(name@),
{
    let all = chars_of(name);
    let lead = chars_of(".autobahn-tmp-");
    if !starts_with(all.as_slice(), lead.as_slice()) {
        return false;
    }
    let rest = slice_subrange(all.as_slice(), lead.len(), all.len());
    assert(rest@ =~= name@.skip(lead@.len() as int));
    let parts = split(rest, '-');
    let ghost pieces = segments(rest@, '-');
    assert(pieces.len() == parts@.len()) by {
        assert(texts(parts@).len() == parts@.len());
    }
    if parts.len() < 3 {
        return false;
    }
    assert(pieces[0] == parts@[0]@ && pieces[1] == parts@[1]@ && pieces[2] == parts@[2]@);
    let staging = chars_of("staging");
    let alpha = chars_of("alpha");
    let beta = chars_of("beta");
    if parts.len() == 3 && same(parts[0].as_slice(), staging.as_slice()) && is_identifier_word(
        parts[1].as_slice(),
    ) && (same(parts[2].as_slice(), alpha.as_slice()) || same(
        parts[2].as_slice(),
        beta.as_slice(),
    )) {
        return true;
    }
    is_lowercase_word(parts[0].as_slice()) && is_numeric(parts[1].as_slice()) && is_numeric(
        parts[2].as_slice(),
    )
}

/// Why a link target is not portable.
#[derive(Clone, Copy, Debug, PartialEq, Eq)]
pub enum TargetError {
    /// It is an absolute path.
    Absolute,
    /// It holds a colon.
    Colon,
    /// It leads out of the root.
    Escapes,
}

impl TargetError {
    /// The words for it.
    pub open spec fn text(&self) -> Seq<char> {
        match self {
            TargetError::Absolute => "target is absolute"@,
            TargetError::Colon => "target contains a colon"@,
            TargetError::Escapes => "target escapes the synchronization root"@,
        }
    }

    /// The words for it.
    pub fn message(&self) -> (r: String)
        ensures
            r@ == self.text(),
    {
        match self {
            TargetError::Absolute => "target is absolute".to_owned(),
            TargetError::Colon => "target contains a colon".to_owned(),
            TargetError::Escapes => "target escapes the synchronization root".to_owned(),
        }
    }
}

/// How deep below the root the first `n` components of a target lead from a
/// directory at `depth`, or `None` where they lead out of the root.
pub open spec fn depth_after(components: Seq<Seq<char>>, n: int, depth: int) -> Option<int>
    decreases n,
{
    if n <= 0 {
        Some(depth)
    } else {
        match depth_after(components, n - 1, depth) {
            None => None,
            Some(d) => {
                let component = components[n - 1];
                if component.len() == 0 || component == "."@ {
                    Some(d)
                } else if component == ".."@ {
                    if d == 0 {
                        None
                    } else {
                        Some(d - 1)
                    }
                } else {
                    Some(d + 1)
                }
            },
        }
    }
}

/// What keeps a link at `path` from pointing at `target` everywhere.
pub open spec fn target_fault(path: Seq<char>, target: Seq<char>) -> Option<TargetError> {
    let components = segments(target, '/');
    let depth = segments(path, '/').len() - 1;
    if target.len() > 0 && target[0] == '/' {
        Some(TargetError::Absolute)
    } else if target.contains(':') {
        Some(TargetError::Colon)
    } else if depth_after(components, components.len() as int, depth) is None {
        Some(TargetError::Escapes)
    } else {
        None
    }
}

/// Leading out of the root once is leading out of it.
proof fn lemma_escaped(components: Seq<Seq<char>>, n: int, m: int, depth: int)
    requires
        0 <= n <= m,
        depth_after(components, n, depth) is None,
    ensures
        depth_after(components, m, depth) is None,
    decreases m,
{
    if n < m {
        lemma_escaped(components, n, m - 1, depth);
    }
}

/// Checks that a link at `path` can point at `target` on any machine: the
/// target is relative, holds no colon, and does not lead out of the root at
/// any component.
pub fn validate_portable_target(path: &str, target: &str) -> (r: Result<(), TargetError>)
    ensures
        r == (match target_fault(path@, target@) {
            None => Ok::<(), TargetError>(()),
            Some(fault) => Err(fault),
        }),
{
    let goal = chars_of(target);
    if goal.len() > 0 && goal[0] == '/' {
        return Err(TargetError::Absolute);
    }
    let colon = index_of(goal.as_slice(), ':');
    proof {
        crate::text::lemma_first_index(goal@, ':');
    }
    if colon < goal.len() {
        return Err(TargetError::Colon);
    }
    let own = split(chars_of(path).as_slice(), '/');
    let parts = split(goal.as_slice(), '/');
    let ghost components = segments(target@, '/');
    let ghost start = segments(path@, '/').len() - 1;
    let here = chars_of(".");
    let up = chars_of("..");
    let mut depth: u128 = (own.len() - 1) as u128;
    assert(start == own@.len() - 1) by {
        assert(texts(own@).len() == own@.len());
    }
    assert(components.len() == parts@.len()) by {
        assert(texts(parts@).len() == parts@.len());
    }
    let mut i: usize = 0;
    while i < parts.len()
        invariant
            i <= parts@.len(),
            texts(parts@) == components,
            components == segments(target@, '/'),
            start == segments(path@, '/').len() - 1,
            0 <= start <= usize::MAX,
            here@ == "."@,
            up@ == ".."@,
            depth_after(components, i as int, start) == Some(depth as int),
            depth <= start + i,
            !(target@.len() > 0 && target@[0] == '/'),
            !target@.contains(':'),
        decreases parts@.len() - i,
    {
        assert(components[i as int] == parts@[i as int]@);
        if parts[i].len() == 0 || same(parts[i].as_slice(), here.as_slice()) {
        } else if same(parts[i].as_slice(), up.as_slice()) {
            if depth == 0 {
                proof {
                    lemma_escaped(components, i + 1, components.len() as int, start);
                }
                return Err(TargetError::Escapes);
            }
            depth -= 1;
        } else {
            depth += 1;
        }
        i += 1;
    }
    Ok(())
}

// ---------------------------------------------------------------------------
// Laws
// ---------------------------------------------------------------------------

/// How many of some components lead up.
pub open spec fn ups(components: Seq<Seq<char>>) -> nat {
    components.filter(|c: Seq<char>| c == seq!['.', '.']).len()
}

/// How many of some components lead down: those that are a name.
pub open spec fn downs(components: Seq<Seq<char>>) -> nat {
    components.filter(
        |c: Seq<char>| c != seq!['.', '.'] && c != seq!['.'] && c != Seq::<char>::empty(),
    ).len()
}

/// How many separators a path has: how deep below the root the directory
/// around it is.
pub open spec fn separators(path: Seq<char>) -> nat {
    path.filter(|c: char| c == '/').len()
}

/// A link's target is portable exactly where it is relative, holds no colon
/// and stays in the root all the way: at no point has it led up more often
/// than the directory around the link is deep and it has led down.
pub proof fn law_a_portable_target_stays_in_the_root(path: Seq<char>, target: Seq<char>)
    ensures
        target_fault(path, target) == Some(TargetError::Absolute) <==> target.len() > 0 && target[0]
            == '/',
        target_fault(path, target) == Some(TargetError::Colon) <==> target.contains(':') && !(
        target.len() > 0 && target[0] == '/'),
        target_fault(path, target) is None <==> {
            &&& !(target.len() > 0 && target[0] == '/')
            &&& !target.contains(':')
            &&& forall|n: int|
                0 <= n <= segments(target, '/').len() ==> ups(
                    #[trigger] segments(target, '/').take(n),
                ) <= separators(path) + downs(segments(target, '/').take(n))
        },
{
    let components = segments(target, '/');
    let depth = segments(path, '/').len() - 1;
    lemma_separators(path);
    lemma_led(components, components.len() as int, depth);
}

proof fn lemma_separators(path: Seq<char>)
    ensures
        segments(path, '/').len() == separators(path) + 1,
    decreases path.len(),
{
    reveal(Seq::filter);
    if path.len() > 0 {
        lemma_separators(path.drop_last());
        crate::text::lemma_segments_nonempty(path.drop_last(), '/');
    }
}

proof fn lemma_led(components: Seq<Seq<char>>, n: int, depth: int)
    requires
        0 <= n <= components.len(),
        depth >= 0,
    ensures
        depth_after(components, n, depth) is Some <==> forall|k: int|
            0 <= k <= n ==> ups(#[trigger] components.take(k)) <= depth + downs(components.take(k)),
        depth_after(components, n, depth) matches Some(d) ==> d == depth + downs(components.take(n))
            - ups(components.take(n)) && d >= 0,
    decreases n,
{
    reveal(Seq::filter);
    reveal_strlit(".");
    reveal_strlit("..");
    assert("."@ =~= seq!['.']);
    assert(".."@ =~= seq!['.', '.']);
    if n > 0 {
        lemma_led(components, n - 1, depth);
        let c = components[n - 1];
        let (front, all) = (components.take(n - 1), components.take(n));
        assert(all.drop_last() =~= front);
        assert(all.last() == c);
        assert(c.len() == 0 <==> c =~= Seq::<char>::empty());
        assert(seq!['.', '.'][1] == '.');
        assert(seq!['.'].len() == 1 && seq!['.', '.'].len() == 2);
        if depth_after(components, n - 1, depth) is Some {
            if depth_after(components, n, depth) is None {
                assert(ups(components.take(n)) > depth + downs(components.take(n)));
            } else {
                assert forall|k: int| 0 <= k <= n implies ups(#[trigger] components.take(k))
                    <= depth + downs(components.take(k)) by {
                    if k < n {
                        assert(ups(components.take(k)) <= depth + downs(components.take(k)));
                    }
                }
            }
        }
    } else {
        assert(components.take(0) =~= Seq::<Seq<char>>::empty());
    }
}

/// The names of autobahn's temporaries: after the reserved prefix, `staging`,
/// a session and a side, or a purpose and two numbers, whatever follows. A
/// name that does not have the prefix with its dash is none of them, nor one
/// with fewer than two dashes after it.
pub proof fn law_temporaries_have_their_names(
    session: Seq<char>,
    purpose: Seq<char>,
    process: Seq<char>,
    count: Seq<char>,
    more: Seq<char>,
    name: Seq<char>,
)
    requires
        identifier_word(session),
        lowercase_word(purpose),
        numeric(process),
        numeric(count),
    ensures
        temporary(".autobahn-tmp-staging-"@ + session + "-alpha"@),
        temporary(".autobahn-tmp-staging-"@ + session + "-beta"@),
        temporary(".autobahn-tmp-"@ + purpose + "-"@ + process + "-"@ + count),
        temporary(".autobahn-tmp-"@ + purpose + "-"@ + process + "-"@ + count + "-"@ + more),
        !has_prefix(name, ".autobahn-tmp-"@) ==> !temporary(name),
        !name.contains('-') ==> !temporary(".autobahn-tmp-"@ + name) && !temporary(
            ".autobahn-tmp-"@ + name + "-"@ + purpose,
        ),
{
    reveal_strlit(".autobahn-tmp-staging-");
    reveal_strlit(".autobahn-tmp-");
    reveal_strlit("-");
    reveal_strlit("-alpha");
    reveal_strlit("-beta");
    reveal_strlit("staging");
    reveal_strlit("alpha");
    reveal_strlit("beta");
    let lead = ".autobahn-tmp-"@;
    assert(!session.contains('-'));
    assert(!purpose.contains('-'));
    assert(!process.contains('-'));
    assert(!count.contains('-'));
    let staging = ".autobahn-tmp-staging-"@ + session;
    assert(staging + "-alpha"@ =~= staging + seq!['-'] + "alpha"@);
    assert(staging + "-beta"@ =~= staging + seq!['-'] + "beta"@);
    lemma_staged(session, "alpha"@, ".autobahn-tmp-staging-"@ + session + "-alpha"@);
    lemma_staged(session, "beta"@, ".autobahn-tmp-staging-"@ + session + "-beta"@);
    let short = lead + purpose + "-"@ + process + "-"@ + count;
    assert(short.take(14) =~= lead);
    assert(short.skip(14) =~= purpose + seq!['-'] + (process + seq!['-'] + count));
    crate::text::lemma_segments_front(purpose, '-', process + seq!['-'] + count);
    crate::text::lemma_segments_front(process, '-', count);
    crate::text::lemma_segments_single(count, '-');
    let long = lead + purpose + "-"@ + process + "-"@ + count + "-"@ + more;
    let tail = count + seq!['-'] + more;
    assert(long.take(14) =~= lead);
    assert(long.skip(14) =~= purpose + seq!['-'] + (process + seq!['-'] + tail));
    crate::text::lemma_segments_front(purpose, '-', process + seq!['-'] + tail);
    crate::text::lemma_segments_front(process, '-', tail);
    crate::text::lemma_segments_front(count, '-', more);
    crate::text::lemma_segments_nonempty(more, '-');
    if !name.contains('-') {
        let one = lead + name;
        assert(one.skip(14) =~= name);
        crate::text::lemma_segments_single(name, '-');
        let two = lead + name + "-"@ + purpose;
        assert(two.skip(14) =~= name + seq!['-'] + purpose);
        crate::text::lemma_segments_front(name, '-', purpose);
        crate::text::lemma_segments_single(purpose, '-');
    }
}

proof fn lemma_staged(session: Seq<char>, side: Seq<char>, name: Seq<char>)
    requires
        identifier_word(session),
        side == "alpha"@ || side == "beta"@,
        !side.contains('-'),
        name == ".autobahn-tmp-staging-"@ + session + seq!['-'] + side,
    ensures
        temporary(name),
{
    reveal_strlit(".autobahn-tmp-staging-");
    reveal_strlit(".autobahn-tmp-");
    reveal_strlit("staging");
    assert(!session.contains('-'));
    assert(name.take(14) =~= ".autobahn-tmp-"@);
    assert(name.skip(14) =~= "staging"@ + seq!['-'] + (session + seq!['-'] + side));
    crate::text::lemma_segments_front("staging"@, '-', session + seq!['-'] + side);
    crate::text::lemma_segments_front(session, '-', side);
    crate::text::lemma_segments_single(side, '-');
}

/// A word is made a character at a time: a purpose of lower-case letters, a
/// session's name of those and digits, and neither of nothing.
pub proof fn law_words_are_made_of_their_letters(s: Seq<char>, c: char)
    requires
        s.len() > 0,
    ensures
        !lowercase_word(Seq::empty()),
        !identifier_word(Seq::empty()),
        lowercase_word(s.push(c)) <==> lowercase_word(s) && 0x61 <= (c as u32) <= 0x7a,
        lowercase_word(seq![c]) <==> 0x61 <= (c as u32) <= 0x7a,
        identifier_word(s.push(c)) <==> identifier_word(s) && (0x61 <= (c as u32) <= 0x7a || 0x30
            <= (c as u32) <= 0x39),
        identifier_word(seq![c]) <==> 0x61 <= (c as u32) <= 0x7a || 0x30 <= (c as u32) <= 0x39,
{
    let all = s.push(c);
    assert(all[s.len() as int] == c);
    assert(forall|k: int| 0 <= k < s.len() ==> all[k] == #[trigger] s[k]);
    assert(seq![c][0] == c);
}

} // verus!
