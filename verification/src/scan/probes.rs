//! What a filesystem does with names and modes.
use crate::scan::names::temporary;
use crate::text::{
    chars_of, decimal, decimal_text, has_prefix, lemma_segments_front, lemma_segments_nonempty,
    segments, starts_with, strings,
};
use unicode_normalization::UnicodeNormalization;
use vstd::prelude::*;
use vstd::slice::slice_subrange;

verus! {

/// What a filesystem does with the names and modes it is given.
#[derive(Clone, Copy, Debug, PartialEq, Eq)]
pub struct FilesystemBehavior {
    /// Whether it keeps the executable bits of a file.
    pub preserves_executability: bool,
    /// Whether it stores names decomposed.
    pub decomposes_unicode: bool,
    /// Whether it takes the composed and the decomposed name for one.
    pub normalization_insensitive: bool,
    /// Whether it takes names that differ in case for one.
    pub case_insensitive: bool,
}

impl Default for FilesystemBehavior {
    fn default() -> (b: FilesystemBehavior)
        ensures
            b == (FilesystemBehavior {
                preserves_executability: true,
                decomposes_unicode: false,
                normalization_insensitive: false,
                case_insensitive: false,
            }),
    {
        FilesystemBehavior {
            preserves_executability: true,
            decomposes_unicode: false,
            normalization_insensitive: false,
            case_insensitive: false,
        }
    }
}

/// A text in Unicode's normalization form C.
pub uninterp spec fn composed(name: Seq<char>) -> Seq<char>;

/// `UnicodeNormalization::nfc`, collected: the text in normalization form C,
/// named `composed` here; nothing else is claimed of it.
#[verifier::external_body]
fn compose(name: &str) -> (r: String)
    ensures
        r@ == composed(name@),
{
    name.nfc().collect()
}

/// A name as it is recorded: in normalization form C. A name that is ASCII is
/// in it as it stands.
pub open spec fn recomposed(name: Seq<char>) -> Seq<char> {
    if vstd::utf8::is_ascii_chars(name) {
        name
    } else {
        composed(name)
    }
}

/// A name in normalization form C.
pub fn recompose(name: &str) -> (r: String)
    ensures
        r@ == recomposed(name@),
{
    if name.is_ascii() {
        name.to_owned()
    } else {
        compose(name)
    }
}

/// What a filesystem does, from what probing it answered: whether it keeps
/// executability, whether it decomposes names and finds a decomposed one, and
/// whether it finds a name in another case. A probe without an answer leaves
/// the usual.
pub fn probe(
    executability: Option<bool>,
    unicode: Option<(bool, bool)>,
    case_insensitivity: Option<bool>,
) -> (b: FilesystemBehavior)
    ensures
        b.preserves_executability == (match executability {
            Some(kept) => kept,
            None => true,
        }),
        b.decomposes_unicode == (match unicode {
            Some((decomposes, _)) => decomposes,
            None => false,
        }),
        b.normalization_insensitive == (match unicode {
            Some((decomposes, insensitive)) => decomposes || insensitive,
            None => false,
        }),
        b.case_insensitive == (match case_insensitivity {
            Some(insensitive) => insensitive,
            None => false,
        }),
{
    let (decomposes, insensitive) = match unicode {
        Some(answer) => answer,
        None => (false, false),
    };
    FilesystemBehavior {
        preserves_executability: match executability {
            Some(kept) => kept,
            None => true,
        },
        decomposes_unicode: decomposes,
        normalization_insensitive: decomposes || insensitive,
        case_insensitive: match case_insensitivity {
            Some(insensitive) => insensitive,
            None => false,
        },
    }
}

/// Whether executable bits are kept, from the modes a file had after they were
/// cleared and after they were set.
pub open spec fn kept_bits(cleared: u32, set: u32) -> bool {
    cleared & 73 == 0 && set & 73 != 0
}

/// Whether executability is kept, from the modes a file had after its
/// executable bits were cleared and after they were set.
pub fn keeps_executability(cleared: u32, set: u32) -> (r: bool)
    ensures
        r == kept_bits(cleared, set),
{
    cleared & 73 == 0 && set & 73 != 0
}

/// Whether names are decomposed, from the names a directory lists after one
/// was created that is `marker` and a composed character: the first that
/// starts with the marker tells. `None` where none does.
pub open spec fn stored_decomposed(names: Seq<Seq<char>>, marker: Seq<char>) -> Option<bool>
    decreases names.len(),
{
    if names.len() == 0 {
        None
    } else {
        match stored_decomposed(names.drop_last(), marker) {
            Some(answer) => Some(answer),
            None => if has_prefix(names.last(), marker) {
                Some(names.last().skip(marker.len() as int) != seq!['\u{e9}'])
            } else {
                None
            },
        }
    }
}

/// Whether names are decomposed, from the names a directory lists.
pub fn reads_back_decomposed(names: &[String], marker: &str) -> (r: Option<bool>)
    ensures
        r == stored_decomposed(strings(names@), marker@),
{
    let lead = chars_of(marker);
    let composed: [char; 1] = ['\u{e9}'];
    assert(composed@ =~= seq!['\u{e9}']);
    let ghost all = strings(names@);
    let mut answer: Option<bool> = None;
    let mut i: usize = 0;
    while i < names.len()
        invariant
            i <= names@.len(),
            all == strings(names@),
            lead@ == marker@,
            composed@ == seq!['\u{e9}'],
            answer == stored_decomposed(all.take(i as int), marker@),
        decreases names@.len() - i,
    {
        proof {
            assert(all.take(i + 1).drop_last() =~= all.take(i as int));
        }
        let name = chars_of(names[i].as_str());
        if answer.is_none() && starts_with(name.as_slice(), lead.as_slice()) {
            let rest = slice_subrange(name.as_slice(), lead.len(), name.len());
            assert(rest@ =~= name@.skip(marker@.len() as int));
            answer = Some(!crate::text::same(rest, composed.as_slice()));
        }
        i += 1;
    }
    assert(all.take(all.len() as int) =~= all);
    answer
}

/// The name of a probe's file.
pub open spec fn probe_file(process: nat, count: nat, token: Seq<char>) -> Seq<char> {
    ".autobahn-tmp-"@ + "probe-"@ + decimal_text(process) + "-"@ + decimal_text(count) + "-"@
        + token
}

/// The name of the file a probe creates.
pub fn probe_name(process: u32, count: u64, token: &str) -> (r: String)
    ensures
        r@ == probe_file(process as nat, count as nat, token@),
{
    let mut r = ".autobahn-tmp-".to_owned();
    r.append("probe-");
    let number = decimal(process as u64);
    r.append(number.as_str());
    r.append("-");
    let number = decimal(count);
    r.append(number.as_str());
    r.append("-");
    r.append(token);
    r
}

/// A decimal number is digits.
pub proof fn lemma_decimal_digits(n: nat)
    ensures
        decimal_text(n).len() > 0,
        forall|k: int|
            0 <= k < decimal_text(n).len() ==> '0' <= #[trigger] decimal_text(n)[k] <= '9',
    decreases n,
{
    if n >= 10 {
        lemma_decimal_digits(n / 10);
    }
}

/// The file a probe creates is a temporary: no scan sees it.
pub proof fn law_probe_files_are_temporaries(process: nat, count: nat, token: Seq<char>)
    ensures
        temporary(probe_file(process, count, token)),
{
    reveal_strlit(".autobahn-tmp-");
    reveal_strlit("probe-");
    reveal_strlit("staging-");
    reveal_strlit("-");
    let lead = ".autobahn-tmp-"@;
    let purpose = seq!['p', 'r', 'o', 'b', 'e'];
    let p = decimal_text(process);
    let c = decimal_text(count);
    lemma_decimal_digits(process);
    lemma_decimal_digits(count);
    let name = probe_file(process, count, token);
    let rest = name.skip(lead.len() as int);
    assert(name.take(lead.len() as int) =~= lead);
    let tail2 = c + seq!['-'] + token;
    let tail1 = p + seq!['-'] + tail2;
    assert(rest =~= purpose + seq!['-'] + tail1);
    assert(!has_prefix(rest, "staging-"@)) by {
        assert(rest[0] == 'p');
        assert("staging-"@[0] == 's');
        if has_prefix(rest, "staging-"@) {
            assert(rest.take("staging-"@.len() as int)[0] == rest[0]);
        }
    }
    assert(!p.contains('-'));
    assert(!c.contains('-'));
    lemma_segments_front(purpose, '-', tail1);
    lemma_segments_front(p, '-', tail2);
    lemma_segments_front(c, '-', token);
    let parts = segments(rest, '-');
    lemma_segments_nonempty(token, '-');
    assert(parts[0] == purpose);
    assert(parts[1] == p);
    assert(parts[2] == c);
}

/// The first name a directory lists that starts with the marker tells whether
/// names are decomposed: they are not exactly where it goes on with the
/// composed character and ends. Names without the marker tell nothing.
pub proof fn law_the_first_marked_name_tells(
    names: Seq<Seq<char>>,
    marker: Seq<char>,
    rest: Seq<char>,
    more: Seq<Seq<char>>,
)
    requires
        forall|i: int| 0 <= i < names.len() ==> !has_prefix(#[trigger] names[i], marker),
    ensures
        stored_decomposed(names, marker) is None,
        stored_decomposed(names.push(marker + rest) + more, marker) == Some(
            rest != seq!['\u{e9}'],
        ),
    decreases names.len() + more.len(),
{
    let name = marker + rest;
    if more.len() > 0 {
        law_the_first_marked_name_tells(names, marker, rest, more.drop_last());
        assert((names.push(name) + more).drop_last() =~= names.push(name) + more.drop_last());
    } else {
        if names.len() > 0 {
            law_the_first_marked_name_tells(names.drop_last(), marker, rest, more);
            assert(!has_prefix(names[names.len() - 1], marker));
        }
        assert(names.push(name) + more =~= names.push(name));
        assert(names.push(name).drop_last() =~= names);
        assert(name.take(marker.len() as int) =~= marker);
        assert(name.skip(marker.len() as int) =~= rest);
    }
}

/// A name that is not ASCII is recorded composed.
pub proof fn law_names_are_recorded_composed(name: Seq<char>)
    ensures
        !vstd::utf8::is_ascii_chars(name) ==> recomposed(name) == composed(name),
        vstd::utf8::is_ascii_chars(name) ==> recomposed(name) == name,
{
}

/// Executability is kept where clearing the three executable bits left none of
/// them and setting them left one.
pub proof fn law_executability_is_kept_where_both_changes_took(cleared: u32, set: u32)
    ensures
        kept_bits(cleared, set) <==> {
            &&& cleared & 0o100 == 0 && cleared & 0o010 == 0 && cleared & 0o001 == 0
            &&& set & 0o100 != 0 || set & 0o010 != 0 || set & 0o001 != 0
        },
{
    assert(cleared & 73 == 0 <==> cleared & 0o100 == 0 && cleared & 0o010 == 0 && cleared & 0o001
        == 0) by (bit_vector);
    assert(set & 73 == 0 <==> set & 0o100 == 0 && set & 0o010 == 0 && set & 0o001 == 0)
        by (bit_vector);
}

} // verus!
