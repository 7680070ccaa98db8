//! The property list that launchd reads.
use crate::paths::HOME_VARIABLE;
use crate::service::{Registration, RegistrationView, LABEL};
use crate::text::{
    chars_of, find, first_occurrence, has_prefix, lemma_first_occurrence, occurs_at, optional,
    string_of, strings, substitute, substituted,
};
use vstd::prelude::*;
use vstd::slice::{slice_subrange, slice_to_vec};

verus! {

// ---------------------------------------------------------------------------
// Escaping
// ---------------------------------------------------------------------------

/// A character as it stands in a property list.
pub open spec fn xml_char(c: char) -> Seq<char> {
    if c == '&' {
        "&amp;"@
    } else if c == '<' {
        "&lt;"@
    } else if c == '>' {
        "&gt;"@
    } else {
        seq![c]
    }
}

/// A text as it stands in a property list.
pub open spec fn xml_escaped(t: Seq<char>) -> Seq<char>
    decreases t.len(),
{
    if t.len() == 0 {
        Seq::empty()
    } else {
        xml_char(t[0]) + xml_escaped(t.skip(1))
    }
}

/// What a text in a property list stands for.
#[verifier::opaque]
pub open spec fn xml_unescaped(s: Seq<char>) -> Seq<char> {
    substituted(
        substituted(
            substituted(
                substituted(substituted(s, "&lt;"@, "<"@), "&gt;"@, ">"@),
                "&quot;"@,
                "\""@,
            ),
            "&apos;"@,
            "'"@,
        ),
        "&amp;"@,
        "&"@,
    )
}

/// A text as it stands in a property list.
pub fn xml_escape(text: &str) -> (r: String)
    ensures
        r@ == xml_escaped(text@),
{
    let all = chars_of(text);
    let mut r = String::new();
    let mut i: usize = 0;
    assert(text@.skip(0) =~= text@);
    assert(r@ + xml_escaped(text@) =~= xml_escaped(text@));
    while i < all.len()
        invariant
            i <= all@.len(),
            all@ == text@,
            r@ + xml_escaped(text@.skip(i as int)) == xml_escaped(text@),
        decreases all@.len() - i,
    {
        let c = all[i];
        let ghost before = r@;
        if c == '&' {
            r.append("&amp;");
        } else if c == '<' {
            r.append("&lt;");
        } else if c == '>' {
            r.append("&gt;");
        } else {
            r.push(c);
        }
        proof {
            let rest = text@.skip(i as int);
            assert(rest[0] == c);
            assert(rest.skip(1) =~= text@.skip(i + 1));
            assert(r@ =~= before + xml_char(c));
            assert(before + (xml_char(c) + xml_escaped(text@.skip(i + 1))) =~= r@ + xml_escaped(
                text@.skip(i + 1),
            ));
        }
        i += 1;
    }
    assert(text@.skip(text@.len() as int) =~= Seq::<char>::empty());
    assert(r@ + Seq::<char>::empty() =~= r@);
    r
}

/// What a text in a property list stands for.
pub fn xml_unescape(text: &str) -> (r: String)
    ensures
        r@ == xml_unescaped(text@),
{
    proof {
        reveal(xml_unescaped);
        reveal_strlit("&lt;");
        reveal_strlit("&gt;");
        reveal_strlit("&quot;");
        reveal_strlit("&apos;");
        reveal_strlit("&amp;");
    }
    let r = substitute(chars_of(text).as_slice(), chars_of("&lt;").as_slice(), "<");
    let r = substitute(chars_of(r.as_str()).as_slice(), chars_of("&gt;").as_slice(), ">");
    let r = substitute(chars_of(r.as_str()).as_slice(), chars_of("&quot;").as_slice(), "\"");
    let r = substitute(chars_of(r.as_str()).as_slice(), chars_of("&apos;").as_slice(), "'");
    substitute(chars_of(r.as_str()).as_slice(), chars_of("&amp;").as_slice(), "&")
}

// ---------------------------------------------------------------------------
// The property list
// ---------------------------------------------------------------------------

/// Some texts from `from` on, each as a string on a line.
pub open spec fn string_lines(list: Seq<Seq<char>>, from: int) -> Seq<char>
    decreases list.len() - from,
{
    if from < 0 || from >= list.len() {
        Seq::empty()
    } else {
        "\t\t<string>"@ + xml_escaped(list[from]) + "</string>\n"@ + string_lines(list, from + 1)
    }
}

/// What stands before the name of the service.
pub open spec fn opening() -> Seq<char> {
    "<?xml version=\"1.0\" encoding=\"UTF-8\"?>\n"@
        + "<!DOCTYPE plist PUBLIC \"-//Apple//DTD PLIST 1.0//EN\" \"http://www.apple.com/DTDs/PropertyList-1.0.dtd\">\n"@
        + "<plist version=\"1.0\">\n<dict>\n\t<key>Label</key>\n\t<string>"@
}

/// What stands between the name of the service and the key of what it runs.
pub open spec fn naming() -> Seq<char> {
    "</string>\n\t"@
}

/// The key of what the service runs.
pub open spec fn program_key() -> Seq<char> {
    "<key>ProgramArguments</key>"@
}

/// What stands between what the service runs and the log.
pub open spec fn running() -> Seq<char> {
    "\n\t<key>RunAtLoad</key>\n\t<true/>\n\t<key>KeepAlive</key>\n\t<true/>\n\t<key>StandardOutPath</key>\n\t<string>"@
}

/// What stands between the log and the log.
pub open spec fn logging() -> Seq<char> {
    "</string>\n\t<key>StandardErrorPath</key>\n\t<string>"@
}

/// What stands between the log and the environment.
pub open spec fn surrounding() -> Seq<char> {
    "</string>\n\t<key>EnvironmentVariables</key>\n\t<dict>\n\t\t<key>PATH</key>\n\t\t<string>"@
        + "/opt/homebrew/bin:/usr/local/bin:/usr/bin:/bin:/usr/sbin:/sbin</string>\n"@
}

/// What stands last.
pub open spec fn closing() -> Seq<char> {
    "\t</dict>\n</dict>\n</plist>\n"@
}

/// The key of the state root.
pub open spec fn home_key() -> Seq<char> {
    "<key>"@ + HOME_VARIABLE@ + "</key>"@
}

/// The environment beside the search path.
pub open spec fn environment_text(home: Option<Seq<char>>) -> Seq<char> {
    match home {
        Some(home) => "\t\t"@ + home_key() + "\n"@ + string_lines(seq![home], 0),
        None => Seq::empty(),
    }
}

/// What the service runs, word by word.
pub open spec fn program(registration: RegistrationView) -> Seq<Seq<char>> {
    seq![registration.executable] + registration.arguments
}

/// What follows the key of what the service runs.
pub open spec fn after_program(registration: RegistrationView, log: Seq<char>) -> Seq<char> {
    "\n\t<array>\n"@ + string_lines(program(registration), 0) + "\t"@ + "</array>"@ + running()
        + xml_escaped(log) + logging() + xml_escaped(log) + surrounding() + environment_text(
        registration.home,
    ) + closing()
}

/// The property list for a registration.
pub open spec fn plist_text(registration: RegistrationView, log: Seq<char>) -> Seq<char> {
    opening() + LABEL@ + naming() + program_key() + after_program(registration, log)
}

fn push_string(r: &mut String, text: &str)
    ensures
        final(r)@ == old(r)@ + ("\t\t<string>"@ + xml_escaped(text@) + "</string>\n"@),
{
    let ghost start = r@;
    let body = xml_escape(text);
    r.append("\t\t<string>");
    r.append(body.as_str());
    r.append("</string>\n");
    assert(r@ =~= start + ("\t\t<string>"@ + xml_escaped(text@) + "</string>\n"@));
}

fn program_lines(registration: &Registration) -> (r: String)
    ensures
        r@ == string_lines(program(registration.view()), 0),
{
    let ghost all = program(registration.view());
    let mut r = String::new();
    let ghost none = r@;
    push_string(&mut r, registration.executable.as_str());
    assert(r@ + string_lines(all, 1) =~= string_lines(all, 0));
    let mut i: usize = 0;
    while i < registration.arguments.len()
        invariant
            i <= registration.arguments@.len(),
            all == program(registration.view()),
            r@ + string_lines(all, 1 + i) == string_lines(all, 0),
        decreases registration.arguments@.len() - i,
    {
        let ghost before = r@;
        assert(all[1 + i] == registration.arguments@[i as int]@);
        push_string(&mut r, registration.arguments[i].as_str());
        proof {
            let piece = "\t\t<string>"@ + xml_escaped(all[1 + i]) + "</string>\n"@;
            assert(r@ + string_lines(all, 2 + i) =~= before + (piece + string_lines(all, 2 + i)));
        }
        i += 1;
    }
    assert(r@ + Seq::<char>::empty() =~= r@);
    r
}

/// The property list for a registration.
pub fn render_plist(registration: &Registration, log: &str) -> (r: String)
    ensures
        r@ == plist_text(registration.view(), log@),
{
    let mut head = "<?xml version=\"1.0\" encoding=\"UTF-8\"?>\n".to_owned();
    head.append(
        "<!DOCTYPE plist PUBLIC \"-//Apple//DTD PLIST 1.0//EN\" \"http://www.apple.com/DTDs/PropertyList-1.0.dtd\">\n",
    );
    head.append("<plist version=\"1.0\">\n<dict>\n\t<key>Label</key>\n\t<string>");
    head.append(LABEL);
    head.append("</string>\n\t");
    head.append("<key>ProgramArguments</key>");
    let mut r = "\n\t<array>\n".to_owned();
    let words = program_lines(registration);
    r.append(words.as_str());
    r.append("\t");
    r.append("</array>");
    r.append(
        "\n\t<key>RunAtLoad</key>\n\t<true/>\n\t<key>KeepAlive</key>\n\t<true/>\n\t<key>StandardOutPath</key>\n\t<string>",
    );
    let place = xml_escape(log);
    r.append(place.as_str());
    r.append("</string>\n\t<key>StandardErrorPath</key>\n\t<string>");
    r.append(place.as_str());
    let mut around =
        "</string>\n\t<key>EnvironmentVariables</key>\n\t<dict>\n\t\t<key>PATH</key>\n\t\t<string>".to_owned();
    around.append("/opt/homebrew/bin:/usr/local/bin:/usr/bin:/bin:/usr/sbin:/sbin</string>\n");
    r.append(around.as_str());
    let mut environment = String::new();
    if let Some(home) = &registration.home {
        environment.append("\t\t");
        let mut key = "<key>".to_owned();
        key.append(HOME_VARIABLE);
        key.append("</key>");
        environment.append(key.as_str());
        environment.append("\n");
        push_string(&mut environment, home.as_str());
        proof {
            let list = seq![home@];
            assert(string_lines(list, 1) =~= Seq::<char>::empty());
            assert(environment@ =~= environment_text(Some(home@)));
        }
    }
    assert(environment@ =~= environment_text(optional(registration.home)));
    r.append(environment.as_str());
    r.append("\t</dict>\n</dict>\n</plist>\n");
    assert(r@ == after_program(registration.view(), log@));
    head.append(r.as_str());
    head
}

/// What stands before and after the first occurrence of `pat`.
#[verifier::opaque]
pub open spec fn split_once(s: Seq<char>, pat: Seq<char>) -> Option<(Seq<char>, Seq<char>)> {
    match first_occurrence(s, pat) {
        Some(i) => Some((s.take(i), s.skip(i + pat.len()))),
        None => None,
    }
}

fn split_at_first(s: &[char], pat: &str) -> (r: Option<(Vec<char>, Vec<char>)>)
    ensures
        match r {
            Some(parts) => split_once(s@, pat@) == Some((parts.0@, parts.1@)) && parts.0@.len()
                + pat@.len() + parts.1@.len() == s@.len(),
            None => split_once(s@, pat@) is None,
        },
{
    proof {
        reveal(split_once);
    }
    let mark = chars_of(pat);
    match find(s, mark.as_slice()) {
        Some(i) => {
            let total: usize = s.len();
            let a = slice_subrange(s, 0, i);
            let b = slice_subrange(s, i + mark.len(), total);
            assert(a@ =~= s@.take(i as int));
            assert(b@ =~= s@.skip(i + pat@.len()));
            Some((slice_to_vec(a), slice_to_vec(b)))
        },
        None => None,
    }
}

/// The strings of a part of a property list, in order. One that is not closed
/// before the next begins is none.
pub open spec fn strings_in(s: Seq<char>) -> Seq<Seq<char>>
    decreases s.len(),
{
    match split_once(s, "<string>"@) {
        Some((_, rest)) => if rest.len() < s.len() {
            let piece = match split_once(rest, "<string>"@) {
                Some((piece, _)) => piece,
                None => rest,
            };
            match split_once(piece, "</string>"@) {
                Some((text, _)) => seq![xml_unescaped(text)] + strings_in(rest),
                None => strings_in(rest),
            }
        } else {
            Seq::empty()
        },
        None => Seq::empty(),
    }
}

fn find_strings(s: &[char]) -> (r: Vec<String>)
    ensures
        strings(r@) == strings_in(s@),
    decreases s@.len(),
{
    proof {
        reveal_strlit("<string>");
    }
    let mut r: Vec<String> = Vec::new();
    assert(strings(r@) =~= Seq::<Seq<char>>::empty());
    if let Some((_, rest)) = split_at_first(s, "<string>") {
        let piece: Vec<char> = match split_at_first(rest.as_slice(), "<string>") {
            Some((piece, _)) => piece,
            None => slice_to_vec(rest.as_slice()),
        };
        let more = find_strings(rest.as_slice());
        match split_at_first(piece.as_slice(), "</string>") {
            Some((text, _)) => {
                let text = string_of(text.as_slice());
                let word = xml_unescape(text.as_str());
                let ghost first = word@;
                r.push(word);
                let mut i: usize = 0;
                let ghost all = strings(more@);
                assert(strings(r@) =~= seq![first] + all.take(0));
                while i < more.len()
                    invariant
                        i <= more@.len(),
                        all == strings(more@),
                        strings(r@) == seq![first] + all.take(i as int),
                    decreases more@.len() - i,
                {
                    crate::command::resolve::push_line(&mut r, more[i].clone());
                    assert(all.take(i + 1) =~= all.take(i as int).push(all[i as int]));
                    assert(strings(r@) =~= seq![first] + all.take(i + 1));
                    i += 1;
                }
                assert(all.take(all.len() as int) =~= all);
            },
            None => {
                return more;
            },
        }
    }
    r
}

/// What a property list registers, if it can be read.
pub open spec fn parsed_plist(content: Seq<char>) -> Option<RegistrationView> {
    match split_once(content, program_key()) {
        Some((_, after)) => match split_once(after, "</array>"@) {
            Some((array, _)) => {
                let words = strings_in(array);
                if words.len() == 0 {
                    None
                } else {
                    Some(
                        RegistrationView {
                            executable: words[0],
                            arguments: words.skip(1),
                            home: match split_once(content, home_key()) {
                                Some((_, rest)) => if strings_in(rest).len() > 0 {
                                    Some(strings_in(rest)[0])
                                } else {
                                    None
                                },
                                None => None,
                            },
                        },
                    )
                }
            },
            None => None,
        },
        None => None,
    }
}

/// What a property list registers: the strings of its program, and the first
/// string behind the key of the state root. `None` where it has no program.
pub fn parse_plist(content: &str) -> (r: Option<Registration>)
    ensures
        match r {
            Some(registration) => parsed_plist(content@) == Some(registration.view()),
            None => parsed_plist(content@) is None,
        },
{
    let all = chars_of(content);
    let after = match split_at_first(all.as_slice(), "<key>ProgramArguments</key>") {
        Some((_, after)) => after,
        None => {
            return None;
        },
    };
    let array = match split_at_first(after.as_slice(), "</array>") {
        Some((array, _)) => array,
        None => {
            return None;
        },
    };
    let mut words = find_strings(array.as_slice());
    assert(strings(words@).len() == words@.len());
    if words.len() == 0 {
        return None;
    }
    let mut key = "<key>".to_owned();
    key.append(HOME_VARIABLE);
    key.append("</key>");
    let home: Option<String> = match split_at_first(all.as_slice(), key.as_str()) {
        Some((_, rest)) => {
            let mut found = find_strings(rest.as_slice());
            assert(strings(found@).len() == found@.len());
            if found.len() > 0 {
                assert(strings(found@)[0] == found@[0]@);
                Some(found.remove(0))
            } else {
                None
            }
        },
        None => None,
    };
    let ghost before = strings(words@);
    let executable = words.remove(0);
    assert(strings(words@) =~= before.skip(1));
    assert(executable@ == before[0]);
    Some(Registration { executable, arguments: words, home })
}

// ---------------------------------------------------------------------------
// Reading back what was written
// ---------------------------------------------------------------------------

/// A text with `&`, and `<` and `>` where asked for, escaped.
spec fn staged(t: Seq<char>, lt: bool, gt: bool) -> Seq<char>
    decreases t.len(),
{
    if t.len() == 0 {
        Seq::empty()
    } else {
        (if t[0] == '&' {
            "&amp;"@
        } else if t[0] == '<' && lt {
            "&lt;"@
        } else if t[0] == '>' && gt {
            "&gt;"@
        } else {
            seq![t[0]]
        }) + staged(t.skip(1), lt, gt)
    }
}

proof fn lemma_staged(t: Seq<char>)
    ensures
        xml_escaped(t) == staged(t, true, true),
    decreases t.len(),
{
    if t.len() > 0 {
        lemma_staged(t.skip(1));
    }
}

/// A run that no occurrence begins in passes unchanged.
proof fn lemma_passes(run: Seq<char>, more: Seq<char>, pat: Seq<char>, with: Seq<char>)
    requires
        pat.len() > 0,
        forall|k: int|
            0 <= k < run.len() ==> !has_prefix(#[trigger] (run + more).skip(k), pat),
    ensures
        substituted(run + more, pat, with) == run + substituted(more, pat, with),
    decreases run.len(),
{
    let s = run + more;
    if run.len() == 0 {
        assert(s =~= more);
        assert(run + substituted(more, pat, with) =~= substituted(more, pat, with));
    } else {
        let rest = run.skip(1);
        assert(s.skip(0) =~= s);
        assert(!has_prefix(s.skip(0), pat));
        assert(s.skip(1) =~= rest + more);
        assert forall|k: int| 0 <= k < rest.len() implies !has_prefix(
            #[trigger] (rest + more).skip(k),
            pat,
        ) by {
            assert((rest + more).skip(k) =~= s.skip(k + 1));
        }
        lemma_passes(rest, more, pat, with);
        assert(seq![run[0]] + (rest + substituted(more, pat, with)) =~= run + substituted(
            more,
            pat,
            with,
        ));
    }
}

/// One character that no occurrence begins with passes unchanged.
proof fn lemma_passes_one(c: char, more: Seq<char>, pat: Seq<char>, with: Seq<char>)
    requires
        pat.len() > 0,
        pat[0] != c,
    ensures
        substituted(seq![c] + more, pat, with) == seq![c] + substituted(more, pat, with),
{
    let s = seq![c] + more;
    assert(s.skip(1) =~= more);
    if has_prefix(s, pat) {
        assert(s.take(pat.len() as int)[0] == c);
    }
}

proof fn lemma_passes_amp(more: Seq<char>, pat: Seq<char>, with: Seq<char>)
    requires
        pat.len() > 2,
        pat[0] == '&',
        pat[1] != 'a' || pat[2] != 'm',
    ensures
        substituted("&amp;"@ + more, pat, with) == "&amp;"@ + substituted(more, pat, with),
{
    reveal_strlit("&amp;");
    let s = "&amp;"@ + more;
    assert forall|k: int| 0 <= k < 5 implies !has_prefix(#[trigger] s.skip(k), pat) by {
        let t = s.skip(k);
        if has_prefix(t, pat) {
            let head = t.take(pat.len() as int);
            assert(head[0] == s[k] && head[1] == s[k + 1] && head[2] == s[k + 2]);
        }
    }
    lemma_passes("&amp;"@, more, pat, with);
}

/// An occurrence at the start is replaced.
proof fn lemma_replaces(more: Seq<char>, pat: Seq<char>, with: Seq<char>)
    requires
        pat.len() > 0,
    ensures
        substituted(pat + more, pat, with) == with + substituted(more, pat, with),
{
    let s = pat + more;
    assert(s.take(pat.len() as int) =~= pat);
    assert(s.skip(pat.len() as int) =~= more);
}

proof fn lemma_stage_lt(t: Seq<char>)
    ensures
        substituted(staged(t, true, true), "&lt;"@, "<"@) == staged(t, false, true),
    decreases t.len(),
{
    reveal_strlit("&lt;");
    reveal_strlit("&gt;");
    reveal_strlit("<");
    if t.len() > 0 {
        lemma_stage_lt(t.skip(1));
        let more = staged(t.skip(1), true, true);
        if t[0] == '&' {
            lemma_passes_amp(more, "&lt;"@, "<"@);
        } else if t[0] == '<' {
            lemma_replaces(more, "&lt;"@, "<"@);
            assert("<"@ =~= seq![t[0]]);
        } else if t[0] == '>' {
            let s = "&gt;"@ + more;
            assert forall|k: int| 0 <= k < 4 implies !has_prefix(#[trigger] s.skip(k), "&lt;"@) by {
                let u = s.skip(k);
                if has_prefix(u, "&lt;"@) {
                    let head = u.take(4);
                    assert(head[0] == s[k] && head[1] == s[k + 1]);
                }
            }
            lemma_passes("&gt;"@, more, "&lt;"@, "<"@);
        } else {
            lemma_passes_one(t[0], more, "&lt;"@, "<"@);
        }
    }
}

proof fn lemma_stage_gt(t: Seq<char>)
    ensures
        substituted(staged(t, false, true), "&gt;"@, ">"@) == staged(t, false, false),
    decreases t.len(),
{
    reveal_strlit("&gt;");
    reveal_strlit(">");
    if t.len() > 0 {
        lemma_stage_gt(t.skip(1));
        let more = staged(t.skip(1), false, true);
        if t[0] == '&' {
            lemma_passes_amp(more, "&gt;"@, ">"@);
        } else if t[0] == '>' {
            lemma_replaces(more, "&gt;"@, ">"@);
            assert(">"@ =~= seq![t[0]]);
        } else {
            lemma_passes_one(t[0], more, "&gt;"@, ">"@);
        }
    }
}

proof fn lemma_stage_other(t: Seq<char>, pat: Seq<char>, with: Seq<char>)
    requires
        pat.len() > 2,
        pat[0] == '&',
        pat[1] != 'a' || pat[2] != 'm',
    ensures
        substituted(staged(t, false, false), pat, with) == staged(t, false, false),
    decreases t.len(),
{
    if t.len() > 0 {
        lemma_stage_other(t.skip(1), pat, with);
        let more = staged(t.skip(1), false, false);
        if t[0] == '&' {
            lemma_passes_amp(more, pat, with);
        } else {
            lemma_passes_one(t[0], more, pat, with);
        }
    }
}

proof fn lemma_stage_amp(t: Seq<char>)
    ensures
        substituted(staged(t, false, false), "&amp;"@, "&"@) == t,
    decreases t.len(),
{
    reveal_strlit("&amp;");
    reveal_strlit("&");
    if t.len() > 0 {
        lemma_stage_amp(t.skip(1));
        let more = staged(t.skip(1), false, false);
        assert(seq![t[0]] + t.skip(1) =~= t);
        if t[0] == '&' {
            lemma_replaces(more, "&amp;"@, "&"@);
            assert("&"@ =~= seq![t[0]]);
        } else {
            lemma_passes_one(t[0], more, "&amp;"@, "&"@);
        }
    } else {
        assert(t =~= Seq::<char>::empty());
    }
}

/// A text reads back from a property list as it was written.
pub proof fn law_unescaping_undoes_escaping(t: Seq<char>)
    ensures
        xml_unescaped(xml_escaped(t)) == t,
{
    reveal(xml_unescaped);
    reveal_strlit("&quot;");
    reveal_strlit("&apos;");
    lemma_staged(t);
    lemma_stage_lt(t);
    lemma_stage_gt(t);
    lemma_stage_other(t, "&quot;"@, "\""@);
    lemma_stage_other(t, "&apos;"@, "'"@);
    lemma_stage_amp(t);
}

/// Whether no tag in a text has `c` at the offset, and each reaches that far.
spec fn safe(s: Seq<char>, offset: int, c: char) -> bool {
    forall|k: int|
        0 <= k < s.len() && #[trigger] s[k] == '<' ==> k + offset < s.len() && s[k + offset] != c
}

proof fn lemma_safe_join(a: Seq<char>, b: Seq<char>, offset: int, c: char)
    requires
        safe(a, offset, c),
        safe(b, offset, c),
        offset >= 0,
    ensures
        safe(a + b, offset, c),
{
    let s = a + b;
    assert forall|k: int| 0 <= k < s.len() && #[trigger] s[k] == '<' implies k + offset < s.len()
        && s[k + offset] != c by {
        if k < a.len() {
            assert(a[k] == '<');
        } else {
            assert(b[k - a.len()] == '<');
        }
    }
}

/// A tag is found behind a text that is safe from it.
proof fn lemma_found(a: Seq<char>, pat: Seq<char>, b: Seq<char>, offset: int, c: char)
    requires
        safe(a, offset, c),
        0 <= offset < pat.len(),
        pat[0] == '<',
        pat[offset] == c,
    ensures
        split_once(a + pat + b, pat) == Some((a, b)),
{
    reveal(split_once);
    let s = a + pat + b;
    assert(s.subrange(a.len() as int, (a.len() + pat.len()) as int) =~= pat);
    assert(occurs_at(s, pat, a.len() as int));
    assert forall|k: int| 0 <= k < a.len() implies !occurs_at(s, pat, k) by {
        if occurs_at(s, pat, k) {
            let found = s.subrange(k, k + pat.len());
            assert(found[0] == s[k] && found[offset] == s[k + offset]);
            assert(a[k] == '<');
        }
    }
    lemma_first_occurrence(s, pat, a.len() as int);
    assert(s.take(a.len() as int) =~= a);
    assert(s.skip((a.len() + pat.len()) as int) =~= b);
}

/// A tag is not found in a text that is safe from it.
proof fn lemma_not_found(a: Seq<char>, pat: Seq<char>, offset: int, c: char)
    requires
        safe(a, offset, c),
        0 <= offset < pat.len(),
        pat[0] == '<',
        pat[offset] == c,
    ensures
        split_once(a, pat) is None,
{
    reveal(split_once);
    reveal(first_occurrence);
    if crate::text::occurs(a, pat) {
        let k = choose|k: int| occurs_at(a, pat, k);
        let found = a.subrange(k, k + pat.len());
        assert(found[0] == a[k] && found[offset] == a[k + offset]);
        assert(a[k] == '<');
    }
}

proof fn lemma_escaped_safe(t: Seq<char>, offset: int, c: char)
    requires
        offset >= 0,
    ensures
        safe(xml_escaped(t), offset, c),
    decreases t.len(),
{
    reveal_strlit("&amp;");
    reveal_strlit("&lt;");
    reveal_strlit("&gt;");
    if t.len() > 0 {
        lemma_escaped_safe(t.skip(1), offset, c);
        assert(safe(xml_char(t[0]), offset, c));
        lemma_safe_join(xml_char(t[0]), xml_escaped(t.skip(1)), offset, c);
    }
}

proof fn lemma_lines_safe(list: Seq<Seq<char>>, from: int, offset: int, c: char)
    requires
        0 <= from <= list.len(),
        offset >= 0,
        safe("\t\t<string>"@, offset, c),
        safe("</string>\n"@, offset, c),
    ensures
        safe(string_lines(list, from), offset, c),
    decreases list.len() - from,
{
    if from < list.len() {
        lemma_lines_safe(list, from + 1, offset, c);
        lemma_escaped_safe(list[from], offset, c);
        let a = "\t\t<string>"@ + xml_escaped(list[from]);
        lemma_safe_join("\t\t<string>"@, xml_escaped(list[from]), offset, c);
        lemma_safe_join(a, "</string>\n"@, offset, c);
        lemma_safe_join(a + "</string>\n"@, string_lines(list, from + 1), offset, c);
    }
}

/// Strings read back as they were written.
proof fn lemma_strings_back(x: Seq<char>, list: Seq<Seq<char>>, from: int, z: Seq<char>)
    requires
        0 <= from <= list.len(),
        safe(x, 1, 's'),
        safe(z, 1, 's'),
    ensures
        strings_in(x + string_lines(list, from) + z) == list.skip(from),
    decreases list.len() - from,
{
    reveal_strlit("<string>");
    reveal_strlit("</string>");
    reveal_strlit("\t\t<string>");
    reveal_strlit("</string>\n");
    let s = x + string_lines(list, from) + z;
    if from == list.len() {
        assert(s =~= x + z);
        lemma_safe_join(x, z, 1, 's');
        lemma_not_found(s, "<string>"@, 1, 's');
        assert(list.skip(from) =~= Seq::<Seq<char>>::empty());
    } else {
        let body = xml_escaped(list[from]);
        let own = body + "</string>\n"@;
        let rest = own + string_lines(list, from + 1) + z;
        let tabs = seq!['\t', '\t'];
        assert("\t\t<string>"@ =~= tabs + "<string>"@);
        assert(safe(tabs, 1, 's'));
        lemma_safe_join(x, tabs, 1, 's');
        assert(s =~= (x + tabs) + "<string>"@ + rest);
        lemma_found(x + tabs, "<string>"@, rest, 1, 's');
        lemma_escaped_safe(list[from], 1, 's');
        assert(safe("</string>\n"@, 1, 's'));
        lemma_safe_join(body, "</string>\n"@, 1, 's');
        lemma_strings_back(own, list, from + 1, z);
        let closing = seq!['\n'];
        assert("</string>\n"@ =~= "</string>"@ + closing);
        lemma_escaped_safe(list[from], 1, '/');
        law_unescaping_undoes_escaping(list[from]);
        if from + 1 == list.len() {
            assert(rest =~= own + z);
            lemma_safe_join(own, z, 1, 's');
            lemma_not_found(rest, "<string>"@, 1, 's');
            assert(rest =~= body + "</string>"@ + (closing + z));
            lemma_found(body, "</string>"@, closing + z, 1, '/');
        } else {
            let body2 = xml_escaped(list[from + 1]);
            let rest2 = body2 + "</string>\n"@ + string_lines(list, from + 2) + z;
            lemma_safe_join(own, tabs, 1, 's');
            assert(rest =~= (own + tabs) + "<string>"@ + rest2);
            lemma_found(own + tabs, "<string>"@, rest2, 1, 's');
            let piece = own + tabs;
            assert(piece =~= body + "</string>"@ + (closing + tabs));
            lemma_found(body, "</string>"@, closing + tabs, 1, '/');
        }
        assert(rest.len() < s.len());
        assert(seq![list[from]] + list.skip(from + 1) =~= list.skip(from));
    }
}

proof fn lemma_opening_safe()
    ensures
        safe(opening() + LABEL@ + naming(), 5, 'P'),
        safe(opening() + LABEL@ + naming(), 5, 'A'),
{
    reveal_strlit("<?xml version=\"1.0\" encoding=\"UTF-8\"?>\n");
    reveal_strlit(
        "<!DOCTYPE plist PUBLIC \"-//Apple//DTD PLIST 1.0//EN\" \"http://www.apple.com/DTDs/PropertyList-1.0.dtd\">\n",
    );
    reveal_strlit("<plist version=\"1.0\">\n<dict>\n\t<key>Label</key>\n\t<string>");
    reveal_strlit("io.autobahn.supervisor");
    reveal_strlit("</string>\n\t");
    let a = "<?xml version=\"1.0\" encoding=\"UTF-8\"?>\n"@;
    let b =
        "<!DOCTYPE plist PUBLIC \"-//Apple//DTD PLIST 1.0//EN\" \"http://www.apple.com/DTDs/PropertyList-1.0.dtd\">\n"@;
    let d = "<plist version=\"1.0\">\n<dict>\n\t<key>Label</key>\n\t<string>"@;
    assert(safe(a, 5, 'P') && safe(a, 5, 'A'));
    assert(safe(b, 5, 'P') && safe(b, 5, 'A'));
    assert(safe(d, 5, 'P') && safe(d, 5, 'A'));
    assert(safe(LABEL@, 5, 'P') && safe(LABEL@, 5, 'A'));
    assert(safe(naming(), 5, 'P') && safe(naming(), 5, 'A'));
    lemma_safe_join(a, b, 5, 'P');
    lemma_safe_join(a + b, d, 5, 'P');
    lemma_safe_join(opening(), LABEL@, 5, 'P');
    lemma_safe_join(opening() + LABEL@, naming(), 5, 'P');
    lemma_safe_join(a, b, 5, 'A');
    lemma_safe_join(a + b, d, 5, 'A');
    lemma_safe_join(opening(), LABEL@, 5, 'A');
    lemma_safe_join(opening() + LABEL@, naming(), 5, 'A');
}

proof fn lemma_program_back(registration: RegistrationView, log: Seq<char>)
    ensures
        split_once(plist_text(registration, log), program_key()) == Some(
            (opening() + LABEL@ + naming(), after_program(registration, log)),
        ),
        ({
            let array = "\n\t<array>\n"@ + string_lines(program(registration), 0) + "\t"@;
            &&& split_once(after_program(registration, log), "</array>"@) matches Some((found, _))
                && found == array
            &&& strings_in(array) == program(registration)
        }),
{
    reveal_strlit("<key>ProgramArguments</key>");
    reveal_strlit("</array>");
    reveal_strlit("\n\t<array>\n");
    reveal_strlit("\t");
    reveal_strlit("\t\t<string>");
    reveal_strlit("</string>\n");
    lemma_opening_safe();
    lemma_found(
        opening() + LABEL@ + naming(),
        program_key(),
        after_program(registration, log),
        5,
        'P',
    );
    let list = program(registration);
    let head = "\n\t<array>\n"@;
    let array = head + string_lines(list, 0) + "\t"@;
    assert(safe("\t\t<string>"@, 2, 'a'));
    assert(safe("</string>\n"@, 2, 'a'));
    lemma_lines_safe(list, 0, 2, 'a');
    assert(safe(head, 2, 'a'));
    lemma_safe_join(head, string_lines(list, 0), 2, 'a');
    assert(safe("\t"@, 2, 'a'));
    lemma_safe_join(head + string_lines(list, 0), "\t"@, 2, 'a');
    let behind = running() + xml_escaped(log) + logging() + xml_escaped(log) + surrounding()
        + environment_text(registration.home) + closing();
    assert(after_program(registration, log) =~= array + "</array>"@ + behind);
    lemma_found(array, "</array>"@, behind, 2, 'a');
    assert(safe(head, 1, 's'));
    assert(safe("\t"@, 1, 's'));
    lemma_strings_back(head, list, 0, "\t"@);
    assert(list.skip(0) =~= list);
}

/// All that stands before the environment is safe from the key of the state
/// root.
proof fn lemma_before_home(registration: RegistrationView, log: Seq<char>) -> (y: Seq<char>)
    ensures
        safe(y, 5, 'A'),
        plist_text(registration, log) == y + environment_text(registration.home) + closing(),
{
    reveal_strlit("<key>ProgramArguments</key>");
    reveal_strlit("</array>");
    reveal_strlit("\n\t<array>\n");
    reveal_strlit("\t");
    reveal_strlit("\t\t<string>");
    reveal_strlit("</string>\n");
    reveal_strlit(
        "\n\t<key>RunAtLoad</key>\n\t<true/>\n\t<key>KeepAlive</key>\n\t<true/>\n\t<key>StandardOutPath</key>\n\t<string>",
    );
    reveal_strlit("</string>\n\t<key>StandardErrorPath</key>\n\t<string>");
    reveal_strlit(
        "</string>\n\t<key>EnvironmentVariables</key>\n\t<dict>\n\t\t<key>PATH</key>\n\t\t<string>",
    );
    reveal_strlit("/opt/homebrew/bin:/usr/local/bin:/usr/bin:/bin:/usr/sbin:/sbin</string>\n");
    lemma_opening_safe();
    let list = program(registration);
    let place = xml_escaped(log);
    let y0 = opening() + LABEL@ + naming();
    assert(safe(program_key(), 5, 'A'));
    lemma_safe_join(y0, program_key(), 5, 'A');
    let y1 = y0 + program_key();
    assert(safe("\n\t<array>\n"@, 5, 'A'));
    lemma_safe_join(y1, "\n\t<array>\n"@, 5, 'A');
    let y2 = y1 + "\n\t<array>\n"@;
    lemma_lines_safe(list, 0, 5, 'A');
    lemma_safe_join(y2, string_lines(list, 0), 5, 'A');
    let y3 = y2 + string_lines(list, 0);
    assert(safe("\t"@, 5, 'A'));
    lemma_safe_join(y3, "\t"@, 5, 'A');
    let y4 = y3 + "\t"@;
    assert(safe("</array>"@, 5, 'A'));
    lemma_safe_join(y4, "</array>"@, 5, 'A');
    let y5 = y4 + "</array>"@;
    assert(safe(running(), 5, 'A'));
    lemma_safe_join(y5, running(), 5, 'A');
    let y6 = y5 + running();
    lemma_escaped_safe(log, 5, 'A');
    lemma_safe_join(y6, place, 5, 'A');
    let y7 = y6 + place;
    assert(safe(logging(), 5, 'A'));
    lemma_safe_join(y7, logging(), 5, 'A');
    let y8 = y7 + logging();
    lemma_safe_join(y8, place, 5, 'A');
    let y9 = y8 + place;
    let a =
        "</string>\n\t<key>EnvironmentVariables</key>\n\t<dict>\n\t\t<key>PATH</key>\n\t\t<string>"@;
    let b = "/opt/homebrew/bin:/usr/local/bin:/usr/bin:/bin:/usr/sbin:/sbin</string>\n"@;
    assert(safe(a, 5, 'A'));
    assert(safe(b, 5, 'A'));
    lemma_safe_join(a, b, 5, 'A');
    lemma_safe_join(y9, surrounding(), 5, 'A');
    let y = y9 + surrounding();
    assert(plist_text(registration, log) =~= y + environment_text(registration.home) + closing());
    y
}

proof fn lemma_home_back(registration: RegistrationView, log: Seq<char>)
    ensures
        match registration.home {
            Some(home) => split_once(plist_text(registration, log), home_key()) matches Some(
                (_, rest),
            ) && strings_in(rest) == seq![home],
            None => split_once(plist_text(registration, log), home_key()) is None,
        },
{
    reveal_strlit("<key>");
    reveal_strlit("AUTOBAHN_HOME");
    reveal_strlit("</key>");
    reveal_strlit("\t\t");
    reveal_strlit("\n");
    reveal_strlit("\t</dict>\n</dict>\n</plist>\n");
    let y = lemma_before_home(registration, log);
    let text = plist_text(registration, log);
    match registration.home {
        Some(home) => {
            let list = seq![home];
            assert(safe("\t\t"@, 5, 'A'));
            lemma_safe_join(y, "\t\t"@, 5, 'A');
            let rest = "\n"@ + string_lines(list, 0) + closing();
            assert(text =~= (y + "\t\t"@) + home_key() + rest);
            lemma_found(y + "\t\t"@, home_key(), rest, 5, 'A');
            assert(safe("\n"@, 1, 's'));
            assert(safe(closing(), 1, 's'));
            lemma_strings_back("\n"@, list, 0, closing());
            assert(list.skip(0) =~= list);
        },
        None => {
            assert(safe(closing(), 5, 'A'));
            assert(text =~= y + closing());
            lemma_safe_join(y, closing(), 5, 'A');
            lemma_not_found(text, home_key(), 5, 'A');
        },
    }
}

/// A property list reads back as the registration it was written from.
pub proof fn law_a_property_list_reads_back(registration: RegistrationView, log: Seq<char>)
    ensures
        parsed_plist(plist_text(registration, log)) == Some(registration),
{
    lemma_program_back(registration, log);
    lemma_home_back(registration, log);
    let words = program(registration);
    assert(words.skip(1) =~= registration.arguments);
}

/// Text is escaped a character at a time: an ampersand and the angle brackets
/// by their names, every other character as itself.
pub proof fn law_a_property_list_s_text_is_escaped_by_the_character(
    a: Seq<char>,
    c: char,
)
    ensures
        xml_escaped(Seq::empty()) == Seq::<char>::empty(),
        xml_escaped(seq!['&'] + a) == "&amp;"@ + xml_escaped(a),
        xml_escaped(seq!['<'] + a) == "&lt;"@ + xml_escaped(a),
        xml_escaped(seq!['>'] + a) == "&gt;"@ + xml_escaped(a),
        c != '&' && c != '<' && c != '>' ==> xml_escaped(seq![c] + a) == seq![c] + xml_escaped(a),
{
    assert((seq!['&'] + a).skip(1) =~= a);
    assert((seq!['<'] + a).skip(1) =~= a);
    assert((seq!['>'] + a).skip(1) =~= a);
    assert((seq![c] + a).skip(1) =~= a);
}

/// A property list has the service's name, the words it is started with, and
/// the log for its output and its errors; it is run when it is loaded and kept
/// alive.
pub proof fn law_a_property_list_keeps_its_service_running(
    registration: RegistrationView,
    log: Seq<char>,
)
    ensures
        exists|head: Seq<char>, tail: Seq<char>|
            plist_text(registration, log) == #[trigger] (head
                + "<key>Label</key>\n\t<string>io.autobahn.supervisor</string>\n\t<key>ProgramArguments</key>\n\t<array>\n"@
                + string_lines(seq![registration.executable] + registration.arguments, 0)
                + "\t</array>\n\t<key>RunAtLoad</key>\n\t<true/>\n\t<key>KeepAlive</key>\n\t<true/>\n\t<key>StandardOutPath</key>\n\t<string>"@
                + xml_escaped(log) + "</string>\n\t<key>StandardErrorPath</key>\n\t<string>"@
                + xml_escaped(log) + tail),
{
    let words = string_lines(seq![registration.executable] + registration.arguments, 0);
    let text = xml_escaped(log);
    let head = "<?xml version=\"1.0\" encoding=\"UTF-8\"?>\n"@
        + "<!DOCTYPE plist PUBLIC \"-//Apple//DTD PLIST 1.0//EN\" \"http://www.apple.com/DTDs/PropertyList-1.0.dtd\">\n"@
        + "<plist version=\"1.0\">\n<dict>\n\t"@;
    let tail = surrounding() + environment_text(registration.home) + closing();
    reveal_strlit("<plist version=\"1.0\">\n<dict>\n\t<key>Label</key>\n\t<string>");
    reveal_strlit("<plist version=\"1.0\">\n<dict>\n\t");
    reveal_strlit(
        "<key>Label</key>\n\t<string>io.autobahn.supervisor</string>\n\t<key>ProgramArguments</key>\n\t<array>\n",
    );
    reveal_strlit("io.autobahn.supervisor");
    reveal_strlit("</string>\n\t");
    reveal_strlit("<key>ProgramArguments</key>");
    reveal_strlit("\n\t<array>\n");
    let first = "<plist version=\"1.0\">\n<dict>\n\t<key>Label</key>\n\t<string>"@;
    let naming_text = "<key>Label</key>\n\t<string>io.autobahn.supervisor</string>\n\t<key>ProgramArguments</key>\n\t<array>\n"@;
    assert(first + LABEL@ + naming() + program_key() + "\n\t<array>\n"@
        =~= "<plist version=\"1.0\">\n<dict>\n\t"@ + naming_text);
    reveal_strlit("\t");
    reveal_strlit("</array>");
    reveal_strlit(
        "\n\t<key>RunAtLoad</key>\n\t<true/>\n\t<key>KeepAlive</key>\n\t<true/>\n\t<key>StandardOutPath</key>\n\t<string>",
    );
    reveal_strlit(
        "\t</array>\n\t<key>RunAtLoad</key>\n\t<true/>\n\t<key>KeepAlive</key>\n\t<true/>\n\t<key>StandardOutPath</key>\n\t<string>",
    );
    let run = "\t</array>\n\t<key>RunAtLoad</key>\n\t<true/>\n\t<key>KeepAlive</key>\n\t<true/>\n\t<key>StandardOutPath</key>\n\t<string>"@;
    assert("\t"@ + "</array>"@ + running() =~= run);
    lemma_plist_joined(
        "<?xml version=\"1.0\" encoding=\"UTF-8\"?>\n"@
            + "<!DOCTYPE plist PUBLIC \"-//Apple//DTD PLIST 1.0//EN\" \"http://www.apple.com/DTDs/PropertyList-1.0.dtd\">\n"@,
        registration,
        log,
        "<plist version=\"1.0\">\n<dict>\n\t"@,
        naming_text,
        run,
    );
    assert(plist_text(registration, log) == head + naming_text + words + run + text + logging()
        + text + tail);
}

proof fn lemma_plist_joined(
    lead: Seq<char>,
    registration: RegistrationView,
    log: Seq<char>,
    opened: Seq<char>,
    named: Seq<char>,
    run: Seq<char>,
)
    requires
        opening() == lead + "<plist version=\"1.0\">\n<dict>\n\t<key>Label</key>\n\t<string>"@,
        "<plist version=\"1.0\">\n<dict>\n\t<key>Label</key>\n\t<string>"@ + LABEL@ + naming()
            + program_key() + "\n\t<array>\n"@ == opened + named,
        "\t"@ + "</array>"@ + running() == run,
    ensures
        plist_text(registration, log) == lead + opened + named + string_lines(
            program(registration),
            0,
        ) + run + xml_escaped(log) + logging() + xml_escaped(log) + (surrounding()
            + environment_text(registration.home) + closing()),
{
    let x = "<plist version=\"1.0\">\n<dict>\n\t<key>Label</key>\n\t<string>"@;
    let words = string_lines(program(registration), 0);
    let text = xml_escaped(log);
    let tail = surrounding() + environment_text(registration.home) + closing();
    let a = "\n\t<array>\n"@;
    assert(after_program(registration, log) =~= a + words + ("\t"@ + "</array>"@ + running())
        + text + logging() + text + tail);
    assert(plist_text(registration, log) =~= lead + (x + LABEL@ + naming() + program_key() + a)
        + words + ("\t"@ + "</array>"@ + running()) + text + logging() + text + tail);
    assert(lead + (opened + named) + words + run + text + logging() + text + tail =~= lead + opened
        + named + words + run + text + logging() + text + tail);
}

/// Each word is a string of its own.
pub proof fn law_words_are_strings_of_their_own(list: Seq<Seq<char>>, from: int)
    requires
        0 <= from <= list.len(),
    ensures
        from < list.len() ==> string_lines(list, from) == "\t\t<string>"@ + xml_escaped(list[from])
            + "</string>\n"@ + string_lines(list, from + 1),
        from == list.len() ==> string_lines(list, from) == Seq::<char>::empty(),
{
}

} // verus!
