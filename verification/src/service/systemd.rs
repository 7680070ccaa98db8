//! The unit that systemd reads.
use crate::command::resolve::push_line;
use crate::paths::HOME_VARIABLE;
use crate::service::{Registration, RegistrationView};
use crate::text::{
    chars_of, has_prefix, is_whitespace, line_texts, lines, optional, replace, replaced,
    segments, starts_with, string_of, strings, substitute, substituted, texts, whitespace,
};
use vstd::prelude::*;
use vstd::slice::slice_subrange;

verus! {

// ---------------------------------------------------------------------------
// Quoting
// ---------------------------------------------------------------------------

/// A character as it stands in a quoted word: `%` and, but in an executable's
/// path, `$` are doubled, since systemd would expand them.
pub open spec fn escaped_char(c: char, executable: bool) -> Seq<char> {
    if c == '\\' {
        seq!['\\', '\\']
    } else if c == '"' {
        seq!['\\', '"']
    } else if c == '%' {
        seq!['%', '%']
    } else if c == '$' && !executable {
        seq!['$', '$']
    } else {
        seq![c]
    }
}

/// A text as it stands in a quoted word.
pub open spec fn escaped(t: Seq<char>, executable: bool) -> Seq<char>
    decreases t.len(),
{
    if t.len() == 0 {
        Seq::empty()
    } else {
        escaped_char(t[0], executable) + escaped(t.skip(1), executable)
    }
}

/// A quoted word.
pub open spec fn unit_quoted(t: Seq<char>, executable: bool) -> Seq<char> {
    seq!['"'] + escaped(t, executable) + seq!['"']
}

fn push_escaped(r: &mut String, text: &str, executable: bool)
    ensures
        final(r)@ == old(r)@ + escaped(text@, executable),
{
    let ghost start = r@;
    let all = chars_of(text);
    let mut i: usize = 0;
    assert(text@.skip(0) =~= text@);
    while i < all.len()
        invariant
            i <= all@.len(),
            all@ == text@,
            r@ + escaped(text@.skip(i as int), executable) == start + escaped(text@, executable),
        decreases all@.len() - i,
    {
        let c = all[i];
        let ghost before = r@;
        if c == '\\' {
            r.push('\\');
            r.push('\\');
        } else if c == '"' {
            r.push('\\');
            r.push('"');
        } else if c == '%' {
            r.push('%');
            r.push('%');
        } else if c == '$' && !executable {
            r.push('$');
            r.push('$');
        } else {
            r.push(c);
        }
        proof {
            let rest = text@.skip(i as int);
            assert(rest[0] == c);
            assert(rest.skip(1) =~= text@.skip(i + 1));
            assert(r@ =~= before + escaped_char(c, executable));
            assert(before + (escaped_char(c, executable) + escaped(text@.skip(i + 1), executable))
                =~= r@ + escaped(text@.skip(i + 1), executable));
        }
        i += 1;
    }
    assert(text@.skip(text@.len() as int) =~= Seq::<char>::empty());
    assert(r@ + Seq::<char>::empty() =~= r@);
}

/// A text as one word of a command line in a unit.
pub fn systemd_quote(text: &str, executable: bool) -> (r: String)
    ensures
        r@ == unit_quoted(text@, executable),
{
    let mut r = String::new();
    r.push('"');
    push_escaped(&mut r, text, executable);
    r.push('"');
    assert(r@ =~= unit_quoted(text@, executable));
    r
}

// ---------------------------------------------------------------------------
// Words
// ---------------------------------------------------------------------------

/// A word whose opening quote is past, and what follows its closing quote. A
/// backslash takes the character after it as it is.
pub open spec fn quoted_word(s: Seq<char>) -> (Seq<char>, Seq<char>)
    decreases s.len(),
{
    if s.len() == 0 {
        (Seq::empty(), Seq::empty())
    } else if s[0] == '"' {
        (Seq::empty(), s.skip(1))
    } else if s[0] == '\\' {
        if s.len() == 1 {
            (Seq::empty(), Seq::empty())
        } else {
            let (word, rest) = quoted_word(s.skip(2));
            (seq![s[1]] + word, rest)
        }
    } else {
        let (word, rest) = quoted_word(s.skip(1));
        (seq![s[0]] + word, rest)
    }
}

/// A word without quotes, and what follows it.
pub open spec fn bare_word(s: Seq<char>) -> (Seq<char>, Seq<char>)
    decreases s.len(),
{
    if s.len() == 0 || whitespace(s[0]) {
        (Seq::empty(), s)
    } else {
        let (word, rest) = bare_word(s.skip(1));
        (seq![s[0]] + word, rest)
    }
}

/// The words of a line, with nothing expanded.
pub open spec fn raw_words(s: Seq<char>) -> Seq<Seq<char>>
    decreases s.len(),
{
    if s.len() == 0 {
        Seq::empty()
    } else if whitespace(s[0]) {
        raw_words(s.skip(1))
    } else {
        let (word, rest) = if s[0] == '"' {
            quoted_word(s.skip(1))
        } else {
            bare_word(s)
        };
        if rest.len() < s.len() {
            seq![word] + raw_words(rest)
        } else {
            seq![word]
        }
    }
}

/// What a word stands for.
pub open spec fn unescaped(word: Seq<char>, executable: bool) -> Seq<char> {
    let once = substituted(word, "%%"@, "%"@);
    if executable {
        once
    } else {
        substituted(once, "$$"@, "$"@)
    }
}

/// The words of a line: the first as an executable's path, the others as
/// arguments.
pub open spec fn unit_words(s: Seq<char>) -> Seq<Seq<char>> {
    let words = raw_words(s);
    Seq::new(words.len(), |i: int| unescaped(words[i], i == 0))
}

proof fn lemma_quoted_length(s: Seq<char>)
    ensures
        quoted_word(s).1.len() <= s.len(),
    decreases s.len(),
{
    if s.len() > 0 {
        lemma_quoted_length(s.skip(1));
        if s.len() > 1 {
            lemma_quoted_length(s.skip(2));
        }
    }
}

proof fn lemma_bare_length(s: Seq<char>)
    ensures
        bare_word(s).1.len() <= s.len(),
        s.len() > 0 && !whitespace(s[0]) ==> bare_word(s).1.len() < s.len(),
    decreases s.len(),
{
    if s.len() > 0 {
        lemma_bare_length(s.skip(1));
    }
}

fn take_quoted(s: &[char], from: usize) -> (r: (Vec<char>, usize))
    requires
        from <= s@.len(),
    ensures
        from <= r.1 <= s@.len(),
        (r.0@, s@.skip(r.1 as int)) == quoted_word(s@.skip(from as int)),
{
    let ghost whole = quoted_word(s@.skip(from as int));
    let mut word: Vec<char> = Vec::new();
    let mut i: usize = from;
    assert(word@ + whole.0 =~= whole.0);
    while i < s.len() && s[i] != '"'
        invariant
            from <= i <= s@.len(),
            word@ + quoted_word(s@.skip(i as int)).0 == whole.0,
            quoted_word(s@.skip(i as int)).1 == whole.1,
        decreases s@.len() - i,
    {
        let ghost before = word@;
        let ghost rest = s@.skip(i as int);
        proof {
            assert(rest[0] == s@[i as int]);
            assert(rest.skip(1) =~= s@.skip(i + 1));
            if rest.len() > 1 {
                assert(rest[1] == s@[i + 1]);
                assert(rest.skip(2) =~= s@.skip(i + 2));
            }
        }
        if s[i] == '\\' {
            if i + 1 < s.len() {
                word.push(s[i + 1]);
                assert(word@ + quoted_word(s@.skip(i + 2)).0 =~= before + (seq![s@[i + 1]]
                    + quoted_word(s@.skip(i + 2)).0));
                i += 2;
            } else {
                i += 1;
                assert(s@.skip(i as int) =~= Seq::<char>::empty());
                assert(word@ + Seq::<char>::empty() =~= word@);
            }
        } else {
            word.push(s[i]);
            assert(word@ + quoted_word(s@.skip(i + 1)).0 =~= before + (seq![s@[i as int]]
                + quoted_word(s@.skip(i + 1)).0));
            i += 1;
        }
    }
    assert(word@ + Seq::<char>::empty() =~= word@);
    if i < s.len() {
        assert(s@.skip(i as int)[0] == '"');
        assert(s@.skip(i as int).skip(1) =~= s@.skip(i + 1));
        i += 1;
    } else {
        assert(s@.skip(i as int) =~= Seq::<char>::empty());
    }
    (word, i)
}

fn take_bare(s: &[char], from: usize) -> (r: (Vec<char>, usize))
    requires
        from <= s@.len(),
    ensures
        from <= r.1 <= s@.len(),
        (r.0@, s@.skip(r.1 as int)) == bare_word(s@.skip(from as int)),
{
    let ghost whole = bare_word(s@.skip(from as int));
    let mut word: Vec<char> = Vec::new();
    let mut i: usize = from;
    assert(word@ + whole.0 =~= whole.0);
    while i < s.len() && !is_whitespace(s[i])
        invariant
            from <= i <= s@.len(),
            word@ + bare_word(s@.skip(i as int)).0 == whole.0,
            bare_word(s@.skip(i as int)).1 == whole.1,
        decreases s@.len() - i,
    {
        let ghost before = word@;
        assert(s@.skip(i as int)[0] == s@[i as int]);
        assert(s@.skip(i as int).skip(1) =~= s@.skip(i + 1));
        word.push(s[i]);
        assert(word@ + bare_word(s@.skip(i + 1)).0 =~= before + (seq![s@[i as int]] + bare_word(
            s@.skip(i + 1),
        ).0));
        i += 1;
    }
    if i < s.len() {
        assert(s@.skip(i as int)[0] == s@[i as int]);
    }
    assert(word@ + Seq::<char>::empty() =~= word@);
    (word, i)
}

fn split_raw(s: &[char]) -> (r: Vec<Vec<char>>)
    ensures
        texts(r@) == raw_words(s@),
{
    let mut r: Vec<Vec<char>> = Vec::new();
    let mut i: usize = 0;
    assert(s@.skip(0) =~= s@);
    assert(texts(r@) + raw_words(s@) =~= raw_words(s@));
    while i < s.len()
        invariant
            i <= s@.len(),
            texts(r@) + raw_words(s@.skip(i as int)) == raw_words(s@),
        decreases s@.len() - i,
    {
        let ghost rest = s@.skip(i as int);
        assert(rest[0] == s@[i as int]);
        assert(rest.skip(1) =~= s@.skip(i + 1));
        if is_whitespace(s[i]) {
            i += 1;
        } else {
            proof {
                lemma_quoted_length(rest.skip(1));
                lemma_bare_length(rest);
            }
            let (word, next): (Vec<char>, usize) = if s[i] == '"' {
                take_quoted(s, i + 1)
            } else {
                take_bare(s, i)
            };
            let ghost before = texts(r@);
            let ghost added = word@;
            assert(s@.skip(next as int).len() < rest.len());
            r.push(word);
            assert(texts(r@) =~= before.push(added));
            assert(texts(r@) + raw_words(s@.skip(next as int)) =~= before + (seq![added]
                + raw_words(s@.skip(next as int))));
            i = next;
        }
    }
    assert(s@.skip(i as int) =~= Seq::<char>::empty());
    assert(texts(r@) + Seq::<Seq<char>>::empty() =~= texts(r@));
    r
}

/// The words of a command line in a unit.
pub fn systemd_words(line: &str) -> (r: Vec<String>)
    ensures
        strings(r@) == unit_words(line@),
{
    let raw = split_raw(chars_of(line).as_slice());
    let ghost words = raw_words(line@);
    let percents = chars_of("%%");
    let dollars = chars_of("$$");
    proof {
        reveal_strlit("%%");
        reveal_strlit("$$");
    }
    assert(words.len() == raw@.len());
    let mut r: Vec<String> = Vec::new();
    let mut i: usize = 0;
    while i < raw.len()
        invariant
            i <= raw@.len(),
            texts(raw@) == words,
            percents@ == "%%"@,
            dollars@ == "$$"@,
            percents@.len() == 2,
            dollars@.len() == 2,
            r@.len() == i,
            forall|k: int| 0 <= k < i ==> (#[trigger] r@[k])@ == unescaped(words[k], k == 0),
        decreases raw@.len() - i,
    {
        assert(words[i as int] == raw@[i as int]@);
        let once = substitute(raw[i].as_slice(), percents.as_slice(), "%");
        if i == 0 {
            r.push(once);
        } else {
            let once = chars_of(once.as_str());
            r.push(substitute(once.as_slice(), dollars.as_slice(), "$"));
        }
        i += 1;
    }
    assert(strings(r@) =~= unit_words(line@));
    r
}

// ---------------------------------------------------------------------------
// The unit
// ---------------------------------------------------------------------------

/// The arguments from `from` on as they stand behind an executable.
pub open spec fn arguments_text(arguments: Seq<Seq<char>>, from: int) -> Seq<char>
    decreases arguments.len() - from,
{
    if from < 0 || from >= arguments.len() {
        Seq::empty()
    } else {
        seq![' '] + unit_quoted(arguments[from], false) + arguments_text(arguments, from + 1)
    }
}

/// The lines of a unit.
pub open spec fn unit_lines(registration: RegistrationView, log: Seq<char>) -> Seq<Seq<char>> {
    let exec = "ExecStart="@ + (unit_quoted(registration.executable, true) + arguments_text(
        registration.arguments,
        0,
    ));
    let place = replaced(log, '%', "%%"@);
    let environment: Seq<Seq<char>> = match registration.home {
        Some(home) => seq![
            "Environment="@ + (seq!['"'] + (HOME_VARIABLE@ + "="@ + escaped(home, true))
                + seq!['"']),
        ],
        None => Seq::empty(),
    };
    seq![
        "[Unit]"@,
        "Description=autobahn file synchronization"@,
        "After=network-online.target"@,
        Seq::empty(),
        "[Service]"@,
        exec,
    ] + environment + seq![
        "Restart=always"@,
        "RestartSec=2"@,
        "StandardOutput=append:"@ + place,
        "StandardError=append:"@ + place,
        Seq::empty(),
        "[Install]"@,
        "WantedBy=default.target"@,
    ]
}

/// Lines, each with its end.
pub open spec fn ended(lines: Seq<Seq<char>>) -> Seq<char>
    decreases lines.len(),
{
    if lines.len() == 0 {
        Seq::empty()
    } else {
        ended(lines.drop_last()) + lines.last() + seq!['\n']
    }
}

/// Lines, each with its end.
pub fn end_lines(list: &[String]) -> (r: String)
    ensures
        r@ == ended(strings(list@)),
{
    let ghost all = strings(list@);
    let mut r = String::new();
    let mut i: usize = 0;
    assert(all.take(0) =~= Seq::<Seq<char>>::empty());
    while i < list.len()
        invariant
            i <= list@.len(),
            all == strings(list@),
            r@ == ended(all.take(i as int)),
        decreases list@.len() - i,
    {
        assert(all.take(i + 1).drop_last() =~= all.take(i as int));
        assert(all.take(i + 1).last() == list@[i as int]@);
        let ghost before = r@;
        r.append(list[i].as_str());
        r.push('\n');
        assert(r@ =~= before + list@[i as int]@ + seq!['\n']);
        i += 1;
    }
    assert(all.take(all.len() as int) =~= all);
    r
}

fn command_line(registration: &Registration) -> (r: String)
    ensures
        r@ == unit_quoted(registration.executable@, true) + arguments_text(
            strings(registration.arguments@),
            0,
        ),
{
    let ghost all = strings(registration.arguments@);
    let mut r = systemd_quote(registration.executable.as_str(), true);
    let ghost start = r@;
    let mut i: usize = 0;
    while i < registration.arguments.len()
        invariant
            i <= registration.arguments@.len(),
            all == strings(registration.arguments@),
            r@ + arguments_text(all, i as int) == start + arguments_text(all, 0),
        decreases registration.arguments@.len() - i,
    {
        let ghost before = r@;
        let word = systemd_quote(registration.arguments[i].as_str(), false);
        r.push(' ');
        r.append(word.as_str());
        assert(r@ + arguments_text(all, i + 1) =~= before + (seq![' '] + word@ + arguments_text(
            all,
            i + 1,
        )));
        i += 1;
    }
    assert(r@ + Seq::<char>::empty() =~= r@);
    r
}

/// The unit for a registration.
pub fn render_unit(registration: &Registration, log: &str) -> (r: String)
    ensures
        r@ == ended(unit_lines(registration.view(), log@)),
{
    let mut list: Vec<String> = Vec::new();
    assert(strings(list@) =~= Seq::<Seq<char>>::empty());
    push_line(&mut list, "[Unit]".to_owned());
    push_line(&mut list, "Description=autobahn file synchronization".to_owned());
    push_line(&mut list, "After=network-online.target".to_owned());
    push_line(&mut list, String::new());
    push_line(&mut list, "[Service]".to_owned());
    let mut exec = "ExecStart=".to_owned();
    let command = command_line(registration);
    exec.append(command.as_str());
    push_line(&mut list, exec);
    if let Some(home) = &registration.home {
        let mut line = "Environment=".to_owned();
        let mut word = HOME_VARIABLE.to_owned();
        word.append("=");
        push_escaped(&mut word, home.as_str(), true);
        let ghost inner = word@;
        let mut quoted = String::new();
        quoted.push('"');
        quoted.append(word.as_str());
        quoted.push('"');
        assert(quoted@ =~= seq!['"'] + inner + seq!['"']);
        line.append(quoted.as_str());
        push_line(&mut list, line);
    }
    push_line(&mut list, "Restart=always".to_owned());
    push_line(&mut list, "RestartSec=2".to_owned());
    let place = replace(chars_of(log).as_slice(), '%', "%%");
    let mut line = "StandardOutput=append:".to_owned();
    line.append(place.as_str());
    push_line(&mut list, line);
    let mut line = "StandardError=append:".to_owned();
    line.append(place.as_str());
    push_line(&mut list, line);
    push_line(&mut list, String::new());
    push_line(&mut list, "[Install]".to_owned());
    push_line(&mut list, "WantedBy=default.target".to_owned());
    assert(strings(list@) =~= unit_lines(registration.view(), log@));
    end_lines(list.as_slice())
}

/// What reading some lines of a unit has come to.
#[verifier::ext_equal]
pub struct UnitRead {
    /// Whether a command line had no word.
    pub failed: bool,
    /// The words of the command line, if one was read.
    pub command: Option<Seq<Seq<char>>>,
    /// The state root in the environment, if one was read.
    pub home: Option<Seq<char>>,
}

/// What reading one more line comes to.
pub open spec fn read_line(read: UnitRead, line: Seq<char>) -> UnitRead {
    if read.failed {
        read
    } else if has_prefix(line, "ExecStart="@) {
        let words = unit_words(line.skip(10));
        if words.len() == 0 {
            UnitRead { failed: true, ..read }
        } else {
            UnitRead { command: Some(words), ..read }
        }
    } else if has_prefix(line, "Environment="@) {
        let words = unit_words(line.skip(12));
        let lead = HOME_VARIABLE@ + "="@;
        if words.len() > 0 && has_prefix(words[0], lead) {
            UnitRead { home: Some(words[0].skip(lead.len() as int)), ..read }
        } else {
            read
        }
    } else {
        read
    }
}

/// What reading the first `n` lines of a unit comes to.
pub open spec fn read_lines(lines: Seq<Seq<char>>, n: int) -> UnitRead
    decreases n,
{
    if n <= 0 {
        UnitRead { failed: false, command: None, home: None }
    } else {
        read_line(read_lines(lines, n - 1), lines[n - 1])
    }
}

/// What a unit registers, if it can be read.
pub open spec fn parsed_unit(content: Seq<char>) -> Option<RegistrationView> {
    let lines = line_texts(content);
    let read = read_lines(lines, lines.len() as int);
    match read.command {
        Some(words) => if read.failed {
            None
        } else {
            Some(
                RegistrationView {
                    executable: words[0],
                    arguments: words.skip(1),
                    home: read.home,
                },
            )
        },
        None => None,
    }
}

proof fn lemma_failed(lines: Seq<Seq<char>>, n: int, m: int)
    requires
        0 <= n <= m,
        read_lines(lines, n).failed,
    ensures
        read_lines(lines, m).failed,
    decreases m,
{
    if n < m {
        lemma_failed(lines, n, m - 1);
    }
}

fn after(line: &[char], from: usize) -> (r: String)
    requires
        from <= line@.len(),
    ensures
        r@ == line@.skip(from as int),
{
    let rest = slice_subrange(line, from, line.len());
    assert(rest@ =~= line@.skip(from as int));
    string_of(rest)
}

/// What a unit registers: its command line, and the state root in its
/// environment. `None` where it has no command line, or one without a word.
pub fn parse_unit(content: &str) -> (r: Option<Registration>)
    ensures
        match r {
            Some(registration) => parsed_unit(content@) == Some(registration.view()),
            None => parsed_unit(content@) is None,
        },
{
    let all = lines(chars_of(content).as_slice());
    let ghost list = line_texts(content@);
    let exec = chars_of("ExecStart=");
    let environment = chars_of("Environment=");
    let mut lead = HOME_VARIABLE.to_owned();
    lead.append("=");
    let lead = chars_of(lead.as_str());
    proof {
        reveal_strlit("ExecStart=");
        reveal_strlit("Environment=");
    }
    assert(list.len() == all@.len());
    let mut command: Option<Vec<String>> = None;
    let mut home: Option<String> = None;
    let mut i: usize = 0;
    while i < all.len()
        invariant
            i <= all@.len(),
            texts(all@) == list,
            list == line_texts(content@),
            exec@ == "ExecStart="@,
            exec@.len() == 10,
            environment@ == "Environment="@,
            environment@.len() == 12,
            lead@ == HOME_VARIABLE@ + "="@,
            !read_lines(list, i as int).failed,
            match command {
                Some(words) => read_lines(list, i as int).command == Some(strings(words@))
                    && words@.len() > 0,
                None => read_lines(list, i as int).command is None,
            },
            optional(home) == read_lines(list, i as int).home,
        decreases all@.len() - i,
    {
        let line = all[i].as_slice();
        assert(line@ == list[i as int]);
        if starts_with(line, exec.as_slice()) {
            let words = systemd_words(after(line, 10).as_str());
            assert(strings(words@).len() == words@.len());
            if words.len() == 0 {
                assert(read_lines(list, i + 1).failed);
                proof {
                    lemma_failed(list, i + 1, list.len() as int);
                }
                return None;
            }
            command = Some(words);
        } else if starts_with(line, environment.as_slice()) {
            let words = systemd_words(after(line, 12).as_str());
            assert(strings(words@).len() == words@.len());
            if words.len() > 0 {
                assert(strings(words@)[0] == words@[0]@);
                let word = chars_of(words[0].as_str());
                if starts_with(word.as_slice(), lead.as_slice()) {
                    home = Some(after(word.as_slice(), lead.len()));
                }
            }
        }
        i += 1;
    }
    match command {
        Some(mut words) => {
            let ghost before = strings(words@);
            let executable = words.remove(0);
            assert(strings(words@) =~= before.skip(1));
            assert(executable@ == before[0]);
            Some(Registration { executable, arguments: words, home })
        },
        None => None,
    }
}

// ---------------------------------------------------------------------------
// Reading back what was written
// ---------------------------------------------------------------------------

/// A text with `%` and, but in an executable's path, `$` doubled.
spec fn doubled(t: Seq<char>, executable: bool) -> Seq<char>
    decreases t.len(),
{
    if t.len() == 0 {
        Seq::empty()
    } else {
        (if t[0] == '%' {
            seq!['%', '%']
        } else if t[0] == '$' && !executable {
            seq!['$', '$']
        } else {
            seq![t[0]]
        }) + doubled(t.skip(1), executable)
    }
}

/// A text with `$` doubled.
spec fn dollared(t: Seq<char>) -> Seq<char>
    decreases t.len(),
{
    if t.len() == 0 {
        Seq::empty()
    } else {
        (if t[0] == '$' {
            seq!['$', '$']
        } else {
            seq![t[0]]
        }) + dollared(t.skip(1))
    }
}

proof fn lemma_quoted_word(t: Seq<char>, executable: bool, rest: Seq<char>)
    ensures
        quoted_word(escaped(t, executable) + seq!['"'] + rest) == (doubled(t, executable), rest),
    decreases t.len(),
{
    let s = escaped(t, executable) + seq!['"'] + rest;
    if t.len() == 0 {
        assert(s =~= seq!['"'] + rest);
        assert(s.skip(1) =~= rest);
    } else {
        let more = escaped(t.skip(1), executable) + seq!['"'] + rest;
        lemma_quoted_word(t.skip(1), executable, rest);
        let c = t[0];
        let head = escaped_char(c, executable);
        assert(s =~= head + more);
        if c == '\\' || c == '"' {
            assert(s.skip(2) =~= more);
            assert(s[0] == '\\' && s[1] == c);
        } else if c == '%' || (c == '$' && !executable) {
            assert(s[0] == c && s[1] == c);
            assert(s.skip(1)[0] == c);
            assert(s.skip(1).skip(1) =~= more);
            assert(quoted_word(s.skip(1)) == (seq![c] + quoted_word(more).0, rest));
            assert(seq![c] + (seq![c] + quoted_word(more).0) =~= seq![c, c] + quoted_word(more).0);
        } else {
            assert(s[0] == c);
            assert(s.skip(1) =~= more);
        }
    }
}

proof fn lemma_halved_percents(t: Seq<char>, executable: bool)
    ensures
        substituted(doubled(t, executable), "%%"@, "%"@) == (if executable {
            t
        } else {
            dollared(t)
        }),
    decreases t.len(),
{
    reveal_strlit("%%");
    reveal_strlit("%");
    let s = doubled(t, executable);
    if t.len() > 0 {
        lemma_halved_percents(t.skip(1), executable);
        let more = doubled(t.skip(1), executable);
        let c = t[0];
        if c == '%' {
            assert(s.take(2) =~= "%%"@);
            assert(s.skip(2) =~= more);
            assert(seq![t[0]] + t.skip(1) =~= t);
        } else if c == '$' && !executable {
            assert(s[0] == '$' && s[1] == '$');
            assert(s.take(2)[0] == '$');
            assert(s.skip(1)[0] == '$');
            assert(s.skip(1).skip(1) =~= more);
            if s.skip(1).len() >= 2 {
                assert(s.skip(1).take(2)[0] == '$');
            }
            let end = substituted(more, "%%"@, "%"@);
            assert(substituted(s.skip(1), "%%"@, "%"@) == seq!['$'] + end);
            assert(seq!['$'] + (seq!['$'] + end) =~= seq!['$', '$'] + end);
        } else {
            assert(s[0] == c);
            assert(s.skip(1) =~= more);
            if s.len() >= 2 {
                assert(s.take(2)[0] == c);
            }
            assert(seq![t[0]] + t.skip(1) =~= t);
        }
    } else {
        assert(t =~= Seq::<char>::empty());
    }
}

proof fn lemma_halved_dollars(t: Seq<char>)
    ensures
        substituted(dollared(t), "$$"@, "$"@) == t,
    decreases t.len(),
{
    reveal_strlit("$$");
    reveal_strlit("$");
    let s = dollared(t);
    if t.len() > 0 {
        lemma_halved_dollars(t.skip(1));
        let more = dollared(t.skip(1));
        assert(seq![t[0]] + t.skip(1) =~= t);
        if t[0] == '$' {
            assert(s.take(2) =~= "$$"@);
            assert(s.skip(2) =~= more);
        } else {
            assert(s[0] == t[0]);
            assert(s.skip(1) =~= more);
            if s.len() >= 2 {
                assert(s.take(2)[0] == t[0]);
            }
        }
    } else {
        assert(t =~= Seq::<char>::empty());
    }
}

proof fn lemma_raw_quoted(t: Seq<char>, executable: bool, rest: Seq<char>)
    ensures
        raw_words(unit_quoted(t, executable) + rest) == seq![doubled(t, executable)] + raw_words(
            rest,
        ),
{
    let s = unit_quoted(t, executable) + rest;
    assert(s[0] == '"');
    assert(s.skip(1) =~= escaped(t, executable) + seq!['"'] + rest);
    lemma_quoted_word(t, executable, rest);
}

proof fn lemma_raw_arguments(arguments: Seq<Seq<char>>, from: int)
    requires
        0 <= from <= arguments.len(),
    ensures
        raw_words(arguments_text(arguments, from)) == Seq::new(
            (arguments.len() - from) as nat,
            |i: int| doubled(arguments[from + i], false),
        ),
    decreases arguments.len() - from,
{
    let words = Seq::new(
        (arguments.len() - from) as nat,
        |i: int| doubled(arguments[from + i], false),
    );
    if from < arguments.len() {
        lemma_raw_arguments(arguments, from + 1);
        let s = arguments_text(arguments, from);
        let rest = unit_quoted(arguments[from], false) + arguments_text(arguments, from + 1);
        assert(s[0] == ' ');
        assert(s.skip(1) =~= rest);
        lemma_raw_quoted(arguments[from], false, arguments_text(arguments, from + 1));
        assert(raw_words(s) =~= words);
    } else {
        assert(raw_words(arguments_text(arguments, from)) =~= words);
    }
}

/// A command line reads back as the words it was written from.
pub proof fn law_words_undo_quoting(executable: Seq<char>, arguments: Seq<Seq<char>>)
    ensures
        unit_words(unit_quoted(executable, true) + arguments_text(arguments, 0)) == seq![executable]
            + arguments,
{
    let s = unit_quoted(executable, true) + arguments_text(arguments, 0);
    lemma_raw_quoted(executable, true, arguments_text(arguments, 0));
    lemma_raw_arguments(arguments, 0);
    lemma_halved_percents(executable, true);
    let expected = seq![executable] + arguments;
    assert forall|i: int| 0 <= i < expected.len() implies unit_words(s)[i] == expected[i] by {
        if i > 0 {
            lemma_halved_percents(arguments[i - 1], false);
            lemma_halved_dollars(arguments[i - 1]);
        }
    }
    assert(unit_words(s) =~= expected);
}

proof fn lemma_segments_more(x: Seq<char>, t: Seq<char>, sep: char)
    requires
        !t.contains(sep),
    ensures
        segments(x + t, sep) == segments(x, sep).drop_last().push(segments(x, sep).last() + t),
    decreases t.len(),
{
    crate::text::lemma_segments_nonempty(x, sep);
    let parts = segments(x, sep);
    if t.len() == 0 {
        assert(x + t =~= x);
        assert(parts.last() + t =~= parts.last());
        assert(parts.drop_last().push(parts.last()) =~= parts);
    } else {
        let front = t.drop_last();
        assert(!front.contains(sep)) by {
            if front.contains(sep) {
                let k = choose|k: int| 0 <= k < front.len() && front[k] == sep;
                assert(t[k] == sep);
            }
        }
        lemma_segments_more(x, front, sep);
        assert((x + t).drop_last() =~= x + front);
        assert((x + t).last() == t.last());
        assert(t[t.len() - 1] == t.last());
        let before = segments(x + front, sep);
        assert(before.drop_last() =~= parts.drop_last());
        assert((parts.last() + front).push(t.last()) =~= parts.last() + t);
    }
}

/// Whether a line can stand in a text: it holds no end of line.
spec fn plain_line(line: Seq<char>) -> bool {
    !line.contains('\n') && (line.len() > 0 ==> line.last() != '\r')
}

proof fn lemma_line_segments(list: Seq<Seq<char>>)
    requires
        forall|i: int| 0 <= i < list.len() ==> plain_line(#[trigger] list[i]),
    ensures
        segments(ended(list), '\n') == list.push(Seq::empty()),
    decreases list.len(),
{
    if list.len() == 0 {
        assert(segments(ended(list), '\n') =~= list.push(Seq::empty()));
    } else {
        let front = list.drop_last();
        assert forall|i: int| 0 <= i < front.len() implies plain_line(#[trigger] front[i]) by {
            assert(plain_line(list[i]));
        }
        lemma_line_segments(front);
        assert(plain_line(list[list.len() - 1]));
        let x = ended(front);
        lemma_segments_more(x, list.last(), '\n');
        let s = ended(list);
        assert(s.drop_last() =~= x + list.last());
        assert(s.last() == '\n');
        assert(front.push(Seq::<char>::empty()).drop_last() =~= front);
        assert(Seq::<char>::empty() + list.last() =~= list.last());
        assert(front.push(list.last()) =~= list);
    }
}

/// Lines read back as the lines they were written from.
proof fn lemma_lines_back(list: Seq<Seq<char>>)
    requires
        forall|i: int| 0 <= i < list.len() ==> plain_line(#[trigger] list[i]),
    ensures
        line_texts(ended(list)) == list,
{
    lemma_line_segments(list);
    let parts = segments(ended(list), '\n');
    assert(parts.last() =~= Seq::<char>::empty());
    assert forall|i: int| 0 <= i < list.len() implies crate::text::without_return(parts[i])
        == list[i] by {
        assert(plain_line(list[i]));
    }
    assert(line_texts(ended(list)) =~= list);
}

proof fn lemma_escaped_plain(t: Seq<char>, executable: bool)
    requires
        !crate::text::has_control(t),
    ensures
        !crate::text::has_control(escaped(t, executable)),
    decreases t.len(),
{
    if t.len() > 0 {
        let more = t.skip(1);
        assert(!crate::text::has_control(more)) by {
            if crate::text::has_control(more) {
                let k = choose|k: int| 0 <= k < more.len() && crate::text::control(more[k]);
                assert(crate::text::control(t[k + 1]));
            }
        }
        lemma_escaped_plain(more, executable);
        assert(!crate::text::control(t[0]));
        let head = escaped_char(t[0], executable);
        let rest = escaped(more, executable);
        let s = escaped(t, executable);
        assert forall|k: int| 0 <= k < s.len() implies !crate::text::control(s[k]) by {
            if k >= head.len() {
                assert(!crate::text::control(rest[k - head.len()]));
            }
        }
    }
}

proof fn lemma_joined_plain(a: Seq<char>, b: Seq<char>)
    requires
        !crate::text::has_control(a),
        !crate::text::has_control(b),
    ensures
        !crate::text::has_control(a + b),
{
    let s = a + b;
    assert forall|k: int| 0 <= k < s.len() implies !crate::text::control(s[k]) by {
        if k < a.len() {
            assert(!crate::text::control(a[k]));
        } else {
            assert(!crate::text::control(b[k - a.len()]));
        }
    }
}

proof fn lemma_plain_line(s: Seq<char>)
    requires
        !crate::text::has_control(s),
    ensures
        plain_line(s),
{
    assert(crate::text::control('\n') && crate::text::control('\r'));
    if s.contains('\n') {
        let k = choose|k: int| 0 <= k < s.len() && s[k] == '\n';
        assert(crate::text::control(s[k]));
    }
    if s.len() > 0 && s.last() == '\r' {
        assert(crate::text::control(s[s.len() - 1]));
    }
}

proof fn lemma_quoted_plain(t: Seq<char>, executable: bool)
    requires
        !crate::text::has_control(t),
    ensures
        !crate::text::has_control(unit_quoted(t, executable)),
{
    lemma_escaped_plain(t, executable);
    lemma_joined_plain(seq!['"'], escaped(t, executable));
    lemma_joined_plain(seq!['"'] + escaped(t, executable), seq!['"']);
}

proof fn lemma_arguments_plain(arguments: Seq<Seq<char>>, from: int)
    requires
        0 <= from <= arguments.len(),
        forall|i: int|
            0 <= i < arguments.len() ==> !crate::text::has_control(#[trigger] arguments[i]),
    ensures
        !crate::text::has_control(arguments_text(arguments, from)),
    decreases arguments.len() - from,
{
    if from < arguments.len() {
        lemma_arguments_plain(arguments, from + 1);
        assert(!crate::text::has_control(arguments[from]));
        lemma_quoted_plain(arguments[from], false);
        lemma_joined_plain(seq![' '], unit_quoted(arguments[from], false));
        lemma_joined_plain(
            seq![' '] + unit_quoted(arguments[from], false),
            arguments_text(arguments, from + 1),
        );
    }
}

proof fn lemma_replaced_plain(s: Seq<char>)
    requires
        !crate::text::has_control(s),
    ensures
        !crate::text::has_control(replaced(s, '%', "%%"@)),
    decreases s.len(),
{
    reveal_strlit("%%");
    if s.len() > 0 {
        let front = s.drop_last();
        assert(!crate::text::has_control(front)) by {
            if crate::text::has_control(front) {
                let k = choose|k: int| 0 <= k < front.len() && crate::text::control(front[k]);
                assert(crate::text::control(s[k]));
            }
        }
        lemma_replaced_plain(front);
        assert(!crate::text::control(s[s.len() - 1]));
        lemma_joined_plain(replaced(front, '%', "%%"@), "%%"@);
        lemma_joined_plain(replaced(front, '%', "%%"@), seq![s.last()]);
        assert(replaced(front, '%', "%%"@).push(s.last()) =~= replaced(front, '%', "%%"@)
            + seq![s.last()]);
    }
}

proof fn lemma_idle(read: UnitRead, line: Seq<char>)
    requires
        line.len() == 0 || line[0] != 'E',
    ensures
        read_line(read, line) == read,
{
    reveal_strlit("ExecStart=");
    reveal_strlit("Environment=");
    if line.len() >= 10 {
        assert(line.take(10)[0] == line[0]);
    }
    if line.len() >= 12 {
        assert(line.take(12)[0] == line[0]);
    }
}

proof fn lemma_reads_exec(read: UnitRead, registration: RegistrationView)
    requires
        !read.failed,
    ensures
        read_line(
            read,
            "ExecStart="@ + (unit_quoted(registration.executable, true) + arguments_text(
                registration.arguments,
                0,
            )),
        ) == (UnitRead {
            command: Some(seq![registration.executable] + registration.arguments),
            ..read
        }),
{
    reveal_strlit("ExecStart=");
    let command = unit_quoted(registration.executable, true) + arguments_text(
        registration.arguments,
        0,
    );
    let line = "ExecStart="@ + command;
    assert(line.take(10) =~= "ExecStart="@);
    assert(line.skip(10) =~= command);
    law_words_undo_quoting(registration.executable, registration.arguments);
}

proof fn lemma_lead_escaped(lead: Seq<char>, t: Seq<char>)
    requires
        forall|i: int|
            0 <= i < lead.len() ==> (#[trigger] lead[i]) != '\\' && lead[i] != '"' && lead[i]
                != '%',
    ensures
        escaped(lead + t, true) == lead + escaped(t, true),
    decreases lead.len(),
{
    if lead.len() == 0 {
        assert(lead + t =~= t);
        assert(lead + escaped(t, true) =~= escaped(t, true));
    } else {
        let s = lead + t;
        assert(s[0] == lead[0]);
        assert(s.skip(1) =~= lead.skip(1) + t);
        assert forall|i: int| 0 <= i < lead.skip(1).len() implies (#[trigger] lead.skip(1)[i])
            != '\\' && lead.skip(1)[i] != '"' && lead.skip(1)[i] != '%' by {
            assert(lead[i + 1] != '\\');
        }
        lemma_lead_escaped(lead.skip(1), t);
        assert(seq![lead[0]] + (lead.skip(1) + escaped(t, true)) =~= lead + escaped(t, true));
    }
}

proof fn lemma_reads_home(read: UnitRead, home: Seq<char>)
    requires
        !read.failed,
    ensures
        read_line(
            read,
            "Environment="@ + (seq!['"'] + (HOME_VARIABLE@ + "="@ + escaped(home, true))
                + seq!['"']),
        ) == (UnitRead { home: Some(home), ..read }),
{
    reveal_strlit("ExecStart=");
    reveal_strlit("Environment=");
    reveal_strlit("AUTOBAHN_HOME");
    reveal_strlit("=");
    let lead = HOME_VARIABLE@ + "="@;
    let word = seq!['"'] + (lead + escaped(home, true)) + seq!['"'];
    let line = "Environment="@ + word;
    assert(line.take(12) =~= "Environment="@);
    assert(line.skip(12) =~= word);
    assert(line.take(10)[1] == 'n');
    lemma_lead_escaped(lead, home);
    assert(word =~= unit_quoted(lead + home, true));
    law_words_undo_quoting(lead + home, Seq::empty());
    assert(arguments_text(Seq::<Seq<char>>::empty(), 0) =~= Seq::<char>::empty());
    assert(word + Seq::<char>::empty() =~= word);
    let words = unit_words(word);
    assert(words[0] == lead + home);
    assert((lead + home).take(lead.len() as int) =~= lead);
    assert((lead + home).skip(lead.len() as int) =~= home);
}

/// No text of what can be written down holds a control character.
proof fn lemma_carriable(registration: RegistrationView, log: Seq<char>)
    requires
        crate::service::carriable(registration, log),
    ensures
        !crate::text::has_control(registration.executable),
        !crate::text::has_control(log),
        forall|i: int|
            0 <= i < registration.arguments.len() ==> !crate::text::has_control(
                #[trigger] registration.arguments[i],
            ),
        registration.home matches Some(home) ==> !crate::text::has_control(home),
{
    let all = crate::service::registration_texts(registration, log);
    lemma_none(all, 0);
    assert(!crate::text::has_control(all[0].1));
    assert(!crate::text::has_control(all[1].1));
    assert forall|i: int| 0 <= i < registration.arguments.len() implies !crate::text::has_control(
        #[trigger] registration.arguments[i],
    ) by {
        assert(!crate::text::has_control(all[2 + i].1));
    }
    if registration.home is Some {
        assert(!crate::text::has_control(all[all.len() - 1].1));
    }
}

proof fn lemma_none(all: Seq<(Seq<char>, Seq<char>)>, from: int)
    requires
        0 <= from <= all.len(),
        crate::service::first_control(all, from) is None,
    ensures
        forall|i: int|
            from <= i < all.len() ==> !crate::text::has_control((#[trigger] all[i]).1),
    decreases all.len() - from,
{
    if from < all.len() {
        lemma_none(all, from + 1);
    }
}

proof fn lemma_unit_plain(registration: RegistrationView, log: Seq<char>)
    requires
        crate::service::carriable(registration, log),
    ensures
        forall|i: int|
            0 <= i < unit_lines(registration, log).len() ==> plain_line(
                #[trigger] unit_lines(registration, log)[i],
            ),
{
    lemma_carriable(registration, log);
    let list = unit_lines(registration, log);
    reveal_strlit("[Unit]");
    reveal_strlit("Description=autobahn file synchronization");
    reveal_strlit("After=network-online.target");
    reveal_strlit("[Service]");
    reveal_strlit("ExecStart=");
    reveal_strlit("Environment=");
    reveal_strlit("AUTOBAHN_HOME");
    reveal_strlit("=");
    reveal_strlit("Restart=always");
    reveal_strlit("RestartSec=2");
    reveal_strlit("StandardOutput=append:");
    reveal_strlit("StandardError=append:");
    reveal_strlit("[Install]");
    reveal_strlit("WantedBy=default.target");
    let command = unit_quoted(registration.executable, true) + arguments_text(
        registration.arguments,
        0,
    );
    lemma_quoted_plain(registration.executable, true);
    lemma_arguments_plain(registration.arguments, 0);
    lemma_joined_plain(
        unit_quoted(registration.executable, true),
        arguments_text(registration.arguments, 0),
    );
    lemma_joined_plain("ExecStart="@, command);
    lemma_plain_line("ExecStart="@ + command);
    if let Some(home) = registration.home {
        lemma_escaped_plain(home, true);
        lemma_joined_plain(HOME_VARIABLE@, "="@);
        lemma_joined_plain(HOME_VARIABLE@ + "="@, escaped(home, true));
        let inner = HOME_VARIABLE@ + "="@ + escaped(home, true);
        lemma_joined_plain(seq!['"'], inner);
        lemma_joined_plain(seq!['"'] + inner, seq!['"']);
        lemma_joined_plain("Environment="@, seq!['"'] + inner + seq!['"']);
        lemma_plain_line("Environment="@ + (seq!['"'] + inner + seq!['"']));
    }
    let place = replaced(log, '%', "%%"@);
    lemma_replaced_plain(log);
    lemma_joined_plain("StandardOutput=append:"@, place);
    lemma_plain_line("StandardOutput=append:"@ + place);
    lemma_joined_plain("StandardError=append:"@, place);
    lemma_plain_line("StandardError=append:"@ + place);
    lemma_plain_line("[Unit]"@);
    lemma_plain_line("Description=autobahn file synchronization"@);
    lemma_plain_line("After=network-online.target"@);
    lemma_plain_line("[Service]"@);
    lemma_plain_line("Restart=always"@);
    lemma_plain_line("RestartSec=2"@);
    lemma_plain_line("[Install]"@);
    lemma_plain_line("WantedBy=default.target"@);
    lemma_plain_line(Seq::empty());
}

/// A unit reads back as the registration it was written from.
pub proof fn law_a_unit_reads_back(registration: RegistrationView, log: Seq<char>)
    requires
        crate::service::carriable(registration, log),
    ensures
        parsed_unit(ended(unit_lines(registration, log))) == Some(registration),
{
    let list = unit_lines(registration, log);
    lemma_unit_plain(registration, log);
    lemma_lines_back(list);
    reveal_strlit("[Unit]");
    reveal_strlit("Description=autobahn file synchronization");
    reveal_strlit("After=network-online.target");
    reveal_strlit("[Service]");
    reveal_strlit("Restart=always");
    reveal_strlit("RestartSec=2");
    reveal_strlit("StandardOutput=append:");
    reveal_strlit("StandardError=append:");
    reveal_strlit("[Install]");
    reveal_strlit("WantedBy=default.target");
    let none = UnitRead { failed: false, command: None, home: None };
    let words = seq![registration.executable] + registration.arguments;
    assert(words.skip(1) =~= registration.arguments);
    assert(read_lines(list, 0) == none);
    lemma_idle(none, list[0]);
    assert(read_lines(list, 1) == none);
    lemma_idle(none, list[1]);
    assert(read_lines(list, 2) == none);
    lemma_idle(none, list[2]);
    assert(read_lines(list, 3) == none);
    lemma_idle(none, list[3]);
    assert(read_lines(list, 4) == none);
    lemma_idle(none, list[4]);
    assert(read_lines(list, 5) == none);
    lemma_reads_exec(none, registration);
    let first = UnitRead { command: Some(words), ..none };
    assert(read_lines(list, 6) == first);
    let at: int = if registration.home is Some {
        7
    } else {
        6
    };
    let second = UnitRead { home: registration.home, ..first };
    if let Some(home) = registration.home {
        lemma_reads_home(first, home);
    }
    assert(read_lines(list, at) == second);
    lemma_idle(second, list[at]);
    assert(read_lines(list, at + 1) == second);
    lemma_idle(second, list[at + 1]);
    assert(read_lines(list, at + 2) == second);
    lemma_idle(second, list[at + 2]);
    assert(read_lines(list, at + 3) == second);
    lemma_idle(second, list[at + 3]);
    assert(read_lines(list, at + 4) == second);
    lemma_idle(second, list[at + 4]);
    assert(read_lines(list, at + 5) == second);
    lemma_idle(second, list[at + 5]);
    assert(read_lines(list, at + 6) == second);
    lemma_idle(second, list[at + 6]);
    assert(read_lines(list, at + 7) == second);
    assert(list.len() == at + 7);
}

/// What an added line that says nothing leaves as it was.
proof fn lemma_line_added(lines: Seq<Seq<char>>, at: int, line: Seq<char>, n: int)
    requires
        0 <= at <= lines.len(),
        at <= n <= lines.len(),
        forall|read: UnitRead| #[trigger] read_line(read, line) == read,
    ensures
        read_lines(lines.insert(at, line), n + 1) == read_lines(lines, n),
    decreases n,
{
    let all = lines.insert(at, line);
    if n == at {
        lemma_lines_before(lines, at, line, n);
        assert(all[n] == line);
    } else {
        lemma_line_added(lines, at, line, n - 1);
        assert(all[n] == lines[n - 1]);
    }
}

proof fn lemma_lines_before(lines: Seq<Seq<char>>, at: int, line: Seq<char>, n: int)
    requires
        0 <= n <= at <= lines.len(),
    ensures
        read_lines(lines.insert(at, line), n) == read_lines(lines, n),
    decreases n,
{
    if n > 0 {
        lemma_lines_before(lines, at, line, n - 1);
        assert(lines.insert(at, line)[n - 1] == lines[n - 1]);
    }
}

/// A line that sets nothing in the environment, wherever it is added, leaves a
/// unit readable as the registration it was written from.
pub proof fn law_an_empty_environment_changes_nothing(
    registration: RegistrationView,
    log: Seq<char>,
    at: int,
)
    requires
        crate::service::carriable(registration, log),
        0 <= at <= unit_lines(registration, log).len(),
    ensures
        parsed_unit(ended(unit_lines(registration, log).insert(at, "Environment="@))) == Some(
            registration,
        ),
{
    let list = unit_lines(registration, log);
    let line = "Environment="@;
    let all = list.insert(at, line);
    reveal_strlit("ExecStart=");
    reveal_strlit("Environment=");
    lemma_unit_plain(registration, log);
    lemma_plain_line(line);
    assert forall|i: int| 0 <= i < all.len() implies plain_line(#[trigger] all[i]) by {
        if i < at {
            assert(all[i] == list[i]);
        } else if i > at {
            assert(all[i] == list[i - 1]);
        }
    }
    lemma_lines_back(list);
    lemma_lines_back(all);
    assert(line.take(10)[1] == 'n');
    assert(line.skip(12) =~= Seq::<char>::empty());
    assert(unit_words(Seq::<char>::empty()).len() == 0);
    lemma_line_added(list, at, line, list.len() as int);
    law_a_unit_reads_back(registration, log);
}

/// Text is escaped a character at a time, so that what one becomes does not
/// depend on those around it.
pub proof fn law_a_unit_s_text_is_escaped_by_the_character(
    a: Seq<char>,
    b: Seq<char>,
    executable: bool,
)
    ensures
        escaped(a + b, executable) == escaped(a, executable) + escaped(b, executable),
        escaped(Seq::empty(), executable) == Seq::<char>::empty(),
    decreases a.len(),
{
    if a.len() == 0 {
        assert(a + b =~= b);
        assert(escaped(a, executable) + escaped(b, executable) =~= escaped(b, executable));
    } else {
        assert((a + b)[0] == a[0]);
        assert((a + b).skip(1) =~= a.skip(1) + b);
        law_a_unit_s_text_is_escaped_by_the_character(a.skip(1), b, executable);
        assert(escaped(a + b, executable) =~= escaped(a, executable) + escaped(b, executable));
    }
}

/// A backslash and a quote are escaped by a backslash, a percent sign by
/// another, and a dollar by another in an argument alone; every other
/// character stands for itself.
pub proof fn law_what_systemd_reads_is_escaped(c: char, executable: bool)
    ensures
        escaped(seq!['\\'], executable) == seq!['\\', '\\'],
        escaped(seq!['"'], executable) == seq!['\\', '"'],
        escaped(seq!['%'], executable) == seq!['%', '%'],
        escaped(seq!['$'], false) == seq!['$', '$'],
        escaped(seq!['$'], true) == seq!['$'],
        c != '\\' && c != '"' && c != '%' && c != '$' ==> escaped(seq![c], executable) == seq![c],
{
    lemma_one_escaped('\\', executable);
    lemma_one_escaped('"', executable);
    lemma_one_escaped('%', executable);
    lemma_one_escaped('$', false);
    lemma_one_escaped('$', true);
    lemma_one_escaped(c, executable);
}

/// A unit starts the executable, in its section, with each word quoted; it is
/// restarted whenever it ends, two seconds later, writes its output and its
/// errors to the log, and is wanted once the user is logged in.
pub proof fn law_a_unit_keeps_its_service_running(registration: RegistrationView, log: Seq<char>)
    requires
        !log.contains('%'),
    ensures
        ({
            let lines = unit_lines(registration, log);
            let n = lines.len() as int;
            &&& lines[0] == "[Unit]"@
            &&& lines[4] == "[Service]"@
            &&& lines[5] == "ExecStart="@ + (unit_quoted(registration.executable, true)
                + arguments_text(registration.arguments, 0))
            &&& registration.home is None ==> n == 13
            &&& registration.home matches Some(home) ==> n == 14 && lines[6] == "Environment="@ + (
            seq!['"'] + (HOME_VARIABLE@ + "="@ + escaped(home, true)) + seq!['"'])
            &&& lines[n - 7] == "Restart=always"@
            &&& lines[n - 6] == "RestartSec=2"@
            &&& lines[n - 5] == "StandardOutput=append:"@ + log
            &&& lines[n - 4] == "StandardError=append:"@ + log
            &&& lines[n - 2] == "[Install]"@
            &&& lines[n - 1] == "WantedBy=default.target"@
        }),
{
    lemma_nothing_replaced(log);
}

proof fn lemma_nothing_replaced(s: Seq<char>)
    requires
        !s.contains('%'),
    ensures
        replaced(s, '%', "%%"@) == s,
    decreases s.len(),
{
    if s.len() > 0 {
        let front = s.drop_last();
        assert(s.contains(s[s.len() - 1]));
        assert forall|c: char| #[trigger] front.contains(c) implies s.contains(c) by {
            let i = choose|i: int| 0 <= i < front.len() && front[i] == c;
            assert(s[i] == c);
        }
        lemma_nothing_replaced(front);
        assert(replaced(s, '%', "%%"@) =~= s);
    } else {
        assert(replaced(s, '%', "%%"@) =~= s);
    }
}

/// Each argument is a word of its own, quoted, behind a space.
pub proof fn law_arguments_are_words_of_their_own(arguments: Seq<Seq<char>>, from: int)
    requires
        0 <= from <= arguments.len(),
    ensures
        from < arguments.len() ==> arguments_text(arguments, from) == seq![' ', '"'] + escaped(
            arguments[from],
            false,
        ) + seq!['"'] + arguments_text(arguments, from + 1),
        from == arguments.len() ==> arguments_text(arguments, from) == Seq::<char>::empty(),
{
    if from < arguments.len() {
        assert(arguments_text(arguments, from) =~= seq![' ', '"'] + escaped(arguments[from], false)
            + seq!['"'] + arguments_text(arguments, from + 1));
    }
}

proof fn lemma_one_escaped(c: char, executable: bool)
    ensures
        escaped(seq![c], executable) == escaped_char(c, executable),
{
    assert(seq![c].skip(1) =~= Seq::empty());
    assert(escaped(seq![c].skip(1), executable) =~= Seq::empty());
    assert(escaped(seq![c], executable) =~= escaped_char(c, executable));
}

} // verus!
