//! The scrollable live display: what fits on the screen, and what keys do.
use crate::text::{chars_of, decimal, decimal_text, string_of, strings};
use vstd::prelude::*;

verus! {

// ---------------------------------------------------------------------------
// Lines
// ---------------------------------------------------------------------------

/// Whether a character ends an escape sequence.
pub open spec fn ends_escape(c: char) -> bool {
    'A' <= c <= 'Z' || 'a' <= c <= 'z'
}

/// How many characters an escape sequence has whose first is at `from` or
/// before: up to and with the one that ends it, or all there are.
pub open spec fn escape_end(s: Seq<char>, from: int) -> int
    decreases s.len() - from,
{
    if from < 0 || from >= s.len() {
        s.len() as int
    } else if ends_escape(s[from]) {
        from + 1
    } else {
        escape_end(s, from + 1)
    }
}

pub proof fn lemma_escape_end(s: Seq<char>, from: int)
    requires
        0 <= from <= s.len(),
    ensures
        from <= escape_end(s, from) <= s.len(),
        from < s.len() ==> from < escape_end(s, from),
    decreases s.len() - from,
{
    if from < s.len() && !ends_escape(s[from]) {
        lemma_escape_end(s, from + 1);
    }
}

/// What of a line is seen: all but its escape sequences.
pub open spec fn seen(s: Seq<char>) -> Seq<char>
    decreases s.len(),
{
    if s.len() == 0 {
        Seq::empty()
    } else if s[0] == '\x1b' {
        let e = escape_end(s, 1);
        if 0 < e <= s.len() {
            seen(s.skip(e))
        } else {
            Seq::empty()
        }
    } else {
        seq![s[0]] + seen(s.skip(1))
    }
}

/// The escape sequences before the first character that is seen.
pub open spec fn unseen_lead(s: Seq<char>) -> Seq<char>
    decreases s.len(),
{
    if s.len() == 0 || s[0] != '\x1b' {
        Seq::empty()
    } else {
        let e = escape_end(s, 1);
        if 0 < e <= s.len() {
            s.take(e) + unseen_lead(s.skip(e))
        } else {
            Seq::empty()
        }
    }
}

/// A line cut to a width. Escape sequences take no room and stay whole; where
/// something is dropped, a mark stands in the last column and colours end.
pub open spec fn truncated(s: Seq<char>, columns: int) -> Seq<char>
    decreases s.len(),
{
    if s.len() == 0 {
        Seq::empty()
    } else if s[0] == '\x1b' {
        let e = escape_end(s, 1);
        if 0 < e <= s.len() {
            s.take(e) + truncated(s.skip(e), columns)
        } else {
            Seq::empty()
        }
    } else if columns <= 0 {
        "\x1b[0m"@
    } else if columns == 1 && seen(s.skip(1)).len() > 0 {
        seq!['…'] + unseen_lead(s.skip(1)) + "\x1b[0m"@
    } else {
        seq![s[0]] + truncated(s.skip(1), columns - 1)
    }
}

fn find_escape_end(s: &[char], from: usize) -> (e: usize)
    requires
        from <= s@.len(),
    ensures
        e == escape_end(s@, from as int),
        from <= e <= s@.len(),
{
    let mut e: usize = from;
    while e < s.len()
        invariant
            from <= e <= s@.len(),
            escape_end(s@, from as int) == escape_end(s@, e as int),
        decreases s@.len() - e,
    {
        let c = s[e];
        if ('A' <= c && c <= 'Z') || ('a' <= c && c <= 'z') {
            return e + 1;
        }
        e += 1;
    }
    e
}

proof fn lemma_escape_shift(s: Seq<char>, i: int, from: int)
    requires
        0 <= i <= from <= s.len(),
    ensures
        escape_end(s.skip(i), from - i) == escape_end(s, from) - i,
    decreases s.len() - from,
{
    if from < s.len() {
        assert(s.skip(i)[from - i] == s[from]);
        if !ends_escape(s[from]) {
            lemma_escape_shift(s, i, from + 1);
        }
    }
}

fn next_seen(s: &[char], from: usize) -> (r: (bool, usize))
    requires
        from <= s@.len(),
    ensures
        from <= r.1 <= s@.len(),
        r.0 == (seen(s@.skip(from as int)).len() > 0),
        s@.subrange(from as int, r.1 as int) == unseen_lead(s@.skip(from as int)),
{
    let mut i: usize = from;
    assert(s@.subrange(from as int, from as int) =~= Seq::<char>::empty());
    assert(Seq::<char>::empty() + unseen_lead(s@.skip(from as int)) =~= unseen_lead(
        s@.skip(from as int),
    ));
    while i < s.len() && s[i] == '\x1b'
        invariant
            from <= i <= s@.len(),
            (seen(s@.skip(i as int)).len() > 0) == (seen(s@.skip(from as int)).len() > 0),
            s@.subrange(from as int, i as int) + unseen_lead(s@.skip(i as int)) == unseen_lead(
                s@.skip(from as int),
            ),
        decreases s@.len() - i,
    {
        let e = find_escape_end(s, i + 1);
        proof {
            lemma_escape_shift(s@, i as int, i + 1);
            let rest = s@.skip(i as int);
            assert(rest[0] == '\x1b');
            assert(rest.skip(e - i) =~= s@.skip(e as int));
            assert(s@.subrange(from as int, i as int) + (rest.take(e - i) + unseen_lead(
                s@.skip(e as int),
            )) =~= s@.subrange(from as int, e as int) + unseen_lead(s@.skip(e as int)));
        }
        i = e;
    }
    let found = i < s.len();
    proof {
        let rest = s@.skip(i as int);
        if found {
            assert(rest[0] == s@[i as int]);
        } else {
            assert(rest =~= Seq::<char>::empty());
        }
        assert(s@.subrange(from as int, i as int) + Seq::<char>::empty() =~= s@.subrange(
            from as int,
            i as int,
        ));
    }
    (found, i)
}

fn push_all(out: &mut Vec<char>, s: &[char], from: usize, to: usize)
    requires
        from <= to <= s@.len(),
    ensures
        final(out)@ == old(out)@ + s@.subrange(from as int, to as int),
{
    let ghost start = out@;
    let mut i: usize = from;
    assert(start + s@.subrange(from as int, from as int) =~= start);
    while i < to
        invariant
            from <= i <= to <= s@.len(),
            out@ == start + s@.subrange(from as int, i as int),
        decreases to - i,
    {
        out.push(s[i]);
        assert(out@ =~= start + s@.subrange(from as int, i + 1));
        i += 1;
    }
}

/// A line cut to a width.
pub fn truncate(line: &str, columns: usize) -> (r: String)
    ensures
        r@ == truncated(line@, columns as int),
{
    let s = chars_of(line);
    let s = s.as_slice();
    let reset = chars_of("\x1b[0m");
    let mut out: Vec<char> = Vec::new();
    let mut left: usize = columns;
    let mut i: usize = 0;
    assert(s@.skip(0) =~= s@);
    assert(out@ + truncated(s@, columns as int) =~= truncated(s@, columns as int));
    while i < s.len()
        invariant
            i <= s@.len(),
            s@ == line@,
            reset@ == "\x1b[0m"@,
            out@ + truncated(s@.skip(i as int), left as int) == truncated(line@, columns as int),
        decreases s@.len() - i,
    {
        let ghost rest = s@.skip(i as int);
        let ghost before = out@;
        assert(rest[0] == s@[i as int]);
        assert(rest.skip(1) =~= s@.skip(i + 1));
        if s[i] == '\x1b' {
            let e = find_escape_end(s, i + 1);
            push_all(&mut out, s, i, e);
            proof {
                lemma_escape_shift(s@, i as int, i + 1);
                assert(rest.take(e - i) =~= s@.subrange(i as int, e as int));
                assert(rest.skip(e - i) =~= s@.skip(e as int));
                assert(before + (rest.take(e - i) + truncated(s@.skip(e as int), left as int))
                    =~= out@ + truncated(s@.skip(e as int), left as int));
            }
            i = e;
        } else if left == 0 {
            push_all(&mut out, reset.as_slice(), 0, reset.len());
            assert(reset@.subrange(0, reset@.len() as int) =~= "\x1b[0m"@);
            return string_of(out.as_slice());
        } else {
            if left == 1 {
                let (more, next) = next_seen(s, i + 1);
                if more {
                    out.push('…');
                    push_all(&mut out, s, i + 1, next);
                    push_all(&mut out, reset.as_slice(), 0, reset.len());
                    assert(reset@.subrange(0, reset@.len() as int) =~= "\x1b[0m"@);
                    assert(out@ =~= before + (seq!['…'] + unseen_lead(rest.skip(1))
                        + "\x1b[0m"@));
                    return string_of(out.as_slice());
                }
            }
            out.push(s[i]);
            assert(before + (seq![rest[0]] + truncated(rest.skip(1), left - 1)) =~= out@
                + truncated(s@.skip(i + 1), left - 1));
            left -= 1;
            i += 1;
        }
    }
    assert(s@.skip(i as int) =~= Seq::<char>::empty());
    assert(out@ + Seq::<char>::empty() =~= out@);
    string_of(out.as_slice())
}

/// Whether a text is one escape sequence that is ended.
spec fn whole_escape(s: Seq<char>) -> bool {
    s.len() > 1 && s[0] == '\x1b' && escape_end(s, 1) == s.len() && ends_escape(s.last())
}

proof fn lemma_escape_prefix(s: Seq<char>, t: Seq<char>, from: int)
    requires
        0 <= from <= s.len(),
        from < s.len(),
        escape_end(s, from) == s.len(),
        ends_escape(s.last()),
    ensures
        escape_end(s + t, from) == s.len(),
    decreases s.len() - from,
{
    assert((s + t)[from] == s[from]);
    if !ends_escape(s[from]) {
        if from + 1 < s.len() {
            lemma_escape_prefix(s, t, from + 1);
        }
    }
}

proof fn lemma_unseen(s: Seq<char>, t: Seq<char>)
    requires
        whole_escape(s),
    ensures
        seen(s + t) == seen(t),
{
    lemma_escape_prefix(s, t, 1);
    assert((s + t)[0] == '\x1b');
    assert((s + t).skip(s.len() as int) =~= t);
}

/// An escape sequence that something follows is ended.
proof fn lemma_ended(s: Seq<char>, from: int)
    requires
        0 <= from <= s.len(),
        escape_end(s, from) < s.len(),
    ensures
        from < escape_end(s, from),
        ends_escape(s[escape_end(s, from) - 1]),
        escape_end(s.take(escape_end(s, from)), from) == escape_end(s, from),
    decreases s.len() - from,
{
    let e = escape_end(s, from);
    lemma_escape_end(s, from);
    let t = s.take(e);
    assert(t[from] == s[from]);
    if !ends_escape(s[from]) {
        lemma_ended(s, from + 1);
    }
}

proof fn lemma_reset_unseen()
    ensures
        seen("\x1b[0m"@) == Seq::<char>::empty(),
{
    reveal_strlit("\x1b[0m");
    let s = "\x1b[0m"@;
    reveal_with_fuel(escape_end, 4);
    assert(escape_end(s, 1) == 4);
    assert(s.skip(4) =~= Seq::<char>::empty());
    assert(seen(s.skip(4)) == Seq::<char>::empty());
    assert(s[0] == '\x1b');
    assert(seen(s) == seen(s.skip(4)));
}

proof fn lemma_lead_unseen(s: Seq<char>, t: Seq<char>)
    requires
        seen(s).len() > 0,
    ensures
        seen(unseen_lead(s) + t) == seen(t),
    decreases s.len(),
{
    if s[0] == '\x1b' {
        let e = escape_end(s, 1);
        lemma_escape_end(s, 1);
        let rest = s.skip(e);
        if e == s.len() {
            assert(rest =~= Seq::<char>::empty());
        }
        lemma_lead_unseen(rest, t);
        lemma_ended(s, 1);
        let head = s.take(e);
        assert(head.last() == s[e - 1]);
        assert(whole_escape(head));
        lemma_unseen(head, unseen_lead(rest) + t);
        assert(unseen_lead(s) + t =~= head + (unseen_lead(rest) + t));
    } else {
        assert(unseen_lead(s) + t =~= t);
    }
}

/// What is seen of a cut line: all of it where it fits, else as much as fits
/// with a mark in the last column. So no more than the columns are used, and
/// colours do not leak.
pub proof fn law_a_cut_line_fits(s: Seq<char>, columns: int)
    requires
        columns >= 0,
    ensures
        seen(truncated(s, columns)) == (if seen(s).len() <= columns {
            seen(s)
        } else if columns == 0 {
            Seq::empty()
        } else {
            seen(s).take(columns - 1).push('…')
        }),
    decreases s.len(),
{
    if s.len() > 0 {
        if s[0] == '\x1b' {
            let e = escape_end(s, 1);
            lemma_escape_end(s, 1);
            let rest = s.skip(e);
            law_a_cut_line_fits(rest, columns);
            if e == s.len() {
                assert(rest =~= Seq::<char>::empty());
                assert(s.take(e) + Seq::<char>::empty() =~= s);
            } else {
                lemma_ended(s, 1);
                let head = s.take(e);
                assert(head.last() == s[e - 1]);
                lemma_unseen(head, truncated(rest, columns));
            }
        } else if columns == 0 {
            lemma_reset_unseen();
        } else if columns == 1 && seen(s.skip(1)).len() > 0 {
            lemma_reset_unseen();
            lemma_lead_unseen(s.skip(1), "\x1b[0m"@);
            let tail = unseen_lead(s.skip(1)) + "\x1b[0m"@;
            let whole = seq!['…'] + unseen_lead(s.skip(1)) + "\x1b[0m"@;
            assert(whole =~= seq!['…'] + tail);
            assert(whole[0] == '…');
            assert(whole.skip(1) =~= tail);
            assert(seen(whole) =~= seen(s).take(0).push('…'));
        } else {
            law_a_cut_line_fits(s.skip(1), columns - 1);
            let tail = truncated(s.skip(1), columns - 1);
            let whole = seq![s[0]] + tail;
            assert(whole[0] == s[0]);
            assert(whole.skip(1) =~= tail);
            let all = seen(s);
            let more = seen(s.skip(1));
            if all.len() > columns {
                if columns == 1 {
                    assert(more.len() > 0);
                } else {
                    assert(seq![s[0]] + more.take(columns - 2).push('…') =~= all.take(
                        columns - 1,
                    ).push('…'));
                }
            }
        }
    }
}

// ---------------------------------------------------------------------------
// Frames
// ---------------------------------------------------------------------------

/// How many lines of a text are in a window at an offset.
pub open spec fn visible_lines(lines: int, offset: int, window: int) -> int {
    let rest = if lines > offset {
        lines - offset
    } else {
        0
    };
    if rest < window {
        rest
    } else {
        window
    }
}

/// The first `n` rows of a window: the lines there, and blanks below them, so
/// that nothing of an earlier frame shows through.
pub open spec fn rows_text(
    lines: Seq<Seq<char>>,
    offset: int,
    window: int,
    columns: int,
    n: int,
) -> Seq<char>
    decreases n,
{
    if n <= 0 {
        Seq::empty()
    } else {
        let before = rows_text(lines, offset, window, columns, n - 1);
        if n - 1 < visible_lines(lines.len() as int, offset, window) {
            before + truncated(lines[offset + n - 1], columns) + "\x1b[K\n"@
        } else {
            before + "\x1b[K\n"@
        }
    }
}

/// What stands below a window: what is shown, the keys, and where in the text
/// the window is.
pub open spec fn footer_text(lines: nat, offset: nat, window: nat, label: Seq<char>) -> Seq<char> {
    let last = if offset + window < lines {
        offset + window
    } else {
        lines
    };
    let position = if lines <= window {
        decimal_text(lines) + " lines"@
    } else {
        decimal_text(offset + 1) + "–"@ + decimal_text(last) + " of "@ + decimal_text(lines)
    };
    let keys = if lines <= window {
        "q quit"@
    } else {
        "↑↓ PgUp/PgDn scroll · g/G ends · q quit"@
    };
    "\x1b[2m"@ + label + " · "@ + keys + " · "@ + position + "\x1b[0m"@
}

/// One frame: the window onto the text, then the footer.
pub fn paint(lines: &[String], offset: usize, window: usize, columns: usize, label: &str) -> (r:
    String)
    requires
        lines@.len() > window ==> offset + window <= usize::MAX && offset < usize::MAX,
    ensures
        r@ == rows_text(
            strings(lines@),
            offset as int,
            window as int,
            columns as int,
            window as int,
        ) + truncated(
            footer_text(lines@.len(), offset as nat, window as nat, label@),
            columns as int,
        ) + "\x1b[K"@,
{
    let ghost all = strings(lines@);
    let total: usize = lines.len();
    let rest: usize = if total > offset {
        total - offset
    } else {
        0
    };
    let there: usize = if rest < window {
        rest
    } else {
        window
    };
    let mut frame = String::new();
    let mut n: usize = 0;
    while n < window
        invariant
            n <= window,
            all == strings(lines@),
            total == lines@.len(),
            there == visible_lines(all.len() as int, offset as int, window as int),
            there + offset <= total || there == 0,
            frame@ == rows_text(all, offset as int, window as int, columns as int, n as int),
        decreases window - n,
    {
        let ghost before = frame@;
        if n < there {
            let row = truncate(lines[offset + n].as_str(), columns);
            frame.append(row.as_str());
            frame.append("\x1b[K\n");
        } else {
            frame.append("\x1b[K\n");
        }
        n += 1;
    }
    let mut footer = "\x1b[2m".to_owned();
    footer.append(label);
    footer.append(" · ");
    if total <= window {
        footer.append("q quit");
    } else {
        footer.append("↑↓ PgUp/PgDn scroll · g/G ends · q quit");
    }
    footer.append(" · ");
    let mut position: String;
    if total <= window {
        position = decimal(total as u64);
        position.append(" lines");
    } else {
        position = decimal((offset + 1) as u64);
        position.append("–");
        let last: usize = if offset + window < total {
            offset + window
        } else {
            total
        };
        let last = decimal(last as u64);
        position.append(last.as_str());
        position.append(" of ");
        let count = decimal(total as u64);
        position.append(count.as_str());
    }
    footer.append(position.as_str());
    footer.append("\x1b[0m");
    let footer = truncate(footer.as_str(), columns);
    frame.append(footer.as_str());
    frame.append("\x1b[K");
    frame
}

// ---------------------------------------------------------------------------
// Keys
// ---------------------------------------------------------------------------

/// What the reader pressed.
#[derive(Clone, Copy, Debug, PartialEq, Eq, Structural)]
pub enum Key {
    /// A line up.
    Up,
    /// A line down.
    Down,
    /// A screen up.
    PageUp,
    /// A screen down.
    PageDown,
    /// To the top.
    Top,
    /// To the bottom.
    Bottom,
    /// Away.
    Quit,
}

/// Where an escape sequence ends that has come as far as byte `i`: behind the
/// byte that ends it, or where it breaks off.
pub open spec fn sequence_end(s: Seq<u8>, i: int) -> int
    decreases s.len() - i,
{
    if i >= s.len() {
        i
    } else if 0x20 <= s[i] <= 0x3f {
        sequence_end(s, i + 1)
    } else if 0x40 <= s[i] <= 0x7e {
        i + 1
    } else {
        i
    }
}

/// An escape sequence does not end before it came as far as it did.
pub proof fn lemma_sequence_end(s: Seq<u8>, i: int)
    ensures
        sequence_end(s, i) >= i,
    decreases s.len() - i,
{
    if i < s.len() && 0x20 <= s[i] <= 0x3f {
        lemma_sequence_end(s, i + 1);
    }
}

/// What the bytes at the front mean, and how many of them do.
pub open spec fn first_key(s: Seq<u8>) -> (Option<Key>, int) {
    if s[0] == 0x1b {
        if s.len() >= 2 && s[1] == 0x5b {
            if s.len() >= 3 && s[2] == 0x41 {
                (Some(Key::Up), 3)
            } else if s.len() >= 3 && s[2] == 0x42 {
                (Some(Key::Down), 3)
            } else if s.len() >= 4 && s[2] == 0x35 && s[3] == 0x7e {
                (Some(Key::PageUp), 4)
            } else if s.len() >= 4 && s[2] == 0x36 && s[3] == 0x7e {
                (Some(Key::PageDown), 4)
            } else if s.len() >= 3 && s[2] == 0x48 {
                (Some(Key::Top), 3)
            } else if s.len() >= 4 && s[2] == 0x31 && s[3] == 0x7e {
                (Some(Key::Top), 4)
            } else if s.len() >= 3 && s[2] == 0x46 {
                (Some(Key::Bottom), 3)
            } else if s.len() >= 4 && s[2] == 0x34 && s[3] == 0x7e {
                (Some(Key::Bottom), 4)
            } else {
                (None, sequence_end(s, 2))
            }
        } else {
            (None, 1)
        }
    } else if s[0] == 0x6b {
        (Some(Key::Up), 1)
    } else if s[0] == 0x6a {
        (Some(Key::Down), 1)
    } else if s[0] == 0x62 {
        (Some(Key::PageUp), 1)
    } else if s[0] == 0x20 || s[0] == 0x66 {
        (Some(Key::PageDown), 1)
    } else if s[0] == 0x67 {
        (Some(Key::Top), 1)
    } else if s[0] == 0x47 {
        (Some(Key::Bottom), 1)
    } else if s[0] == 0x71 || s[0] == 0x03 {
        (Some(Key::Quit), 1)
    } else {
        (None, 1)
    }
}

/// The keys that bytes mean. A sequence that is not known is skipped whole.
pub open spec fn keys_in(s: Seq<u8>) -> Seq<Key>
    decreases s.len(),
{
    if s.len() == 0 {
        Seq::empty()
    } else {
        let (key, width) = first_key(s);
        proof {
            lemma_sequence_end(s, 2);
        }
        let rest = if width < s.len() {
            keys_in(s.skip(width))
        } else {
            Seq::empty()
        };
        match key {
            Some(key) => seq![key] + rest,
            None => rest,
        }
    }
}

/// How far an escape sequence goes that starts at byte `i`.
fn sequence_width(s: &[u8], i: usize) -> (r: usize)
    requires
        i + 2 <= s@.len(),
    ensures
        r == sequence_end(s@.skip(i as int), 2),
        2 <= r <= s@.len() - i,
{
    let ghost rest = s@.skip(i as int);
    let mut n: usize = 2;
    while n < s.len() - i && 0x20 <= s[i + n] && s[i + n] <= 0x3f
        invariant
            2 <= n <= s@.len() - i,
            i + 2 <= s@.len(),
            rest == s@.skip(i as int),
            sequence_end(rest, 2) == sequence_end(rest, n as int),
        decreases s@.len() - i - n,
    {
        assert(rest[n as int] == s@[i + n]);
        n += 1;
    }
    if n < s.len() - i {
        assert(rest[n as int] == s@[i + n]);
        if 0x40 <= s[i + n] && s[i + n] <= 0x7e {
            return n + 1;
        }
    }
    n
}

fn key_at(s: &[u8], i: usize) -> (r: (Option<Key>, usize))
    requires
        i < s@.len(),
    ensures
        (r.0, r.1 as int) == first_key(s@.skip(i as int)),
        0 < r.1 <= s@.len() - i,
{
    let n: usize = s.len() - i;
    let ghost rest = s@.skip(i as int);
    assert(rest[0] == s@[i as int]);
    let a: u8 = s[i];
    if a == 0x1b {
        if n >= 2 && s[i + 1] == 0x5b {
            assert(rest[1] == s@[i + 1]);
            let c: u8 = if n >= 3 {
                s[i + 2]
            } else {
                0
            };
            let tilde = n >= 4 && s[i + 3] == 0x7e;
            assert(n >= 3 ==> rest[2] == s@[i + 2]);
            assert(n >= 4 ==> rest[3] == s@[i + 3]);
            if c == 0x41 {
                (Some(Key::Up), 3)
            } else if c == 0x42 {
                (Some(Key::Down), 3)
            } else if c == 0x35 && tilde {
                (Some(Key::PageUp), 4)
            } else if c == 0x36 && tilde {
                (Some(Key::PageDown), 4)
            } else if c == 0x48 {
                (Some(Key::Top), 3)
            } else if c == 0x31 && tilde {
                (Some(Key::Top), 4)
            } else if c == 0x46 {
                (Some(Key::Bottom), 3)
            } else if c == 0x34 && tilde {
                (Some(Key::Bottom), 4)
            } else {
                (None, sequence_width(s, i))
            }
        } else {
            assert(n >= 2 ==> rest[1] == s@[i + 1]);
            (None, 1)
        }
    } else if a == 0x6b {
        (Some(Key::Up), 1)
    } else if a == 0x6a {
        (Some(Key::Down), 1)
    } else if a == 0x62 {
        (Some(Key::PageUp), 1)
    } else if a == 0x20 || a == 0x66 {
        (Some(Key::PageDown), 1)
    } else if a == 0x67 {
        (Some(Key::Top), 1)
    } else if a == 0x47 {
        (Some(Key::Bottom), 1)
    } else if a == 0x71 || a == 0x03 {
        (Some(Key::Quit), 1)
    } else {
        (None, 1)
    }
}

/// The keys that bytes from a terminal mean.
pub fn keys(bytes: &[u8]) -> (r: Vec<Key>)
    ensures
        r@ == keys_in(bytes@),
{
    let mut r: Vec<Key> = Vec::new();
    let mut i: usize = 0;
    assert(bytes@.skip(0) =~= bytes@);
    assert(r@ + keys_in(bytes@) =~= keys_in(bytes@));
    while i < bytes.len()
        invariant
            i <= bytes@.len(),
            r@ + keys_in(bytes@.skip(i as int)) == keys_in(bytes@),
        decreases bytes@.len() - i,
    {
        let ghost before = r@;
        let ghost rest = bytes@.skip(i as int);
        let (key, width) = key_at(bytes, i);
        if let Some(key) = key {
            r.push(key);
        }
        let next: usize = if width < bytes.len() - i {
            i + width
        } else {
            bytes.len()
        };
        proof {
            let more = keys_in(bytes@.skip(next as int));
            if width < rest.len() {
                assert(rest.skip(width as int) =~= bytes@.skip(next as int));
            } else {
                assert(bytes@.skip(next as int) =~= Seq::<u8>::empty());
            }
            match key {
                Some(key) => {
                    assert(before + (seq![key] + more) =~= r@ + more);
                },
                None => {},
            }
        }
        i = next;
    }
    assert(bytes@.skip(i as int) =~= Seq::<u8>::empty());
    assert(r@ + Seq::<Key>::empty() =~= r@);
    r
}

// ---------------------------------------------------------------------------
// Scrolling
// ---------------------------------------------------------------------------

/// How many of so many rows the text has.
pub open spec fn rows_for_text(rows: int) -> int {
    if rows > 2 {
        rows - 1
    } else {
        1
    }
}

/// How many rows the text has: all but one, for the footer.
pub fn window_rows(rows: usize) -> (r: usize)
    ensures
        r == rows_for_text(rows as int),
{
    if rows > 2 {
        rows - 1
    } else {
        1
    }
}

/// The furthest offset at which a window is still full of text.
pub open spec fn furthest_offset(lines: int, window: int) -> int {
    if lines > window {
        lines - window
    } else {
        0
    }
}

/// The offset after one key; `None` where the reader leaves.
pub open spec fn moved(offset: int, key: Key, window: int, furthest: int) -> Option<int> {
    match key {
        Key::Up => Some(if offset > 1 {
            offset - 1
        } else {
            0
        }),
        Key::Down => Some(if offset < usize::MAX {
            offset + 1
        } else {
            offset
        }),
        Key::PageUp => Some(if offset > window {
            offset - window
        } else {
            0
        }),
        Key::PageDown => Some(if offset + window < usize::MAX {
            offset + window
        } else {
            usize::MAX as int
        }),
        Key::Top => Some(0),
        Key::Bottom => Some(furthest),
        Key::Quit => None,
    }
}

/// The offset after some keys; `None` where the reader leaves.
pub open spec fn moved_all(offset: int, keys: Seq<Key>, window: int, furthest: int) -> Option<int>
    decreases keys.len(),
{
    if keys.len() == 0 {
        Some(offset)
    } else {
        match moved(offset, keys[0], window, furthest) {
            Some(next) => moved_all(next, keys.skip(1), window, furthest),
            None => None,
        }
    }
}

/// The offset after some keys, never past the end of the text; `None` where
/// the reader leaves.
pub fn scroll(offset: usize, keys: &[Key], window: usize, lines: usize) -> (r: Option<usize>)
    ensures
        match moved_all(
            offset as int,
            keys@,
            window as int,
            furthest_offset(lines as int, window as int),
        ) {
            Some(next) => r matches Some(o) && o == (if next
                < furthest_offset(lines as int, window as int) {
                next
            } else {
                furthest_offset(lines as int, window as int)
            }),
            None => r is None,
        },
{
    let furthest: usize = if lines > window {
        lines - window
    } else {
        0
    };
    let mut at: usize = offset;
    let mut i: usize = 0;
    assert(keys@.skip(0) =~= keys@);
    while i < keys.len()
        invariant
            i <= keys@.len(),
            furthest == furthest_offset(lines as int, window as int),
            moved_all(at as int, keys@.skip(i as int), window as int, furthest as int)
                == moved_all(offset as int, keys@, window as int, furthest as int),
        decreases keys@.len() - i,
    {
        assert(keys@.skip(i as int)[0] == keys@[i as int]);
        assert(keys@.skip(i as int).skip(1) =~= keys@.skip(i + 1));
        match keys[i] {
            Key::Up => {
                at = at.saturating_sub(1);
            },
            Key::Down => {
                at = at.saturating_add(1);
            },
            Key::PageUp => {
                at = at.saturating_sub(window);
            },
            Key::PageDown => {
                at = at.saturating_add(window);
            },
            Key::Top => {
                at = 0;
            },
            Key::Bottom => {
                at = furthest;
            },
            Key::Quit => {
                return None;
            },
        }
        i += 1;
    }
    if at < furthest {
        Some(at)
    } else {
        Some(furthest)
    }
}

/// What a terminal sends for a key.
pub open spec fn sends(key: Key, bytes: Seq<u8>) -> bool {
    match key {
        Key::Up => bytes == seq![0x1bu8, 0x5b, 0x41] || bytes == seq![0x6bu8],
        Key::Down => bytes == seq![0x1bu8, 0x5b, 0x42] || bytes == seq![0x6au8],
        Key::PageUp => bytes == seq![0x1bu8, 0x5b, 0x35, 0x7e] || bytes == seq![0x62u8],
        Key::PageDown => bytes == seq![0x1bu8, 0x5b, 0x36, 0x7e] || bytes == seq![0x20u8] || bytes
            == seq![0x66u8],
        Key::Top => bytes == seq![0x1bu8, 0x5b, 0x48] || bytes == seq![0x1bu8, 0x5b, 0x31, 0x7e]
            || bytes == seq![0x67u8],
        Key::Bottom => bytes == seq![0x1bu8, 0x5b, 0x46] || bytes == seq![0x1bu8, 0x5b, 0x34, 0x7e]
            || bytes == seq![0x47u8],
        Key::Quit => bytes == seq![0x71u8] || bytes == seq![0x03u8],
    }
}

/// Every key that a terminal sends is read, whatever is typed behind it: the
/// arrows, the paging keys, Home and End by their sequences, and the letters
/// that stand for them.
pub proof fn law_every_key_is_read(key: Key, bytes: Seq<u8>, rest: Seq<u8>)
    requires
        sends(key, bytes),
    ensures
        keys_in(bytes + rest) == seq![key] + keys_in(rest),
{
    let all = bytes + rest;
    assert(all.skip(bytes.len() as int) =~= rest);
    assert(forall|i: int| 0 <= i < bytes.len() ==> all[i] == bytes[i]);
    assert(first_key(all) == (Some(key), bytes.len() as int));
    if rest.len() == 0 {
        assert(keys_in(rest) =~= Seq::empty());
    }
}

/// A byte that stands for no key is passed over, and so is a whole escape
/// sequence that no key sends: none of its bytes is read as a letter.
pub proof fn law_what_is_no_key_is_passed_over(byte: u8, middle: Seq<u8>, end: u8, rest: Seq<u8>)
    requires
        0x40 <= end <= 0x7e,
        forall|i: int| 0 <= i < middle.len() ==> 0x20 <= #[trigger] middle[i] <= 0x3f,
        forall|key: Key| !#[trigger] sends(key, seq![byte]),
        byte != 0x1b,
        middle.len() == 0 ==> end != 0x41 && end != 0x42 && end != 0x46 && end != 0x48,
        middle.len() == 1 && end == 0x7e ==> middle[0] != 0x31 && middle[0] != 0x34 && middle[0]
            != 0x35 && middle[0] != 0x36,
    ensures
        keys_in(seq![byte] + rest) == keys_in(rest),
        keys_in(seq![0x1bu8, 0x5b] + middle + seq![end] + rest) == keys_in(rest),
{
    let one = seq![byte] + rest;
    assert(one.skip(1) =~= rest);
    assert(one[0] == byte);
    assert(!sends(Key::Up, seq![byte]) && !sends(Key::Down, seq![byte]) && !sends(
        Key::PageUp,
        seq![byte],
    ) && !sends(Key::PageDown, seq![byte]) && !sends(Key::Top, seq![byte]) && !sends(
        Key::Bottom,
        seq![byte],
    ) && !sends(Key::Quit, seq![byte]));
    if byte == 0x6b {
        assert(seq![byte] =~= seq![0x6bu8]);
    } else if byte == 0x6a {
        assert(seq![byte] =~= seq![0x6au8]);
    } else if byte == 0x62 {
        assert(seq![byte] =~= seq![0x62u8]);
    } else if byte == 0x20 {
        assert(seq![byte] =~= seq![0x20u8]);
    } else if byte == 0x66 {
        assert(seq![byte] =~= seq![0x66u8]);
    } else if byte == 0x67 {
        assert(seq![byte] =~= seq![0x67u8]);
    } else if byte == 0x47 {
        assert(seq![byte] =~= seq![0x47u8]);
    } else if byte == 0x71 {
        assert(seq![byte] =~= seq![0x71u8]);
    } else if byte == 0x03 {
        assert(seq![byte] =~= seq![0x03u8]);
    }
    assert(first_key(one) == (None::<Key>, 1int));
    if rest.len() == 0 {
        assert(keys_in(rest) =~= Seq::empty());
    }
    let all = seq![0x1bu8, 0x5b] + middle + seq![end] + rest;
    let width = middle.len() + 3;
    assert(all.skip(width as int) =~= rest);
    assert(forall|i: int| 0 <= i < middle.len() ==> all[i + 2] == #[trigger] middle[i]);
    assert(all[middle.len() as int + 2] == end);
    lemma_sequence_over(all, middle, end, 0);
    if middle.len() > 0 {
        assert(all[2] == middle[0]);
        if middle.len() > 1 {
            assert(all[3] == middle[1]);
        }
    }
    assert(first_key(all) == (None::<Key>, width as int));
}

proof fn lemma_sequence_over(all: Seq<u8>, middle: Seq<u8>, end: u8, i: int)
    requires
        0x40 <= end <= 0x7e,
        forall|i: int| 0 <= i < middle.len() ==> 0x20 <= #[trigger] middle[i] <= 0x3f,
        all.len() >= middle.len() + 3,
        forall|i: int| 0 <= i < middle.len() ==> all[i + 2] == #[trigger] middle[i],
        all[middle.len() as int + 2] == end,
        0 <= i <= middle.len(),
    ensures
        sequence_end(all, i + 2) == middle.len() + 3,
    decreases middle.len() - i,
{
    if i < middle.len() {
        assert(all[i + 2] == middle[i]);
        lemma_sequence_over(all, middle, end, i + 1);
    }
}

/// A key moves the view by what it names: the arrows by a line, the paging keys
/// by a window, neither above the first line; Home and End to the ends. Only
/// quitting leaves.
pub proof fn law_a_key_moves_the_view(offset: int, window: int, furthest: int)
    requires
        0 <= offset <= usize::MAX,
        0 <= window <= usize::MAX,
    ensures
        offset >= 1 ==> moved(offset, Key::Up, window, furthest) == Some(offset - 1),
        offset == 0 ==> moved(offset, Key::Up, window, furthest) == Some(0int),
        offset < usize::MAX ==> moved(offset, Key::Down, window, furthest) == Some(offset + 1),
        offset >= window ==> moved(offset, Key::PageUp, window, furthest) == Some(offset - window),
        offset < window ==> moved(offset, Key::PageUp, window, furthest) == Some(0int),
        offset + window <= usize::MAX ==> moved(offset, Key::PageDown, window, furthest) == Some(
            offset + window,
        ),
        moved(offset, Key::Top, window, furthest) == Some(0int),
        moved(offset, Key::Bottom, window, furthest) == Some(furthest),
        moved(offset, Key::Quit, window, furthest) is None,
{
}

/// Keys act one after another, in the order they were pressed, and nothing is
/// looked at behind the one that quits.
pub proof fn law_keys_act_in_turn(
    offset: int,
    first: Seq<Key>,
    second: Seq<Key>,
    window: int,
    furthest: int,
)
    ensures
        moved_all(offset, first + second, window, furthest) == (match moved_all(
            offset,
            first,
            window,
            furthest,
        ) {
            Some(there) => moved_all(there, second, window, furthest),
            None => None,
        }),
        first.contains(Key::Quit) <==> moved_all(offset, first, window, furthest) is None,
    decreases first.len(),
{
    if first.len() == 0 {
        assert(first + second =~= second);
    } else {
        let all = first + second;
        assert(all[0] == first[0]);
        assert(all.skip(1) =~= first.skip(1) + second);
        match moved(offset, first[0], window, furthest) {
            Some(next) => {
                law_keys_act_in_turn(next, first.skip(1), second, window, furthest);
                assert(first[0] != Key::Quit);
                if first.contains(Key::Quit) {
                    let i = choose|i: int| 0 <= i < first.len() && first[i] == Key::Quit;
                    assert(first.skip(1)[i - 1] == Key::Quit);
                }
                if first.skip(1).contains(Key::Quit) {
                    let i = choose|i: int|
                        0 <= i < first.skip(1).len() && first.skip(1)[i] == Key::Quit;
                    assert(first[i + 1] == Key::Quit);
                }
            },
            None => {
                assert(first[0] == Key::Quit);
            },
        }
    }
}

/// The last screen is full where there are lines to fill it, and its last line
/// is the last there is.
pub proof fn law_the_last_screen_ends_with_the_last_line(lines: int, window: int)
    requires
        0 <= lines,
        0 <= window,
    ensures
        furthest_offset(lines, window) >= 0,
        lines >= window ==> furthest_offset(lines, window) + window == lines,
        lines < window ==> furthest_offset(lines, window) == 0,
        furthest_offset(lines, window) + visible_lines(
            lines,
            furthest_offset(lines, window),
            window,
        ) == lines,
{
}

/// A screen shows the lines from its offset on, one to a row, each cut to the
/// width; a row that no line is left for is blank.
pub proof fn law_a_screen_has_a_row_for_every_line(
    lines: Seq<Seq<char>>,
    offset: int,
    window: int,
    columns: int,
    n: int,
)
    requires
        0 <= offset,
        0 <= n < window,
    ensures
        offset + n < lines.len() ==> rows_text(lines, offset, window, columns, n + 1) == rows_text(
            lines,
            offset,
            window,
            columns,
            n,
        ) + truncated(lines[offset + n], columns) + "\x1b[K\n"@,
        offset + n >= lines.len() ==> rows_text(lines, offset, window, columns, n + 1) == rows_text(
            lines,
            offset,
            window,
            columns,
            n,
        ) + "\x1b[K\n"@,
        rows_text(lines, offset, window, columns, 0) == Seq::<char>::empty(),
{
}

/// The footer tells where the screen stands: of a list that fits, how many
/// lines there are; of a longer one, its first and last line of how many.
pub proof fn law_the_footer_tells_where_the_screen_stands(
    lines: nat,
    offset: nat,
    window: nat,
    label: Seq<char>,
)
    ensures
        lines <= window ==> footer_text(lines, offset, window, label) == "\x1b[2m"@ + label
            + " · "@ + "q quit"@ + " · "@ + (decimal_text(lines) + " lines"@) + "\x1b[0m"@,
        lines > window && offset + window <= lines ==> footer_text(lines, offset, window, label)
            == "\x1b[2m"@ + label + " · "@ + "↑↓ PgUp/PgDn scroll · g/G ends · q quit"@ + " · "@ + (
        decimal_text(offset + 1) + "–"@ + decimal_text(offset + window) + " of "@ + decimal_text(
            lines,
        )) + "\x1b[0m"@,
{
}

/// The text has all rows but the footer's, and one at least.
pub proof fn law_a_row_is_left_for_the_footer(rows: int)
    ensures
        rows >= 2 ==> rows_for_text(rows) + 1 == rows,
        rows < 2 ==> rows_for_text(rows) == 1,
{
}

} // verus!
