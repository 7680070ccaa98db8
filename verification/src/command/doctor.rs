//! A look at sessions: what both sides hold, what the next cycle would do, and
//! what starting over would do.
use crate::command::format::{bytes_text, format_bytes, thousands, thousands_text};
use crate::command::resolve::push_line;
use crate::order::{sort_texts, sorted};
use crate::plan::SessionPlan;
use crate::text::{decimal, decimal_text, strings};
use crate::tree::{
    entries, joined_path, lemma_directory_view, named, node_option, node_views, path_join,
    position_named, Content, ContentView, Node, NodeView, Snapshot,
};
use vstd::prelude::*;

verus! {

// ---------------------------------------------------------------------------
// Folders full on one side
// ---------------------------------------------------------------------------

/// How many entries lie below one with the content.
pub open spec fn below_content(content: ContentView) -> nat
    decreases content,
{
    match content {
        ContentView::Directory(children) => below_all(children),
        _ => 0,
    }
}

/// How many entries there are at and below some.
pub open spec fn below_all(children: Seq<NodeView>) -> nat
    decreases children,
{
    if children.len() == 0 {
        0
    } else {
        below_all(children.drop_last()) + 1 + below_content(children.last().content)
    }
}

/// A count as far as it can be shown.
pub open spec fn shown_count(count: nat) -> nat {
    if count > u64::MAX {
        u64::MAX as nat
    } else {
        count
    }
}

/// How many entries lie below one, as far as that can be counted.
pub fn entries_below(node: &Node) -> (r: u64)
    ensures
        r == shown_count(below_content(node.view().content)),
    decreases node,
{
    match &node.content {
        Content::Directory(children) => {
            let ghost views = node_views(children@);
            proof {
                lemma_directory_view(*children);
            }
            let mut total: u64 = 0;
            let mut i: usize = 0;
            assert(views.take(0) =~= Seq::<NodeView>::empty());
            while i < children.len()
                invariant
                    i <= children@.len(),
                    node.content == Content::Directory(*children),
                    node.view().content == ContentView::Directory(views),
                    views == node_views(children@),
                    total == shown_count(below_all(views.take(i as int))),
                decreases children@.len() - i,
            {
                proof {
                    assert(views.take(i + 1).drop_last() =~= views.take(i as int));
                    assert(views.take(i + 1).last() == children@[i as int].view());
                    assert(decreases_to!(*node => node.content));
                    assert(decreases_to!(node.content => node.content->Directory_0));
                    assert(decreases_to!(*children => children@));
                    assert(decreases_to!(children@ => children@[i as int]));
                }
                let below: u64 = entries_below(&children[i]);
                total = total.saturating_add(1).saturating_add(below);
                i += 1;
            }
            assert(views.take(views.len() as int) =~= views);
            total
        },
        _ => 0,
    }
}

/// Whether a side holds nothing: no directory, or an empty one.
pub open spec fn holds_nothing(node: Option<NodeView>) -> bool {
    match node {
        Some(node) => !(node.content is Directory) || entries(node.content).len() == 0,
        None => true,
    }
}

fn is_nothing(node: Option<&Node>) -> (r: bool)
    ensures
        r == holds_nothing(node_option(node)),
{
    match node {
        Some(node) => !node.is_directory() || node.children().len() == 0,
        None => true,
    }
}

/// How many entries a folder has to hold to be worth naming.
pub const LOPSIDED_ENTRIES: u64 = 8;

/// What is said of a folder that is full on one side only, if it is.
pub open spec fn lopsided_line(
    alpha: Option<NodeView>,
    beta: Option<NodeView>,
    path: Seq<char>,
) -> Option<Seq<char>> {
    let full = if holds_nothing(alpha) {
        beta
    } else {
        alpha
    };
    let side = if holds_nothing(alpha) {
        "beta"@
    } else {
        "alpha"@
    };
    let count = match full {
        Some(node) => shown_count(below_content(node.content)),
        None => 0,
    };
    if path.len() > 0 && holds_nothing(alpha) != holds_nothing(beta) && count >= LOPSIDED_ENTRIES {
        Some(
            path + " — "@ + thousands_text(count) + " entries on "@ + side
                + ", empty or gone on the other"@,
        )
    } else {
        None
    }
}

/// The names of entries.
pub open spec fn names(children: Seq<NodeView>) -> Seq<Seq<char>> {
    Seq::new(children.len(), |i: int| children[i].name)
}

/// The names that either of two directories has, in order.
pub open spec fn both_names(alpha: ContentView, beta: ContentView) -> Seq<Seq<char>> {
    sorted(names(entries(alpha)) + names(entries(beta)))
}

/// An entry found by name is one of the entries.
pub proof fn lemma_named_member(nodes: Seq<NodeView>, name: Seq<char>)
    ensures
        named(nodes, name) matches Some(node) ==> exists|i: int|
            0 <= i < nodes.len() && #[trigger] nodes[i] == node,
    decreases nodes.len(),
{
    if nodes.len() > 0 {
        lemma_named_member(nodes.drop_last(), name);
        if named(nodes.drop_last(), name) is Some {
            let i = choose|i: int|
                0 <= i < nodes.drop_last().len() && #[trigger] nodes.drop_last()[i] == (named(
                    nodes.drop_last(),
                    name,
                )->0);
            assert(nodes[i] == named(nodes, name)->0);
        } else if nodes.last().name == name {
            assert(nodes[nodes.len() - 1] == named(nodes, name)->0);
        }
    }
}

/// The folders full on one side only, below two directories, under the first
/// `n` of some names.
pub open spec fn lopsided_below(
    alpha: ContentView,
    beta: ContentView,
    path: Seq<char>,
    n: int,
) -> Seq<Seq<char>>
    decreases alpha, n,
{
    if n <= 0 {
        Seq::empty()
    } else {
        let name = both_names(alpha, beta)[n - 1];
        let a = named(entries(alpha), name);
        let b = named(entries(beta), name);
        let here = joined_path(path, name);
        let front = lopsided_below(alpha, beta, path, n - 1);
        proof {
            lemma_named_member(entries(alpha), name);
            if a is Some && alpha is Directory {
                let children = entries(alpha);
                let i = choose|i: int| 0 <= i < children.len() && #[trigger] children[i] == (a->0);
                assert(decreases_to!(alpha => alpha->Directory_0));
                assert(decreases_to!(children => children[i]));
                assert(decreases_to!(children[i] => children[i].content));
            }
        }
        match lopsided_line(a, b, here) {
            Some(line) => front.push(line),
            None => match (a, b) {
                (Some(x), Some(y)) => if x.content is Directory && y.content is Directory
                    && alpha is Directory {
                    front + lopsided_below(
                        x.content,
                        y.content,
                        here,
                        both_names(x.content, y.content).len() as int,
                    )
                } else {
                    front
                },
                _ => front,
            },
        }
    }
}

/// The folders full on one side only.
pub open spec fn lopsided(alpha: Option<NodeView>, beta: Option<NodeView>) -> Seq<Seq<char>> {
    match (alpha, beta) {
        (Some(a), Some(b)) => if a.content is Directory && b.content is Directory {
            lopsided_below(a.content, b.content, Seq::empty(), both_names(
                a.content,
                b.content,
            ).len() as int)
        } else {
            Seq::empty()
        },
        _ => Seq::empty(),
    }
}

fn push_names(list: &mut Vec<String>, children: &[Node])
    ensures
        strings(final(list)@) == strings(old(list)@) + names(node_views(children@)),
{
    let ghost start = strings(list@);
    let ghost all = names(node_views(children@));
    let mut i: usize = 0;
    assert(start + all.take(0) =~= start);
    while i < children.len()
        invariant
            i <= children@.len(),
            all == names(node_views(children@)),
            strings(list@) == start + all.take(i as int),
        decreases children@.len() - i,
    {
        push_line(list, children[i].name.clone());
        assert(all.take(i + 1) =~= all.take(i as int).push(all[i as int]));
        assert(strings(list@) =~= start + all.take(i + 1));
        i += 1;
    }
    assert(all.take(all.len() as int) =~= all);
}

fn both_names_of(alpha: &Node, beta: &Node) -> (r: Vec<String>)
    ensures
        strings(r@) == both_names(alpha.view().content, beta.view().content),
{
    let mut list: Vec<String> = Vec::new();
    assert(strings(list@) =~= Seq::<Seq<char>>::empty());
    push_names(&mut list, alpha.children());
    push_names(&mut list, beta.children());
    assert(strings(list@) =~= names(entries(alpha.view().content)) + names(
        entries(beta.view().content),
    ));
    sort_texts(list.as_slice())
}

fn line_of(alpha: Option<&Node>, beta: Option<&Node>, path: &str) -> (r: Option<String>)
    ensures
        crate::text::optional(r) == lopsided_line(node_option(alpha), node_option(beta), path@),
{
    if path.is_empty() || is_nothing(alpha) == is_nothing(beta) {
        return None;
    }
    let (full, side): (Option<&Node>, &str) = if is_nothing(alpha) {
        (beta, "beta")
    } else {
        (alpha, "alpha")
    };
    let count: u64 = match full {
        Some(node) => entries_below(node),
        None => 0,
    };
    if count < LOPSIDED_ENTRIES {
        return None;
    }
    let mut line = path.to_owned();
    line.append(" — ");
    let words = thousands(count);
    line.append(words.as_str());
    line.append(" entries on ");
    line.append(side);
    line.append(", empty or gone on the other");
    Some(line)
}

fn find_lopsided(alpha: &Node, beta: &Node, path: &str, found: &mut Vec<String>)
    requires
        alpha.view().content is Directory,
    ensures
        strings(final(found)@) == strings(old(found)@) + lopsided_below(
            alpha.view().content,
            beta.view().content,
            path@,
            both_names(alpha.view().content, beta.view().content).len() as int,
        ),
    decreases alpha,
{
    let ghost a = alpha.view().content;
    let ghost b = beta.view().content;
    let ghost start = strings(found@);
    let list = both_names_of(alpha, beta);
    let ghost all = both_names(a, b);
    let left: &Vec<Node> = match &alpha.content {
        Content::Directory(children) => children,
        _ => {
            return ;
        },
    };
    proof {
        lemma_directory_view(*left);
    }
    let mut n: usize = 0;
    assert(start + lopsided_below(a, b, path@, 0) =~= start);
    assert(all.len() == list@.len());
    while n < list.len()
        invariant
            n <= list@.len(),
            a == alpha.view().content,
            b == beta.view().content,
            alpha.content == Content::Directory(*left),
            a == ContentView::Directory(node_views(left@)),
            all == both_names(a, b),
            strings(list@) == all,
            strings(found@) == start + lopsided_below(a, b, path@, n as int),
        decreases list@.len() - n,
    {
        let ghost before = lopsided_below(a, b, path@, n as int);
        let ghost after = lopsided_below(a, b, path@, n + 1);
        let name = list[n].as_str();
        assert(name@ == all[n as int]);
        let right = beta.children();
        let i = position_named(left.as_slice(), name);
        let j = position_named(right, name);
        let here = path_join(path, name);
        let x: Option<&Node> = match i {
            Some(i) => Some(&left[i]),
            None => None,
        };
        let y: Option<&Node> = match j {
            Some(j) => Some(&right[j]),
            None => None,
        };
        proof {
            if let Some(i) = i {
                assert(entries(a)[i as int] == left@[i as int].view());
            }
            if let Some(j) = j {
                assert(entries(b)[j as int] == right@[j as int].view());
            }
        }
        match line_of(x, y, here.as_str()) {
            Some(line) => {
                push_line(found, line);
                assert(strings(found@) =~= start + after);
            },
            None => {
                if let (Some(i), Some(y)) = (i, y) {
                    if left[i].is_directory() && y.is_directory() {
                        proof {
                            assert(decreases_to!(*alpha => alpha.content));
                            assert(decreases_to!(alpha.content => alpha.content->Directory_0));
                            assert(decreases_to!(*left => left@));
                            assert(decreases_to!(left@ => left@[i as int]));
                        }
                        find_lopsided(&left[i], y, here.as_str(), found);
                        proof {
                            let more = lopsided_below(
                                left@[i as int].view().content,
                                y.view().content,
                                here@,
                                both_names(
                                    left@[i as int].view().content,
                                    y.view().content,
                                ).len() as int,
                            );
                            assert(after == before + more);
                            assert(start + before + more =~= start + (before + more));
                        }
                    }
                }
            },
        }
        assert(strings(found@) == start + after);
        n += 1;
    }
}

/// The folders that are full on one side and empty or gone on the other, as
/// far as both sides have the folders above them.
pub fn lopsided_folders(alpha: Option<&Node>, beta: Option<&Node>) -> (r: Vec<String>)
    ensures
        strings(r@) == lopsided(node_option(alpha), node_option(beta)),
{
    let mut found: Vec<String> = Vec::new();
    assert(strings(found@) =~= Seq::<Seq<char>>::empty());
    if let (Some(a), Some(b)) = (alpha, beta) {
        if a.is_directory() && b.is_directory() {
            find_lopsided(a, b, "", &mut found);
            proof {
                reveal_strlit("");
                assert(""@ =~= Seq::<char>::empty());
            }
        }
    }
    assert(strings(found@) =~= lopsided(node_option(alpha), node_option(beta)));
    found
}

// ---------------------------------------------------------------------------
// What is said
// ---------------------------------------------------------------------------

/// What is said first of a session.
pub fn heading(plan: &SessionPlan) -> (r: String)
    ensures
        r@ == "\x1b[1m"@ + plan.alpha_spec@ + "\x1b[0m → "@ + plan.beta_spec@ + "  \x1b[2m"@
            + plan.group@ + " · "@ + plan.mode.text() + "\x1b[0m"@,
{
    let mut line = "\x1b[1m".to_owned();
    line.append(plan.alpha_spec.as_str());
    line.append("\x1b[0m → ");
    line.append(plan.beta_spec.as_str());
    line.append("  \x1b[2m");
    line.append(plan.group.as_str());
    line.append(" · ");
    line.append(plan.mode.name());
    line.append("\x1b[0m");
    line
}

/// A count and its word.
pub open spec fn count_text(n: u64, word: Seq<char>) -> Seq<char> {
    if n == 1 {
        thousands_text(n as nat) + " "@ + word
    } else {
        thousands_text(n as nat) + " "@ + word + "s"@
    }
}

fn count_words(n: u64, word: &str) -> (r: String)
    ensures
        r@ == count_text(n, word@),
{
    let mut r = thousands(n);
    r.append(" ");
    r.append(word);
    if n != 1 {
        r.append("s");
    }
    r
}

/// What is said of what a side holds.
pub open spec fn side_line_text(side: Seq<char>, snapshot: Snapshot) -> Seq<char> {
    match snapshot.root {
        None => "  "@ + side + ": \x1b[33mmissing\x1b[0m"@,
        Some(_) => "  "@ + side + ": "@ + count_text(snapshot.files, "file"@) + ", "@ + count_text(
            snapshot.directories,
            "folder"@,
        ) + ", "@ + count_text(snapshot.symlinks, "link"@) + ", "@ + bytes_text(
            snapshot.total_file_size as nat,
        ),
    }
}

/// What is said of what a side holds.
pub fn side_line(side: &str, snapshot: &Snapshot) -> (r: String)
    ensures
        r@ == side_line_text(side@, *snapshot),
{
    let mut line = "  ".to_owned();
    line.append(side);
    match &snapshot.root {
        None => {
            line.append(": \x1b[33mmissing\x1b[0m");
        },
        Some(_) => {
            line.append(": ");
            let files = count_words(snapshot.files, "file");
            line.append(files.as_str());
            line.append(", ");
            let directories = count_words(snapshot.directories, "folder");
            line.append(directories.as_str());
            line.append(", ");
            let links = count_words(snapshot.symlinks, "link");
            line.append(links.as_str());
            line.append(", ");
            let size = format_bytes(snapshot.total_file_size);
            line.append(size.as_str());
        },
    }
    line
}

/// What reading the baseline came to.
#[derive(Debug)]
pub enum Baseline {
    /// There is none.
    Missing,
    /// It was read.
    Readable {
        /// Its generation.
        generation: u64,
    },
    /// It could not be read.
    Unreadable {
        /// Why.
        error: String,
    },
}

/// What is said of the baseline.
pub open spec fn baseline_text(baseline: Baseline) -> Seq<char> {
    match baseline {
        Baseline::Missing => "  baseline: none yet — no cycle has completed"@,
        Baseline::Readable { generation } => "  baseline: readable, generation "@ + thousands_text(
            generation as nat,
        ),
        Baseline::Unreadable { error } => "  baseline: \x1b[31munreadable\x1b[0m — "@ + error@,
    }
}

/// What is said of the baseline.
pub fn baseline_line(baseline: &Baseline) -> (r: String)
    ensures
        r@ == baseline_text(*baseline),
{
    match baseline {
        Baseline::Missing => "  baseline: none yet — no cycle has completed".to_owned(),
        Baseline::Readable { generation } => {
            let mut line = "  baseline: readable, generation ".to_owned();
            let words = thousands(*generation);
            line.append(words.as_str());
            line
        },
        Baseline::Unreadable { error } => {
            let mut line = "  baseline: \x1b[31munreadable\x1b[0m — ".to_owned();
            line.append(error.as_str());
            line
        },
    }
}

/// A change that would be made.
#[derive(Debug)]
pub struct Change {
    /// Where.
    pub path: String,
    /// Whether something was there.
    pub had: bool,
    /// Whether something will be.
    pub gets: bool,
}

/// A path, or a word for the root.
pub open spec fn place_text(path: Seq<char>) -> Seq<char> {
    if path.len() == 0 {
        "(the root)"@
    } else {
        path
    }
}

/// What is said of a change.
pub open spec fn change_text(change: Change, direction: Seq<char>) -> Seq<char> {
    let verb = if !change.had && change.gets {
        "copy"@
    } else if change.had && !change.gets {
        "delete"@
    } else {
        "replace"@
    };
    verb + " "@ + place_text(change.path@) + " "@ + direction
}

/// What is said of the changes and conflicts that reconciling comes to.
pub open spec fn described(alpha: Seq<Change>, beta: Seq<Change>, conflicts: Seq<Seq<char>>) -> Seq<
    Seq<char>,
> {
    Seq::new(alpha.len(), |i: int| change_text(alpha[i], "to alpha"@)) + Seq::new(
        beta.len(),
        |i: int| change_text(beta[i], "to beta"@),
    ) + Seq::new(conflicts.len(), |i: int| "conflict at "@ + place_text(conflicts[i]))
}

fn push_changes(lines: &mut Vec<String>, changes: &[Change], direction: &str)
    ensures
        strings(final(lines)@) == strings(old(lines)@) + Seq::new(
            changes@.len(),
            |i: int| change_text(changes@[i], direction@),
        ),
{
    let ghost start = strings(lines@);
    let ghost all = Seq::new(changes@.len(), |i: int| change_text(changes@[i], direction@));
    let mut i: usize = 0;
    assert(start + all.take(0) =~= start);
    while i < changes.len()
        invariant
            i <= changes@.len(),
            all == Seq::new(changes@.len(), |i: int| change_text(changes@[i], direction@)),
            strings(lines@) == start + all.take(i as int),
        decreases changes@.len() - i,
    {
        let change = &changes[i];
        let mut line = if !change.had && change.gets {
            "copy".to_owned()
        } else if change.had && !change.gets {
            "delete".to_owned()
        } else {
            "replace".to_owned()
        };
        line.append(" ");
        if change.path.as_str().is_empty() {
            line.append("(the root)");
        } else {
            line.append(change.path.as_str());
        }
        line.append(" ");
        line.append(direction);
        push_line(lines, line);
        assert(all.take(i + 1) =~= all.take(i as int).push(all[i as int]));
        assert(strings(lines@) =~= start + all.take(i + 1));
        i += 1;
    }
    assert(all.take(all.len() as int) =~= all);
}

/// What is said of the changes and conflicts that reconciling comes to.
pub fn describe(alpha: &[Change], beta: &[Change], conflicts: &[String]) -> (r: Vec<String>)
    ensures
        strings(r@) == described(alpha@, beta@, strings(conflicts@)),
{
    let mut lines: Vec<String> = Vec::new();
    assert(strings(lines@) =~= Seq::<Seq<char>>::empty());
    push_changes(&mut lines, alpha, "to alpha");
    push_changes(&mut lines, beta, "to beta");
    let ghost start = strings(lines@);
    let ghost paths = strings(conflicts@);
    let ghost all = Seq::new(paths.len(), |i: int| "conflict at "@ + place_text(paths[i]));
    let mut i: usize = 0;
    assert(start + all.take(0) =~= start);
    while i < conflicts.len()
        invariant
            i <= conflicts@.len(),
            paths == strings(conflicts@),
            all == Seq::new(paths.len(), |i: int| "conflict at "@ + place_text(paths[i])),
            strings(lines@) == start + all.take(i as int),
        decreases conflicts@.len() - i,
    {
        let mut line = "conflict at ".to_owned();
        if conflicts[i].as_str().is_empty() {
            line.append("(the root)");
        } else {
            line.append(conflicts[i].as_str());
        }
        push_line(&mut lines, line);
        assert(all.take(i + 1) =~= all.take(i as int).push(all[i as int]));
        assert(strings(lines@) =~= start + all.take(i + 1));
        i += 1;
    }
    assert(all.take(all.len() as int) =~= all);
    proof {
        let a = Seq::new(alpha@.len(), |i: int| change_text(alpha@[i], "to alpha"@));
        let b = Seq::new(beta@.len(), |i: int| change_text(beta@[i], "to beta"@));
        assert(start =~= a + b);
    }
    lines
}

/// How many lines are shown of a list.
pub const SHOWN_LINES: usize = 8;

/// A list below its heading: the first lines, and how many more there are.
pub open spec fn shown_lines(heading: Seq<char>, lines: Seq<Seq<char>>) -> Seq<Seq<char>> {
    let n = if lines.len() < SHOWN_LINES {
        lines.len()
    } else {
        SHOWN_LINES as nat
    };
    let head = seq!["  "@ + heading] + Seq::new(n, |i: int| "    "@ + lines[i]);
    if lines.len() > SHOWN_LINES {
        head.push("    … "@ + thousands_text((lines.len() - SHOWN_LINES) as nat) + " more"@)
    } else {
        head
    }
}

/// A list below its heading: the first lines, and how many more there are.
pub fn show(heading: &str, lines: &[String]) -> (r: Vec<String>)
    ensures
        strings(r@) == shown_lines(heading@, strings(lines@)),
{
    let ghost all = strings(lines@);
    let mut r: Vec<String> = Vec::new();
    assert(strings(r@) =~= Seq::<Seq<char>>::empty());
    let mut line = "  ".to_owned();
    line.append(heading);
    let ghost first = seq![line@];
    push_line(&mut r, line);
    assert(strings(r@) =~= first);
    let n: usize = if lines.len() < SHOWN_LINES {
        lines.len()
    } else {
        SHOWN_LINES
    };
    let ghost shown = Seq::new(n as nat, |i: int| "    "@ + all[i]);
    let mut i: usize = 0;
    assert(first + shown.take(0) =~= first);
    while i < n
        invariant
            i <= n <= lines@.len(),
            all == strings(lines@),
            shown == Seq::new(n as nat, |i: int| "    "@ + all[i]),
            strings(r@) == first + shown.take(i as int),
        decreases n - i,
    {
        let mut line = "    ".to_owned();
        line.append(lines[i].as_str());
        push_line(&mut r, line);
        assert(shown.take(i + 1) =~= shown.take(i as int).push(shown[i as int]));
        assert(strings(r@) =~= first + shown.take(i + 1));
        i += 1;
    }
    assert(shown.take(n as int) =~= shown);
    if lines.len() > SHOWN_LINES {
        let mut line = "    … ".to_owned();
        let more = thousands((lines.len() - SHOWN_LINES) as u64);
        line.append(more.as_str());
        line.append(" more");
        push_line(&mut r, line);
    }
    assert(strings(r@) =~= shown_lines(heading@, all));
    r
}

/// What is said of the next cycle.
pub open spec fn next_cycle_lines(next: Seq<Seq<char>>) -> Seq<Seq<char>> {
    if next.len() == 0 {
        seq!["  the next cycle: nothing to do — in sync"@]
    } else {
        shown_lines("the next cycle would ("@ + decimal_text(next.len()) + "):"@, next)
    }
}

/// What is said of starting over.
pub open spec fn reset_lines(reset: Seq<Seq<char>>) -> Seq<Seq<char>> {
    if reset.len() == 0 {
        seq!["  a reset: \x1b[32mfree\x1b[0m — the two sides match"@]
    } else {
        shown_lines(
            "a reset would ("@ + decimal_text(reset.len())
                + ") — with no baseline, whatever is on one side only is copied to the other, including what was deleted on purpose:"@,
            reset,
        )
    }
}

/// What is said of folders full on one side only.
pub open spec fn lopsided_lines(found: Seq<Seq<char>>) -> Seq<Seq<char>> {
    if found.len() == 0 {
        seq!["  folders full on one side and empty on the other: none"@]
    } else {
        shown_lines("folders full on one side and empty on the other:"@, found)
    }
}

fn one_line(line: &str) -> (r: Vec<String>)
    ensures
        strings(r@) == seq![line@],
{
    let mut r: Vec<String> = Vec::new();
    r.push(line.to_owned());
    assert(strings(r@) =~= seq![line@]);
    r
}

/// What is said of the next cycle.
pub fn show_next(next: &[String]) -> (r: Vec<String>)
    ensures
        strings(r@) == next_cycle_lines(strings(next@)),
{
    if next.len() == 0 {
        return one_line("  the next cycle: nothing to do — in sync");
    }
    let mut heading = "the next cycle would (".to_owned();
    let count = decimal(next.len() as u64);
    heading.append(count.as_str());
    heading.append("):");
    show(heading.as_str(), next)
}

/// What is said of starting over.
pub fn show_reset(reset: &[String]) -> (r: Vec<String>)
    ensures
        strings(r@) == reset_lines(strings(reset@)),
{
    if reset.len() == 0 {
        return one_line("  a reset: \x1b[32mfree\x1b[0m — the two sides match");
    }
    let mut heading = "a reset would (".to_owned();
    let count = decimal(reset.len() as u64);
    heading.append(count.as_str());
    heading.append(
        ") — with no baseline, whatever is on one side only is copied to the other, including what was deleted on purpose:",
    );
    show(heading.as_str(), reset)
}

/// What is said of folders full on one side only.
pub fn show_lopsided(found: &[String]) -> (r: Vec<String>)
    ensures
        strings(r@) == lopsided_lines(strings(found@)),
{
    if found.len() == 0 {
        return one_line("  folders full on one side and empty on the other: none");
    }
    show("folders full on one side and empty on the other:", found)
}

// ---------------------------------------------------------------------------
// Laws
// ---------------------------------------------------------------------------

/// Every entry below a directory counts for one, with what is below it.
pub proof fn law_every_entry_below_counts(children: Seq<NodeView>, child: NodeView)
    ensures
        below_content(ContentView::Directory(Seq::empty())) == 0,
        below_content(ContentView::Directory(children.push(child))) == below_content(
            ContentView::Directory(children),
        ) + 1 + below_content(child.content),
        !(child.content is Directory) ==> below_content(child.content) == 0,
{
    assert(children.push(child).drop_last() =~= children);
}

/// A folder is lopsided exactly where one side holds eight entries or more
/// below it and the other side none: it has nothing there, something else, or
/// an empty directory. The root never is.
pub proof fn law_a_lopsided_folder_is_full_on_one_side(
    alpha: Option<NodeView>,
    beta: Option<NodeView>,
    path: Seq<char>,
)
    ensures
        ({
            let nothing_a = alpha is None || !(alpha->0.content is Directory) || entries(
                alpha->0.content,
            ).len() == 0;
            let nothing_b = beta is None || !(beta->0.content is Directory) || entries(
                beta->0.content,
            ).len() == 0;
            let line = lopsided_line(alpha, beta, path);
            &&& path.len() == 0 ==> line is None
            &&& nothing_a == nothing_b ==> line is None
            &&& path.len() > 0 && !nothing_a && nothing_b ==> (line is Some <==> below_content(
                alpha->0.content,
            ) >= 8)
            &&& path.len() > 0 && nothing_a && !nothing_b ==> (line is Some <==> below_content(
                beta->0.content,
            ) >= 8)
            &&& line is Some ==> line->0.len() > path.len() && line->0.take(path.len() as int)
                == path
        }),
{
    if let Some(line) = lopsided_line(alpha, beta, path) {
        reveal_strlit(" — ");
        assert(line.take(path.len() as int) =~= path);
    }
}

/// A folder of the roots that is lopsided is told of.
pub proof fn law_a_lopsided_folder_is_told_of(
    alpha: ContentView,
    beta: ContentView,
    path: Seq<char>,
    n: int,
    i: int,
)
    requires
        0 <= i < n <= both_names(alpha, beta).len(),
        lopsided_line(
            named(entries(alpha), both_names(alpha, beta)[i]),
            named(entries(beta), both_names(alpha, beta)[i]),
            joined_path(path, both_names(alpha, beta)[i]),
        ) is Some,
    ensures
        lopsided_below(alpha, beta, path, n).contains(
            lopsided_line(
                named(entries(alpha), both_names(alpha, beta)[i]),
                named(entries(beta), both_names(alpha, beta)[i]),
                joined_path(path, both_names(alpha, beta)[i]),
            )->0,
        ),
    decreases n,
{
    let told = lopsided_line(
        named(entries(alpha), both_names(alpha, beta)[i]),
        named(entries(beta), both_names(alpha, beta)[i]),
        joined_path(path, both_names(alpha, beta)[i]),
    )->0;
    let name = both_names(alpha, beta)[n - 1];
    let a = named(entries(alpha), name);
    let b = named(entries(beta), name);
    let here = joined_path(path, name);
    let front = lopsided_below(alpha, beta, path, n - 1);
    if i < n - 1 {
        law_a_lopsided_folder_is_told_of(alpha, beta, path, n - 1, i);
    }
    match lopsided_line(a, b, here) {
        Some(line) => {
            crate::text::lemma_pushed(front, line, told);
        },
        None => {
            if a is Some && b is Some && a->0.content is Directory && b->0.content is Directory
                && alpha is Directory {
                crate::text::lemma_either(
                    front,
                    lopsided_below(
                        a->0.content,
                        b->0.content,
                        here,
                        both_names(a->0.content, b->0.content).len() as int,
                    ),
                    told,
                );
            }
        },
    }
}

/// What a cycle would do is told change by change: what a side does not have
/// and gets is copied, what it has and does not get is deleted, and anything
/// else is replaced.
pub proof fn law_a_change_is_told_as_what_it_does(
    alpha: Seq<Change>,
    beta: Seq<Change>,
    conflicts: Seq<Seq<char>>,
    change: Change,
    direction: Seq<char>,
)
    requires
        change.path@.len() > 0,
    ensures
        described(alpha, beta, conflicts).len() == alpha.len() + beta.len() + conflicts.len(),
        !change.had && change.gets ==> change_text(change, direction) == "copy "@ + change.path@
            + " "@ + direction,
        change.had && !change.gets ==> change_text(change, direction) == "delete "@ + change.path@
            + " "@ + direction,
        change.had && change.gets ==> change_text(change, direction) == "replace "@ + change.path@
            + " "@ + direction,
{
    reveal_strlit("copy");
    reveal_strlit("delete");
    reveal_strlit("replace");
    reveal_strlit(" ");
    reveal_strlit("copy ");
    reveal_strlit("delete ");
    reveal_strlit("replace ");
    assert("copy"@ + " "@ =~= "copy "@);
    assert("delete"@ + " "@ =~= "delete "@);
    assert("replace"@ + " "@ =~= "replace "@);
}

/// A list is shown with its first eight lines at most, each as it is behind
/// its lead, and then how many more there are.
pub proof fn law_a_list_is_shown_in_eight_lines(
    heading: Seq<char>,
    lines: Seq<Seq<char>>,
    i: int,
)
    ensures
        lines.len() <= 8 ==> shown_lines(heading, lines).len() == 1 + lines.len(),
        lines.len() > 8 ==> shown_lines(heading, lines).len() == 10 && shown_lines(
            heading,
            lines,
        ).last() == "    … "@ + thousands_text((lines.len() - 8) as nat) + " more"@,
        shown_lines(heading, lines)[0] == "  "@ + heading,
        0 <= i < 8 && i < lines.len() ==> shown_lines(heading, lines)[i + 1] == "    "@ + lines[i],
{
}

} // verus!
