//! Selecting sessions, by group or by folder, and destinations within them.
use crate::plan::SessionPlan;
use crate::text::{
    chars_of, joined, optional, same_text, segments, split, string_of, texts,
};
use vstd::prelude::*;
use vstd::slice::slice_subrange;

verus! {

/// Whether a text is marked as a path: it starts with `.`, `/` or `~`.
pub open spec fn marked_path(s: Seq<char>) -> bool {
    s.len() > 0 && (s[0] == '.' || s[0] == '/' || s[0] == '~')
}

/// Whether a text is marked as a path.
pub fn is_marked_path(s: &str) -> (r: bool)
    ensures
        r == marked_path(s@),
{
    let all = chars_of(s);
    all.len() > 0 && (all[0] == '.' || all[0] == '/' || all[0] == '~')
}

/// Whether a group has the name.
pub open spec fn is_group(plans: Seq<SessionPlan>, name: Seq<char>) -> bool {
    exists|i: int| 0 <= i < plans.len() && (#[trigger] plans[i]).group@ == name
}

fn names_group(plans: &[SessionPlan], name: &str) -> (r: bool)
    ensures
        r == is_group(plans@, name@),
{
    let mut i: usize = 0;
    while i < plans.len()
        invariant
            i <= plans@.len(),
            forall|k: int| 0 <= k < i ==> (#[trigger] plans@[k]).group@ != name@,
        decreases plans@.len() - i,
    {
        if same_text(plans[i].group.as_str(), name) {
            return true;
        }
        i += 1;
    }
    false
}

/// Whether a selector is a path, given whether it names something that exists.
pub open spec fn by_path(plans: Seq<SessionPlan>, selector: Seq<char>, exists_: bool) -> bool {
    marked_path(selector) || (!is_group(plans, selector) && exists_)
}

/// Whether a selector is a path: marked as one, or a bare word that is no
/// group's name and names something that exists.
pub fn selects_by_path(plans: &[SessionPlan], selector: &str, exists_: bool) -> (r: bool)
    ensures
        r == by_path(plans@, selector@, exists_),
{
    is_marked_path(selector) || (!names_group(plans, selector) && exists_)
}

/// Those of some names that are not empty and not `.`, but for a `.` before
/// all others.
pub open spec fn without_dots(parts: Seq<Seq<char>>) -> Seq<Seq<char>>
    decreases parts.len(),
{
    if parts.len() == 0 {
        Seq::empty()
    } else if parts.last().len() == 0 || (parts.last() == "."@ && parts.len() > 1) {
        without_dots(parts.drop_last())
    } else {
        without_dots(parts.drop_last()).push(parts.last())
    }
}

/// The names on the way along a path.
pub open spec fn steps(path: Seq<char>) -> Seq<Seq<char>> {
    without_dots(segments(path, '/'))
}

/// Whether a path starts at the top.
pub open spec fn rooted(path: Seq<char>) -> bool {
    path.len() > 0 && path[0] == '/'
}

/// What is left of a folder's path below a root: `Some` of nothing where they
/// are the same, and `None` where the folder does not lie in the root.
pub open spec fn remainder(root: Seq<char>, folder: Seq<char>) -> Option<Seq<Seq<char>>> {
    let a = steps(root);
    let b = steps(folder);
    if rooted(root) == rooted(folder) && a.len() <= b.len() && b.take(a.len() as int) == a {
        Some(b.skip(a.len() as int))
    } else {
        None
    }
}

/// The names on the way along a path.
pub fn steps_of(path: &str) -> (r: Vec<Vec<char>>)
    ensures
        texts(r@) == steps(path@),
{
    let parts = split(chars_of(path).as_slice(), '/');
    let ghost all = segments(path@, '/');
    let mut r: Vec<Vec<char>> = Vec::new();
    let mut i: usize = 0;
    assert(texts(r@) =~= without_dots(all.take(0)));
    while i < parts.len()
        invariant
            i <= parts@.len(),
            texts(parts@) == all,
            texts(r@) == without_dots(all.take(i as int)),
        decreases parts@.len() - i,
    {
        proof {
            assert(all.take(i + 1).drop_last() =~= all.take(i as int));
            assert(all.take(i + 1).last() == parts@[i as int]@);
        }
        let part = string_of(parts[i].as_slice());
        if !part.as_str().is_empty() && !(i > 0 && same_text(part.as_str(), ".")) {
            let ghost before = texts(r@);
            r.push(chars_of(part.as_str()));
            assert(texts(r@) =~= before.push(part@));
        }
        i += 1;
    }
    assert(all.take(all.len() as int) =~= all);
    r
}

/// The path of a folder below a root, or `None` where it does not lie in it;
/// the root itself is the empty path.
pub fn relative_to(root: &str, folder: &str) -> (r: Option<String>)
    ensures
        optional(r) == (match remainder(root@, folder@) {
            Some(rest) => Some(joined(rest, "/"@)),
            None => None,
        }),
        r matches Some(text) ==> (remainder(root@, folder@)->0.len() == 0 ==> text@.len() == 0),
{
    let a = steps_of(root);
    let b = steps_of(folder);
    let from_top = chars_of(root);
    let also = chars_of(folder);
    let x = from_top.len() > 0 && from_top[0] == '/';
    let y = also.len() > 0 && also[0] == '/';
    assert(texts(a@).len() == a@.len() && texts(b@).len() == b@.len());
    if x != y || a.len() > b.len() {
        return None;
    }
    let mut i: usize = 0;
    while i < a.len()
        invariant
            i <= a@.len() <= b@.len(),
            texts(a@) == steps(root@),
            texts(b@) == steps(folder@),
            forall|k: int| 0 <= k < i ==> texts(a@)[k] == texts(b@)[k],
        decreases a@.len() - i,
    {
        if !crate::text::same(a[i].as_slice(), b[i].as_slice()) {
            assert(texts(b@).take(a@.len() as int)[i as int] != texts(a@)[i as int]);
            return None;
        }
        i += 1;
    }
    assert(texts(b@).take(a@.len() as int) =~= texts(a@));
    let mut tail: Vec<Vec<char>> = Vec::new();
    let mut k: usize = a.len();
    while k < b.len()
        invariant
            a@.len() <= k <= b@.len(),
            tail@.len() == k - a@.len(),
            forall|j: int| 0 <= j < tail@.len() ==> (#[trigger] tail@[j])@ == b@[a@.len() + j]@,
        decreases b@.len() - k,
    {
        tail.push(vstd::slice::slice_to_vec(b[k].as_slice()));
        k += 1;
    }
    assert(texts(tail@) =~= texts(b@).skip(a@.len() as int));
    assert(texts(tail@).take(tail@.len() as int) =~= texts(tail@));
    Some(crate::text::join_first(tail.as_slice(), tail.len(), "/"))
}

/// What a selector picked out.
#[derive(Debug)]
pub struct Selection {
    /// The sessions.
    pub plans: Vec<SessionPlan>,
    /// For each session, what the selector names below its alpha root; `None`
    /// where it named no path, or the root itself.
    pub relatives: Vec<Option<String>>,
    /// What all sessions agree the selector names.
    pub relative: Option<String>,
}

/// Why nothing is selected.
#[derive(Debug)]
pub enum SelectError {
    /// No selected session has a destination of that name.
    NoDestination {
        /// The name.
        host: String,
    },
    /// No group synchronizes the folder, or anything containing it.
    NotSynchronized {
        /// The folder.
        folder: String,
    },
    /// No session matches the group and the destination.
    NoSession {
        /// The group.
        group: String,
        /// The destination.
        host: String,
    },
    /// There is no such group.
    NoGroup {
        /// The name.
        group: String,
    },
    /// There are no sessions.
    NoSessions,
}

/// Whether a selector picks a session, and what it names below its root:
/// `None` where it does not, and `Some(None)` where it names no path below.
pub open spec fn picked(
    plan: SessionPlan,
    selector: Option<Seq<char>>,
    folder: Option<Seq<char>>,
) -> Option<Option<Seq<char>>> {
    match (folder, selector) {
        (Some(folder), _) => match remainder(plan.alpha_identity@, folder) {
            Some(rest) => if rest.len() == 0 {
                Some(None)
            } else {
                Some(Some(joined(rest, "/"@)))
            },
            None => None,
        },
        (None, Some(group)) => if plan.group@ == group {
            Some(None)
        } else {
            None
        },
        (None, None) => Some(None),
    }
}

/// Whether a destination is a session's: by its host, its root, or the
/// identity of its root.
pub open spec fn destined(
    plan: SessionPlan,
    host: Option<Seq<char>>,
    host_identity: Option<Seq<char>>,
) -> bool {
    match host {
        None => true,
        Some(host) => plan.host@ == host || plan.beta_spec@ == host || host_identity == Some(
            plan.beta_identity@,
        ),
    }
}

/// How many of the first `n` sessions a selector picks, whatever their
/// destinations.
pub open spec fn picked_count(
    plans: Seq<SessionPlan>,
    selector: Option<Seq<char>>,
    folder: Option<Seq<char>>,
    n: int,
) -> int
    decreases n,
{
    if n <= 0 {
        0
    } else {
        picked_count(plans, selector, folder, n - 1) + if picked(
            plans[n - 1],
            selector,
            folder,
        ) is Some {
            1int
        } else {
            0
        }
    }
}

/// The sessions among the first `n` that are selected, and what is named below
/// each one's root.
pub open spec fn selected(
    plans: Seq<SessionPlan>,
    selector: Option<Seq<char>>,
    folder: Option<Seq<char>>,
    host: Option<Seq<char>>,
    host_identity: Option<Seq<char>>,
    n: int,
) -> Seq<(SessionPlan, Option<Seq<char>>)>
    decreases n,
{
    if n <= 0 {
        Seq::empty()
    } else {
        let front = selected(plans, selector, folder, host, host_identity, n - 1);
        match picked(plans[n - 1], selector, folder) {
            Some(rest) => if destined(plans[n - 1], host, host_identity) {
                front.push((plans[n - 1], rest))
            } else {
                front
            },
            None => front,
        }
    }
}

/// What a selection's sessions agree on.
pub open spec fn agreed_remainder(
    list: Seq<(SessionPlan, Option<Seq<char>>)>,
) -> Option<Seq<char>> {
    if list.len() > 0 && (forall|i: int| 0 <= i < list.len() ==> (#[trigger] list[i]).1 == list[0].1) {
        list[0].1
    } else {
        None
    }
}

/// What a selection holds.
pub open spec fn selection_list(selection: Selection) -> Seq<(SessionPlan, Option<Seq<char>>)> {
    Seq::new(
        selection.plans@.len(),
        |i: int| (selection.plans@[i], optional(selection.relatives@[i])),
    )
}

/// An optional text, in a specification.
pub open spec fn text_option(s: Option<&str>) -> Option<Seq<char>> {
    match s {
        Some(text) => Some(text@),
        None => None,
    }
}

/// Selects sessions. A folder (what the selector resolves to where it is a
/// path) picks every session whose alpha root is or contains it; any other
/// selector is a group's name. A host then narrows the selection, by what the
/// destination is called or, where it is a path, by what that resolves to.
pub fn select(
    plans: &[SessionPlan],
    selector: Option<&str>,
    folder: Option<&str>,
    host: Option<&str>,
    host_identity: Option<&str>,
) -> (r: Result<Selection, SelectError>)
    ensures
        ({
            let s = text_option(selector);
            let f = text_option(folder);
            let h = text_option(host);
            let n = plans@.len() as int;
            let found = selected(plans@, s, f, h, text_option(host_identity), n);
            if found.len() > 0 {
                &&& r matches Ok(selection)
                &&& selection_list(selection) == found
                &&& selection.plans@.len() == selection.relatives@.len()
                &&& optional(selection.relative) == agreed_remainder(found)
            } else if h is Some && picked_count(plans@, s, f, n) > 0 {
                r matches Err(SelectError::NoDestination { host: name }) && Some(name@) == h
            } else if f is Some {
                r matches Err(SelectError::NotSynchronized { folder: name }) && Some(name@) == f
            } else if s is Some && h is Some {
                r matches Err(SelectError::NoSession { group: g, host: name }) && Some(g@) == s
                    && Some(name@) == h
            } else if s is Some {
                r matches Err(SelectError::NoGroup { group: g }) && Some(g@) == s
            } else {
                r matches Err(SelectError::NoSessions)
            }
        }),
{
    let ghost s = text_option(selector);
    let ghost f = text_option(folder);
    let ghost h = text_option(host);
    let ghost hi = text_option(host_identity);
    let mut chosen: Vec<SessionPlan> = Vec::new();
    let mut relatives: Vec<Option<String>> = Vec::new();
    let mut any: bool = false;
    let mut i: usize = 0;
    while i < plans.len()
        invariant
            i <= plans@.len(),
            s == text_option(selector),
            f == text_option(folder),
            h == text_option(host),
            hi == text_option(host_identity),
            chosen@.len() == relatives@.len(),
            chosen@.len() == selected(plans@, s, f, h, hi, i as int).len(),
            forall|k: int|
                0 <= k < chosen@.len() ==> (chosen@[k], optional(#[trigger] relatives@[k]))
                    == selected(plans@, s, f, h, hi, i as int)[k],
            any == (picked_count(plans@, s, f, i as int) > 0),
            picked_count(plans@, s, f, i as int) >= 0,
        decreases plans@.len() - i,
    {
        let plan = &plans[i];
        let rest: Option<Option<String>> = match folder {
            Some(folder) => match relative_to(plan.alpha_identity.as_str(), folder) {
                Some(text) => {
                    proof {
                        lemma_steps_joined(plan.alpha_identity@, folder@);
                    }
                    if text.as_str().is_empty() {
                        Some(None)
                    } else {
                        Some(Some(text))
                    }
                },
                None => None,
            },
            None => match selector {
                Some(group) => if same_text(plan.group.as_str(), group) {
                    Some(None)
                } else {
                    None
                },
                None => Some(None),
            },
        };
        let ghost front = selected(plans@, s, f, h, hi, i as int);
        if let Some(relative) = rest {
            any = true;
            let here = match host {
                None => true,
                Some(name) => same_text(plan.host.as_str(), name) || same_text(
                    plan.beta_spec.as_str(),
                    name,
                ) || match host_identity {
                    Some(identity) => same_text(plan.beta_identity.as_str(), identity),
                    None => false,
                },
            };
            assert(here == destined(*plan, h, hi));
            if here {
                let ghost added = optional(relative);
                chosen.push(plan.duplicate());
                relatives.push(relative);
                proof {
                    let all = selected(plans@, s, f, h, hi, i + 1);
                    assert(all == front.push((*plan, added)));
                }
            }
        }
        i += 1;
    }
    let ghost found = selected(plans@, s, f, h, hi, plans@.len() as int);
    if chosen.len() > 0 {
        let mut agree: bool = true;
        let mut k: usize = 0;
        while k < relatives.len()
            invariant
                k <= relatives@.len(),
                relatives@.len() > 0,
                agree == (forall|j: int|
                    0 <= j < k ==> optional(#[trigger] relatives@[j]) == optional(relatives@[0])),
            decreases relatives@.len() - k,
        {
            let same = match (&relatives[k], &relatives[0]) {
                (Some(a), Some(b)) => *a == *b,
                (None, None) => true,
                _ => false,
            };
            if !same {
                assert(optional(relatives@[k as int]) != optional(relatives@[0]));
                agree = false;
            }
            k += 1;
        }
        let relative = if agree {
            crate::text::copy_optional(&relatives[0])
        } else {
            None
        };
        proof {
            assert forall|j: int| 0 <= j < found.len() implies (#[trigger] found[j]).1 == optional(
                relatives@[j],
            ) by {
                assert((chosen@[j], optional(relatives@[j])) == found[j]);
            }
            if agree {
                assert forall|j: int| 0 <= j < found.len() implies (#[trigger] found[j]).1
                    == found[0].1 by {
                    assert(optional(relatives@[j]) == optional(relatives@[0]));
                }
            } else {
                let j = choose|j: int|
                    0 <= j < relatives@.len() && optional(#[trigger] relatives@[j]) != optional(
                        relatives@[0],
                    );
                assert(found[j].1 != found[0].1);
            }
        }
        let selection = Selection { plans: chosen, relatives, relative };
        assert(selection_list(selection) =~= found);
        return Ok(selection);
    }
    match (host, folder, selector) {
        (Some(host), _, _) if any => Err(SelectError::NoDestination { host: host.to_owned() }),
        (_, Some(folder), _) => Err(SelectError::NotSynchronized { folder: folder.to_owned() }),
        (Some(host), None, Some(group)) => Err(
            SelectError::NoSession { group: group.to_owned(), host: host.to_owned() },
        ),
        (None, None, Some(group)) => Err(SelectError::NoGroup { group: group.to_owned() }),
        _ => Err(SelectError::NoSessions),
    }
}

/// Only the root itself leaves nothing below it.
proof fn lemma_steps_joined(root: Seq<char>, folder: Seq<char>)
    ensures
        remainder(root, folder) matches Some(rest) ==> (joined(rest, "/"@).len() == 0
            <==> rest.len() == 0),
{
    if let Some(rest) = remainder(root, folder) {
        lemma_without_dots(segments(folder, '/'));
        let a = steps(root);
        let b = steps(folder);
        assert forall|k: int| 0 <= k < rest.len() implies (#[trigger] rest[k]).len() > 0 by {
            assert(rest[k] == b[a.len() + k]);
        }
        lemma_joined_nonempty(rest);
    }
}

proof fn lemma_without_dots(parts: Seq<Seq<char>>)
    ensures
        forall|k: int|
            0 <= k < without_dots(parts).len() ==> (#[trigger] without_dots(parts)[k]).len() > 0,
    decreases parts.len(),
{
    if parts.len() > 0 {
        lemma_without_dots(parts.drop_last());
        let front = without_dots(parts.drop_last());
        assert forall|k: int| 0 <= k < without_dots(parts).len() implies (#[trigger] without_dots(
            parts,
        )[k]).len() > 0 by {
            if k < front.len() {
                assert(front[k].len() > 0);
            }
        }
    }
}

proof fn lemma_joined_nonempty(parts: Seq<Seq<char>>)
    requires
        forall|k: int| 0 <= k < parts.len() ==> (#[trigger] parts[k]).len() > 0,
    ensures
        joined(parts, "/"@).len() == 0 <==> parts.len() == 0,
{
    if parts.len() == 1 {
        assert(parts[0].len() > 0);
    } else if parts.len() > 1 {
        assert(parts[parts.len() - 1].len() > 0);
        assert(joined(parts, "/"@) == joined(parts.drop_last(), "/"@) + "/"@ + parts.last());
    }
}

// ---------------------------------------------------------------------------
// The path a command was given
// ---------------------------------------------------------------------------

/// A path without `./` before it, however often.
pub open spec fn without_here(path: Seq<char>) -> Seq<char>
    decreases path.len(),
{
    if path.len() >= 2 && path[0] == '.' && path[1] == '/' {
        without_here(path.skip(2))
    } else {
        path
    }
}

/// A path without separators at its end.
pub open spec fn without_slashes(path: Seq<char>) -> Seq<char>
    decreases path.len(),
{
    if path.len() > 0 && path.last() == '/' {
        without_slashes(path.drop_last())
    } else {
        path
    }
}

/// A path as it was meant: without `./` before it and separators after it.
pub open spec fn tidied(path: Seq<char>) -> Seq<char> {
    without_slashes(without_here(path))
}

/// A path as it was meant.
pub fn tidy(path: &str) -> (r: String)
    ensures
        r@ == tidied(path@),
{
    let all = chars_of(path);
    let mut from: usize = 0;
    assert(all@.skip(0) =~= all@);
    while all.len() - from >= 2 && all[from] == '.' && all[from + 1] == '/'
        invariant
            from <= all@.len(),
            without_here(all@) == without_here(all@.skip(from as int)),
        decreases all@.len() - from,
    {
        assert(all@.skip(from as int).skip(2) =~= all@.skip(from + 2));
        from += 2;
    }
    let mut to: usize = all.len();
    assert(all@.subrange(from as int, to as int) =~= all@.skip(from as int));
    while to > from && all[to - 1] == '/'
        invariant
            from <= to <= all@.len(),
            without_slashes(all@.skip(from as int)) == without_slashes(
                all@.subrange(from as int, to as int),
            ),
        decreases to - from,
    {
        assert(all@.subrange(from as int, to as int).drop_last() =~= all@.subrange(
            from as int,
            to - 1,
        ));
        to -= 1;
    }
    string_of(slice_subrange(all.as_slice(), from, to))
}

/// Why a command has no path to work on.
#[derive(Clone, Copy, Debug, PartialEq, Eq)]
pub enum PathError {
    /// None was named.
    Unnamed,
    /// The one named lies in several groups, each inside another.
    Nested,
}

/// The path a command was given for the selected session at `index`: the
/// explicit one, or what the selector named below that session's root.
pub fn relative_in(selection: &Selection, index: usize, explicit: Option<&str>) -> (r: Result<
    String,
    PathError,
>)
    ensures
        match text_option(explicit) {
            Some(path) => r matches Ok(text) && text@ == tidied(path),
            None => if index < selection.relatives@.len() && selection.relatives@[index as int] is Some {
                r matches Ok(text) && Some(text@) == optional(selection.relatives@[index as int])
            } else {
                r matches Err(PathError::Unnamed)
            },
        },
{
    if let Some(path) = explicit {
        return Ok(tidy(path));
    }
    if index < selection.relatives.len() {
        if let Some(rest) = &selection.relatives[index] {
            return Ok(rest.clone());
        }
    }
    Err(PathError::Unnamed)
}

/// Whether some session of a selection has a path below its root.
pub open spec fn names_below(selection: Selection) -> bool {
    exists|i: int|
        0 <= i < selection.relatives@.len() && (#[trigger] selection.relatives@[i]) is Some
}

/// The path a command was given, one for every selected session. A selector
/// that names a different one below each root is refused.
pub fn relative_path(selection: &Selection, explicit: Option<&str>) -> (r: Result<
    String,
    PathError,
>)
    ensures
        match text_option(explicit) {
            Some(path) => r matches Ok(text) && text@ == tidied(path),
            None => if selection.relative is None && names_below(*selection) {
                r matches Err(PathError::Nested)
            } else if selection.relatives@.len() > 0 && selection.relatives@[0] is Some {
                r matches Ok(text) && Some(text@) == optional(selection.relatives@[0])
            } else {
                r matches Err(PathError::Unnamed)
            },
        },
{
    if explicit.is_none() && selection.relative.is_none() {
        let mut i: usize = 0;
        while i < selection.relatives.len()
            invariant
                i <= selection.relatives@.len(),
                explicit is None,
                selection.relative is None,
                forall|k: int| 0 <= k < i ==> (#[trigger] selection.relatives@[k]) is None,
            decreases selection.relatives@.len() - i,
        {
            if selection.relatives[i].is_some() {
                assert(selection.relatives@[i as int] is Some);
                return Err(PathError::Nested);
            }
            i += 1;
        }
    }
    relative_in(selection, 0, explicit)
}

// ---------------------------------------------------------------------------
// Laws
// ---------------------------------------------------------------------------

/// A selector that starts with a dot, a separator or a tilde is a path,
/// whatever the groups are called. Any other is a group's name where a group
/// has it, whatever exists, and otherwise a path where one exists.
pub proof fn law_a_group_s_name_is_no_path(
    plans: Seq<SessionPlan>,
    selector: Seq<char>,
    i: int,
    exists_: bool,
)
    ensures
        selector.len() > 0 && (selector[0] == '.' || selector[0] == '/' || selector[0] == '~')
            ==> by_path(plans, selector, exists_),
        selector.len() > 0 && selector[0] != '.' && selector[0] != '/' && selector[0] != '~' && 0
            <= i < plans.len() && plans[i].group@ == selector ==> !by_path(
            plans,
            selector,
            exists_,
        ),
        (selector.len() == 0 || (selector[0] != '.' && selector[0] != '/' && selector[0] != '~'))
            && (forall|k: int| 0 <= k < plans.len() ==> (#[trigger] plans[k]).group@ != selector)
            ==> by_path(plans, selector, exists_) == exists_,
{
}

/// A step more along a path is a step more; separators at its end, and dots,
/// are none.
pub proof fn law_a_name_is_a_step(path: Seq<char>, name: Seq<char>)
    requires
        name.len() > 0,
        !name.contains('/'),
        name != seq!['.'],
    ensures
        steps(path + seq!['/'] + name) == steps(path).push(name),
        steps(path + seq!['/']) == steps(path),
        steps(path + seq!['/'] + seq!['.']) == steps(path),
        steps(name) == seq![name],
        rooted(path + seq!['/'] + name) == (path.len() == 0 || path[0] == '/'),
{
    reveal_strlit(".");
    assert("."@ =~= seq!['.']);
    let parts = segments(path, '/');
    crate::text::lemma_segments_behind(path, '/', name);
    assert(parts.push(name).drop_last() =~= parts);
    crate::text::lemma_segments_behind(path, '/', Seq::empty());
    assert(path + seq!['/'] + Seq::<char>::empty() =~= path + seq!['/']);
    assert(parts.push(Seq::<char>::empty()).drop_last() =~= parts);
    assert(!seq!['.'].contains('/')) by {
        assert(seq!['.'][0] == '.');
    }
    crate::text::lemma_segments_behind(path, '/', seq!['.']);
    crate::text::lemma_segments_nonempty(path, '/');
    assert(parts.push(seq!['.']).drop_last() =~= parts);
    crate::text::lemma_segments_single(name, '/');
    assert(seq![name].drop_last() =~= Seq::<Seq<char>>::empty());
    assert(without_dots(seq![name].drop_last()) =~= Seq::<Seq<char>>::empty());
    assert(steps(name) =~= seq![name]);
}

/// A root contains itself and what is below it, step by step, and nothing
/// else: not a folder whose name only starts like its own.
pub proof fn law_a_root_contains_what_is_below_it(
    root: Seq<char>,
    folder: Seq<char>,
    name: Seq<char>,
)
    requires
        folder.len() > 0,
        name.len() > 0,
        !name.contains('/'),
        name != seq!['.'],
    ensures
        remainder(root, root) == Some(Seq::<Seq<char>>::empty()),
        remainder(root, folder) matches Some(rest) ==> remainder(root, folder + seq!['/'] + name)
            == Some(rest.push(name)),
        remainder(root, folder) matches Some(rest) ==> steps(folder) == steps(root) + rest,
        remainder(root, folder) is None <==> rooted(root) != rooted(folder) || forall|
            rest: Seq<Seq<char>>,
        |
            steps(folder) != #[trigger] (steps(root) + rest),
{
    let a = steps(root);
    let b = steps(folder);
    assert(a.take(a.len() as int) =~= a);
    assert(a.skip(a.len() as int) =~= Seq::<Seq<char>>::empty());
    law_a_name_is_a_step(folder, name);
    let c = steps(folder + seq!['/'] + name);
    if let Some(rest) = remainder(root, folder) {
        assert(b =~= a + rest);
        assert(c.take(a.len() as int) =~= a);
        assert(c.skip(a.len() as int) =~= rest.push(name));
    } else if rooted(root) == rooted(folder) {
        assert forall|rest: Seq<Seq<char>>| b != #[trigger] (a + rest) by {
            if b == a + rest {
                assert(b.take(a.len() as int) =~= a);
            }
        }
    }
}

/// A session is selected exactly where its root contains the folder, or, where
/// no folder is given, where its group has the name, or no name is given; and
/// where a host is given, where its destination is called that, or resolves to
/// what the host does.
pub proof fn law_a_session_is_selected_by_folder_group_and_host(
    plans: Seq<SessionPlan>,
    selector: Option<Seq<char>>,
    folder: Option<Seq<char>>,
    host: Option<Seq<char>>,
    host_identity: Option<Seq<char>>,
    n: int,
    plan: SessionPlan,
    rest: Option<Seq<char>>,
)
    requires
        0 <= n <= plans.len(),
    ensures
        selected(plans, selector, folder, host, host_identity, n).contains((plan, rest)) <==> {
            &&& exists|i: int| 0 <= i < n && #[trigger] plans[i] == plan
            &&& host is None || plan.host@ == host->0 || plan.beta_spec@ == host->0
                || host_identity == Some(plan.beta_identity@)
            &&& folder is None ==> rest is None && (selector is None || plan.group@ == selector->0)
            &&& folder is Some ==> {
                let below = remainder(plan.alpha_identity@, folder->0);
                &&& below is Some
                &&& below->0.len() == 0 <==> rest is None
                &&& below->0.len() > 0 ==> rest == Some(joined(below->0, "/"@))
            }
        },
    decreases n,
{
    if n > 0 {
        law_a_session_is_selected_by_folder_group_and_host(
            plans,
            selector,
            folder,
            host,
            host_identity,
            n - 1,
            plan,
            rest,
        );
        let front = selected(plans, selector, folder, host, host_identity, n - 1);
        if let Some(found) = picked(plans[n - 1], selector, folder) {
            crate::text::lemma_pushed(front, (plans[n - 1], found), (plan, rest));
        }
    }
}

/// Where a selection is a folder in several sessions, it stands for one path
/// exactly where it is the same in all of them.
pub proof fn law_a_selection_stands_for_one_path(
    list: Seq<(SessionPlan, Option<Seq<char>>)>,
    i: int,
    j: int,
)
    requires
        0 <= i < list.len(),
        0 <= j < list.len(),
    ensures
        agreed_remainder(list) matches Some(path) ==> list[i].1 == Some(path),
        list[i].1 != list[j].1 ==> agreed_remainder(list) is None,
        (forall|k: int| 0 <= k < list.len() ==> (#[trigger] list[k]).1 == list[i].1)
            ==> agreed_remainder(list) == list[i].1,
{
}

/// A path that is given is taken without a leading `./` and without separators
/// at its end, and otherwise as it is.
pub proof fn law_a_path_is_tidied(path: Seq<char>)
    requires
        path.len() > 0,
        path.last() != '/',
    ensures
        tidied(seq!['.', '/'] + path) == tidied(path),
        path[0] != '.' ==> tidied(path) == path,
        path[0] != '.' ==> tidied(path + seq!['/']) == path,
        path[0] != '.' ==> tidied(seq!['.', '/'] + path + seq!['/']) == path,
{
    let dotted = seq!['.', '/'] + path;
    assert(dotted.skip(2) =~= path);
    let ended = path + seq!['/'];
    assert(ended.drop_last() =~= path);
    if path[0] != '.' {
        assert(without_here(ended) == ended);
        assert(without_slashes(path) == path);
        let both = seq!['.', '/'] + path + seq!['/'];
        assert(both.skip(2) =~= ended);
        assert(without_here(both) == without_here(ended));
    }
}

} // verus!
