//! Paths and the folders that cover them.
use crate::text::{chars_of, has_prefix, same_text, starts_with, strings};
use vstd::prelude::*;

verus! {

/// Whether a path is a folder or lies below it.
pub open spec fn covers(folder: Seq<char>, path: Seq<char>) -> bool {
    path == folder || has_prefix(path, folder + "/"@)
}

/// Whether a path lies below a folder.
pub open spec fn below(folder: Seq<char>, path: Seq<char>) -> bool {
    has_prefix(path, folder + "/"@)
}

/// Whether a path lies below a folder.
pub fn is_below(folder: &str, path: &str) -> (r: bool)
    ensures
        r == below(folder@, path@),
{
    let mut lead = folder.to_owned();
    lead.append("/");
    let all = chars_of(path);
    let lead = chars_of(lead.as_str());
    starts_with(all.as_slice(), lead.as_slice())
}

/// Whether a path is a folder or lies below it: a sibling whose name merely
/// starts the same does not.
pub fn is_covered(folder: &str, path: &str) -> (r: bool)
    ensures
        r == covers(folder@, path@),
{
    same_text(path, folder) || is_below(folder, path)
}

/// Whether one of the folders covers a path.
pub open spec fn any_covers(folders: Seq<Seq<char>>, path: Seq<char>) -> bool {
    exists|i: int| 0 <= i < folders.len() && covers(#[trigger] folders[i], path)
}

/// Whether one of the folders covers a path.
pub fn is_covered_by_any(folders: &[String], path: &str) -> (r: bool)
    ensures
        r == any_covers(strings(folders@), path@),
{
    let mut i: usize = 0;
    while i < folders.len()
        invariant
            i <= folders@.len(),
            forall|k: int| 0 <= k < i ==> !covers(#[trigger] strings(folders@)[k], path@),
        decreases folders@.len() - i,
    {
        if is_covered(folders[i].as_str(), path) {
            assert(covers(strings(folders@)[i as int], path@));
            return true;
        }
        i += 1;
    }
    false
}

/// The paths that the folders cover, in order.
pub open spec fn covered(paths: Seq<Seq<char>>, folders: Seq<Seq<char>>) -> Seq<Seq<char>>
    decreases paths.len(),
{
    if paths.len() == 0 {
        Seq::empty()
    } else if any_covers(folders, paths.last()) {
        covered(paths.drop_last(), folders).push(paths.last())
    } else {
        covered(paths.drop_last(), folders)
    }
}

/// The paths that the folders cover, in order: naming a folder names what is
/// recorded below it.
pub fn covered_paths(paths: &[String], folders: &[String]) -> (r: Vec<String>)
    ensures
        strings(r@) == covered(strings(paths@), strings(folders@)),
{
    let ghost all = strings(paths@);
    let mut r: Vec<String> = Vec::new();
    let mut i: usize = 0;
    assert(strings(r@) =~= covered(all.take(0), strings(folders@)));
    while i < paths.len()
        invariant
            i <= paths@.len(),
            all == strings(paths@),
            strings(r@) == covered(all.take(i as int), strings(folders@)),
        decreases paths@.len() - i,
    {
        assert(all.take(i + 1).drop_last() =~= all.take(i as int));
        if is_covered_by_any(folders, paths[i].as_str()) {
            let ghost before = strings(r@);
            r.push(paths[i].clone());
            assert(strings(r@) =~= before.push(paths@[i as int]@));
        }
        i += 1;
    }
    assert(all.take(all.len() as int) =~= all);
    r
}

/// Whether a path lies below one of the given ones.
pub open spec fn inside_another(paths: Seq<Seq<char>>, path: Seq<char>) -> bool {
    exists|i: int| 0 <= i < paths.len() && below(#[trigger] paths[i], path)
}

/// The first `n` paths without those that lie below one of all the paths.
pub open spec fn outermost(paths: Seq<Seq<char>>, n: int) -> Seq<Seq<char>>
    decreases n,
{
    if n <= 0 {
        Seq::empty()
    } else if inside_another(paths, paths[n - 1]) {
        outermost(paths, n - 1)
    } else {
        outermost(paths, n - 1).push(paths[n - 1])
    }
}

/// The paths without those that lie below another of them.
pub fn outermost_paths(paths: &[String]) -> (r: Vec<String>)
    ensures
        strings(r@) == outermost(strings(paths@), paths@.len() as int),
{
    let ghost all = strings(paths@);
    let mut r: Vec<String> = Vec::new();
    let mut i: usize = 0;
    assert(strings(r@) =~= outermost(all, 0));
    while i < paths.len()
        invariant
            i <= paths@.len(),
            all == strings(paths@),
            strings(r@) == outermost(all, i as int),
        decreases paths@.len() - i,
    {
        let mut inside: bool = false;
        let mut j: usize = 0;
        while j < paths.len()
            invariant
                i < paths@.len(),
                j <= paths@.len(),
                all == strings(paths@),
                inside ==> inside_another(all, all[i as int]),
                !inside ==> forall|k: int| 0 <= k < j ==> !below(#[trigger] all[k], all[i as int]),
            decreases paths@.len() - j,
        {
            if is_below(paths[j].as_str(), paths[i].as_str()) {
                assert(below(all[j as int], all[i as int]));
                inside = true;
            }
            j += 1;
        }
        if !inside {
            let ghost before = strings(r@);
            r.push(paths[i].clone());
            assert(strings(r@) =~= before.push(paths@[i as int]@));
        }
        i += 1;
    }
    r
}

/// No path that is settled lies below another that is.
pub proof fn law_outermost_paths_are_apart(paths: Seq<Seq<char>>, i: int, j: int)
    requires
        0 <= i < outermost(paths, paths.len() as int).len(),
        0 <= j < outermost(paths, paths.len() as int).len(),
    ensures
        !below(
            outermost(paths, paths.len() as int)[i],
            outermost(paths, paths.len() as int)[j],
        ),
{
    let all = outermost(paths, paths.len() as int);
    lemma_outermost(paths, paths.len() as int, i);
    lemma_outermost(paths, paths.len() as int, j);
    let k = choose|k: int| 0 <= k < paths.len() && paths[k] == all[i];
    if below(all[i], all[j]) {
        assert(below(paths[k], all[j]));
    }
}

proof fn lemma_outermost(paths: Seq<Seq<char>>, n: int, i: int)
    requires
        0 <= n <= paths.len(),
        0 <= i < outermost(paths, n).len(),
    ensures
        exists|k: int| 0 <= k < paths.len() && paths[k] == outermost(paths, n)[i],
        !inside_another(paths, outermost(paths, n)[i]),
    decreases n,
{
    if n > 0 {
        if i < outermost(paths, n - 1).len() {
            lemma_outermost(paths, n - 1, i);
        } else {
            assert(paths[n - 1] == outermost(paths, n)[i]);
        }
    }
}

/// A folder covers itself and what is below it, at whatever depth; not what
/// only starts with its name.
pub proof fn law_a_folder_covers_what_is_in_it(
    folder: Seq<char>,
    rest: Seq<char>,
    paths: Seq<Seq<char>>,
    folders: Seq<Seq<char>>,
    path: Seq<char>,
)
    ensures
        covers(folder, folder),
        covers(folder, folder + seq!['/'] + rest),
        !below(folder, folder),
        below(folder, folder + seq!['/'] + rest),
        rest.len() > 0 && rest[0] != '/' ==> !covers(folder, folder + rest),
        covers(folder, path) && path != folder ==> below(folder, path) && path.len() > folder.len()
            && path[folder.len() as int] == '/' && path.take(folder.len() as int) == folder,
        covered(paths, folders).contains(path) <==> paths.contains(path) && exists|i: int|
            0 <= i < folders.len() && covers(#[trigger] folders[i], path),
    decreases paths.len(),
{
    reveal_strlit("/");
    assert("/"@ =~= seq!['/']);
    let inside = folder + seq!['/'] + rest;
    let lead = folder + "/"@;
    assert(inside.take(lead.len() as int) =~= lead);
    if rest.len() > 0 && rest[0] != '/' {
        let beside = folder + rest;
        assert(beside[folder.len() as int] == rest[0]);
        if has_prefix(beside, lead) {
            assert(beside.take(lead.len() as int)[folder.len() as int] == '/');
        }
    }
    if has_prefix(path, lead) {
        assert(path.take(lead.len() as int)[folder.len() as int] == '/');
        assert(path.take(folder.len() as int) =~= lead.take(folder.len() as int)) by {
            assert forall|k: int| 0 <= k < folder.len() implies path[k] == lead[k] by {
                assert(path.take(lead.len() as int)[k] == lead[k]);
            }
        }
        assert(lead.take(folder.len() as int) =~= folder);
    }
    if paths.len() > 0 {
        let front = paths.drop_last();
        law_a_folder_covers_what_is_in_it(folder, rest, front, folders, path);
        crate::text::lemma_pushed(front, paths.last(), path);
        assert(front.push(paths.last()) =~= paths);
        crate::text::lemma_pushed(covered(front, folders), paths.last(), path);
    }
}

/// A path is among the outermost exactly where it was given and lies below no
/// other that was.
pub proof fn law_the_outermost_paths_hold_the_others(
    paths: Seq<Seq<char>>,
    n: int,
    path: Seq<char>,
)
    requires
        0 <= n <= paths.len(),
    ensures
        outermost(paths, n).contains(path) <==> (exists|i: int|
            0 <= i < n && #[trigger] paths[i] == path) && !exists|i: int|
            0 <= i < paths.len() && has_prefix(path, #[trigger] paths[i] + "/"@),
    decreases n,
{
    if n > 0 {
        law_the_outermost_paths_hold_the_others(paths, n - 1, path);
        crate::text::lemma_pushed(outermost(paths, n - 1), paths[n - 1], path);
    }
    if exists|i: int| 0 <= i < paths.len() && has_prefix(path, #[trigger] paths[i] + "/"@) {
        let i = choose|i: int|
            0 <= i < paths.len() && has_prefix(path, #[trigger] paths[i] + "/"@);
        assert(below(paths[i], path));
    }
    if inside_another(paths, path) {
        let i = choose|i: int| 0 <= i < paths.len() && below(#[trigger] paths[i], path);
        assert(has_prefix(path, paths[i] + "/"@));
    }
}

} // verus!
