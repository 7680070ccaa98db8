//! Roots on other hosts.
use crate::text::{chars_of, first_index, index_of, string_of};
use vstd::prelude::*;
use vstd::slice::slice_subrange;

verus! {

/// The host and the path of a remote root: what stands before and after the
/// first colon, where no separator stands before it.
pub open spec fn remote_parts(spec_: Seq<char>) -> Option<(Seq<char>, Seq<char>)> {
    let colon = first_index(spec_, ':');
    if colon == spec_.len() || first_index(spec_, '/') < colon {
        None
    } else {
        Some((spec_.take(colon), spec_.skip(colon + 1)))
    }
}

/// The host and the path of an scp-style root, if it denotes a remote one: a
/// local path is never taken for one.
pub fn parse_remote(beta: &str) -> (r: Option<(String, String)>)
    ensures
        match r {
            Some((host, path)) => remote_parts(beta@) == Some((host@, path@)),
            None => remote_parts(beta@) is None,
        },
{
    let all = chars_of(beta);
    let colon: usize = index_of(all.as_slice(), ':');
    let slash: usize = index_of(all.as_slice(), '/');
    if colon == all.len() || slash < colon {
        return None;
    }
    let host = slice_subrange(all.as_slice(), 0, colon);
    let path = slice_subrange(all.as_slice(), colon + 1, all.len());
    assert(host@ =~= beta@.take(colon as int));
    assert(path@ =~= beta@.skip(colon + 1));
    Some((string_of(host), string_of(path)))
}

/// A host and a path with a colon between them are a remote root, where the
/// host holds neither a colon nor a separator. A root without a colon is none,
/// nor is one with a separator before its first colon.
pub proof fn law_a_remote_root_is_a_host_and_a_path(
    host: Seq<char>,
    path: Seq<char>,
)
    requires
        !host.contains(':'),
    ensures
        !host.contains('/') ==> remote_parts(host + seq![':'] + path) == Some((host, path)),
        host.contains('/') ==> remote_parts(host + seq![':'] + path) is None,
        remote_parts(host) is None,
{
    let root = host + seq![':'] + path;
    let n = host.len() as int;
    assert forall|k: int| 0 <= k < n implies root[k] != ':' by {
        assert(host.contains(root[k]));
    }
    crate::text::lemma_first_index_is(root, ':', n);
    crate::text::lemma_first_index(root, '/');
    crate::text::lemma_first_index(host, ':');
    assert(root.take(n) =~= host);
    assert(root.skip(n + 1) =~= path);
    let slash = first_index(root, '/');
    if host.contains('/') {
        let k = choose|k: int| 0 <= k < host.len() && host[k] == '/';
        assert(root[k] == '/');
    } else if slash < n {
        assert(host.contains(root[slash]));
    }
}

} // verus!
