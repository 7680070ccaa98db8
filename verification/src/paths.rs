//! Where things are: home-relative paths, and the places of the configuration
//! and of recorded state.
use crate::command::select::{rooted, steps, steps_of, text_option, without_dots};
use crate::text::{
    chars_of, has_prefix, has_suffix, join_first, joined, same_text, segments, str_starts_with,
    string_of, texts,
};
use vstd::prelude::*;
use vstd::slice::slice_subrange;

verus! {

/// The variable that moves the state root.
pub const HOME_VARIABLE: &'static str = "AUTOBAHN_HOME";

/// A path with another below it; an absolute one replaces it.
pub open spec fn path_below(base: Seq<char>, rest: Seq<char>) -> Seq<char> {
    if has_prefix(rest, "/"@) {
        rest
    } else if base.len() == 0 || has_suffix(base, "/"@) {
        base + rest
    } else {
        base + "/"@ + rest
    }
}

/// A path with another below it.
pub fn join_path(base: &str, rest: &str) -> (r: String)
    ensures
        r@ == path_below(base@, rest@),
{
    if str_starts_with(rest, "/") {
        return rest.to_owned();
    }
    let mut r = base.to_owned();
    let all = chars_of(base);
    let slash = chars_of("/");
    if !(all.len() == 0 || crate::text::ends_with(all.as_slice(), slash.as_slice())) {
        r.append("/");
    }
    r.append(rest);
    r
}

/// Whether a path is absolute.
pub fn is_absolute(path: &str) -> (r: bool)
    ensures
        r == has_prefix(path@, "/"@),
{
    str_starts_with(path, "/")
}

/// Why a default path is not known.
#[derive(Debug)]
pub enum HomeError {
    /// There is no home.
    Unset,
    /// The home is not an absolute path.
    Relative {
        /// The home.
        home: String,
    },
    /// The directory named in place of the default one is not an absolute
    /// path.
    RelativeOverride {
        /// The directory.
        directory: String,
    },
}

/// Whether a path is relative to the home: `~`, or below it.
pub open spec fn home_relative(path: Seq<char>) -> bool {
    path == "~"@ || has_prefix(path, "~/"@)
}

/// Whether a home can be used.
pub open spec fn usable_home(home: Option<Seq<char>>) -> bool {
    home matches Some(home) && has_prefix(home, "/"@)
}

fn checked_home(home: Option<&str>) -> (r: Result<&str, HomeError>)
    ensures
        match r {
            Ok(h) => usable_home(text_option(home)) && Some(h@) == text_option(home),
            Err(HomeError::Unset) => home is None,
            Err(HomeError::Relative { home: h }) => Some(h@) == text_option(home) && !usable_home(
                text_option(home),
            ),
            Err(HomeError::RelativeOverride { .. }) => false,
        },
{
    match home {
        None => Err(HomeError::Unset),
        Some(h) => if is_absolute(h) {
            Ok(h)
        } else {
            Err(HomeError::Relative { home: h.to_owned() })
        },
    }
}

/// What a refusal for want of a home comes to.
pub open spec fn refused_home<T>(r: Result<T, HomeError>, home: Option<Seq<char>>) -> bool {
    match home {
        None => r matches Err(HomeError::Unset),
        Some(home) => r matches Err(HomeError::Relative { home: h }) && h@ == home,
    }
}

/// What a home-relative path stands for.
pub open spec fn expanded_tilde(path: Seq<char>, home: Seq<char>) -> Seq<char> {
    if path == "~"@ {
        home
    } else {
        path_below(home, path.skip(2))
    }
}

/// Expands a leading `~`, and no other form of it, against the home. A path
/// that has none needs no home; one that has needs an absolute one, or it
/// would be relative to the working directory.
pub fn expand_tilde(path: &str, home: Option<&str>) -> (r: Result<String, HomeError>)
    ensures
        if !home_relative(path@) {
            r matches Ok(text) && text@ == path@
        } else if usable_home(text_option(home)) {
            r matches Ok(text) && text@ == expanded_tilde(path@, text_option(home)->0)
        } else {
            refused_home(r, text_option(home))
        },
{
    if !same_text(path, "~") && !str_starts_with(path, "~/") {
        return Ok(path.to_owned());
    }
    let home = match checked_home(home) {
        Ok(home) => home,
        Err(error) => {
            return Err(error);
        },
    };
    expand_tilde_in(path, home)
}

/// Expands a leading `~` against a home that is given.
pub fn expand_tilde_in(path: &str, home: &str) -> (r: Result<String, HomeError>)
    requires
        home_relative(path@),
    ensures
        if has_prefix(home@, "/"@) {
            r matches Ok(text) && text@ == expanded_tilde(path@, home@)
        } else {
            r matches Err(HomeError::Relative { home: h }) && h@ == home@
        },
{
    if !is_absolute(home) {
        return Err(HomeError::Relative { home: home.to_owned() });
    }
    if same_text(path, "~") {
        return Ok(home.to_owned());
    }
    proof {
        reveal_strlit("~/");
    }
    let all = chars_of(path);
    let rest = slice_subrange(all.as_slice(), 2, all.len());
    assert(rest@ =~= path@.skip(2));
    let rest = string_of(rest);
    Ok(join_path(home, rest.as_str()))
}

/// Where the configuration is: below an absolute configuration directory, or
/// below the home.
pub open spec fn config_place(xdg: Option<Seq<char>>, home: Option<Seq<char>>) -> Option<Seq<char>> {
    if usable_home(xdg) {
        Some(path_below(path_below(xdg->0, "autobahn"@), "config.toml"@))
    } else if usable_home(home) {
        Some(
            path_below(
                path_below(path_below(home->0, ".config"@), "autobahn"@),
                "config.toml"@,
            ),
        )
    } else {
        None
    }
}

/// Where the configuration is, given the variables that say so. A
/// configuration directory that is not absolute is passed over; a home that
/// is not is refused.
pub fn default_config_path(xdg_config_home: Option<&str>, home: Option<&str>) -> (r: Result<
    String,
    HomeError,
>)
    ensures
        match config_place(text_option(xdg_config_home), text_option(home)) {
            Some(place) => r matches Ok(text) && text@ == place,
            None => refused_home(r, text_option(home)),
        },
{
    if let Some(directory) = xdg_config_home {
        if is_absolute(directory) {
            let below = join_path(directory, "autobahn");
            return Ok(join_path(below.as_str(), "config.toml"));
        }
    }
    let home = match checked_home(home) {
        Ok(home) => home,
        Err(error) => {
            return Err(error);
        },
    };
    let below = join_path(home, ".config");
    let below = join_path(below.as_str(), "autobahn");
    Ok(join_path(below.as_str(), "config.toml"))
}

/// The directory that `AUTOBAHN_HOME` names in place of the default state
/// root, where it does; one that is not absolute is refused.
pub fn home_override(autobahn_home: Option<&str>) -> (r: Result<Option<String>, HomeError>)
    ensures
        match text_option(autobahn_home) {
            None => r matches Ok(None),
            Some(named) => if has_prefix(named, "/"@) {
                r matches Ok(Some(directory)) && directory@ == named
            } else {
                r matches Err(HomeError::RelativeOverride { directory }) && directory@ == named
            },
        },
{
    match autobahn_home {
        None => Ok(None),
        Some(named) => if is_absolute(named) {
            Ok(Some(named.to_owned()))
        } else {
            Err(HomeError::RelativeOverride { directory: named.to_owned() })
        },
    }
}

/// Whether a result is the path that `rest` makes of the state root: of the
/// directory that `AUTOBAHN_HOME` names, or of `.autobahn` in the home.
pub open spec fn state_path(
    r: Result<String, HomeError>,
    autobahn_home: Option<Seq<char>>,
    home: Option<Seq<char>>,
    rest: spec_fn(Seq<char>) -> Seq<char>,
) -> bool {
    match autobahn_home {
        Some(named) => if has_prefix(named, "/"@) {
            r matches Ok(text) && text@ == rest(named)
        } else {
            r matches Err(HomeError::RelativeOverride { directory }) && directory@ == named
        },
        None => if usable_home(home) {
            r matches Ok(text) && text@ == rest(path_below(home->0, ".autobahn"@))
        } else {
            refused_home(r, home)
        },
    }
}

/// Where state is recorded, given the variables that say so: `AUTOBAHN_HOME`,
/// or below the home.
pub fn default_state_root(autobahn_home: Option<&str>, home: Option<&str>) -> (r: Result<
    String,
    HomeError,
>)
    ensures
        state_path(r, text_option(autobahn_home), text_option(home), |root: Seq<char>| root),
{
    match home_override(autobahn_home) {
        Err(error) => {
            return Err(error);
        },
        Ok(Some(directory)) => {
            return Ok(directory);
        },
        Ok(None) => {},
    }
    match checked_home(home) {
        Ok(home) => Ok(join_path(home, ".autobahn")),
        Err(error) => Err(error),
    }
}

// ---------------------------------------------------------------------------
// Identity
// ---------------------------------------------------------------------------

/// A path from its names.
pub open spec fn from_steps(top: bool, parts: Seq<Seq<char>>) -> Seq<char> {
    if top {
        "/"@ + joined(parts, "/"@)
    } else {
        joined(parts, "/"@)
    }
}

/// A path without its last `n` names, tidied: one separator between each two
/// names, and no `.` behind the first.
pub open spec fn without_last(path: Seq<char>, n: int) -> Seq<char> {
    let parts = steps(path);
    from_steps(rooted(path), parts.take(parts.len() - n))
}

/// A path with names below it, one after the other.
pub open spec fn with_names(base: Seq<char>, names: Seq<Seq<char>>) -> Seq<char>
    decreases names.len(),
{
    if names.len() == 0 {
        base
    } else {
        path_below(with_names(base, names.drop_last()), names.last())
    }
}

/// The last names of a path from which ancestors are looked for: `..` and `.`
/// are no names to put back, so the search ends at one.
pub open spec fn climbable(parts: Seq<Seq<char>>, n: int) -> bool {
    forall|k: int|
        parts.len() - n <= k < parts.len() ==> (#[trigger] parts[k]) != ".."@ && parts[k] != "."@
}

/// The paths whose resolution gives a missing path its identity, nearest
/// first: its ancestors, as far up as its names go.
pub fn ancestors(path: &str) -> (r: Vec<String>)
    ensures
        forall|k: int|
            0 <= k < r@.len() ==> (#[trigger] r@[k])@ == without_last(path@, k + 1) && climbable(
                steps(path@),
                k + 1,
            ),
        r@.len() <= steps(path@).len(),
        r@.len() < steps(path@).len() ==> !climbable(steps(path@), r@.len() as int + 1),
{
    let parts = steps_of(path);
    let ghost all = steps(path@);
    assert(texts(parts@).len() == parts@.len());
    let letters = chars_of(path);
    let top = letters.len() > 0 && letters[0] == '/';
    let mut r: Vec<String> = Vec::new();
    let mut n: usize = 0;
    while n < parts.len()
        invariant
            n <= parts@.len(),
            n == r@.len(),
            all == steps(path@),
            texts(parts@) == all,
            top == rooted(path@),
            climbable(all, n as int),
            forall|k: int|
                0 <= k < r@.len() ==> (#[trigger] r@[k])@ == without_last(path@, k + 1)
                    && climbable(all, k + 1),
        decreases parts@.len() - n,
    {
        let last: usize = parts.len() - 1 - n;
        let name = string_of(parts[last].as_slice());
        assert(name@ == all[last as int]);
        if same_text(name.as_str(), "..") || same_text(name.as_str(), ".") {
            assert(!climbable(all, n + 1));
            return r;
        }
        assert(climbable(all, n + 1)) by {
            assert forall|k: int| all.len() - (n + 1) <= k < all.len() implies (
            #[trigger] all[k]) != ".."@ && all[k] != "."@ by {
                if k == last {
                } else {
                    assert(all.len() - n <= k);
                }
            }
        }
        let below = join_first(parts.as_slice(), last, "/");
        let mut place = String::new();
        if top {
            place.append("/");
        }
        place.append(below.as_str());
        assert(all.take(all.len() - (n + 1)) =~= texts(parts@).take(last as int));
        assert(place@ =~= without_last(path@, n + 1));
        r.push(place);
        n += 1;
    }
    r
}

/// A path's identity, given the first of its ancestors that resolves and what
/// it resolves to: that, with the missing names below it; the tidied path
/// where none does.
pub fn missing_identity(path: &str, found: Option<(usize, &str)>) -> (r: String)
    requires
        found matches Some((k, _)) ==> k < steps(path@).len(),
    ensures
        match found {
            Some((k, resolved)) => r@ == with_names(
                resolved@,
                steps(path@).skip(steps(path@).len() - (k + 1)),
            ),
            None => r@ == without_last(path@, 0),
        },
{
    let parts = steps_of(path);
    let ghost all = steps(path@);
    assert(texts(parts@).len() == parts@.len());
    match found {
        Some((k, resolved)) => {
            let from: usize = parts.len() - 1 - k;
            let ghost names = all.skip(from as int);
            let mut r = resolved.to_owned();
            let mut i: usize = from;
            assert(names.take(0) =~= Seq::<Seq<char>>::empty());
            while i < parts.len()
                invariant
                    from <= i <= parts@.len(),
                    texts(parts@) == all,
                    names == all.skip(from as int),
                    r@ == with_names(resolved@, names.take(i - from)),
                decreases parts@.len() - i,
            {
                let name = string_of(parts[i].as_slice());
                assert(names.take(i + 1 - from).drop_last() =~= names.take(i - from));
                assert(names.take(i + 1 - from).last() == name@);
                r = join_path(r.as_str(), name.as_str());
                i += 1;
            }
            assert(names.take(names.len() as int) =~= names);
            r
        },
        None => {
            let letters = chars_of(path);
            let mut r = String::new();
            if letters.len() > 0 && letters[0] == '/' {
                r.append("/");
            }
            let below = join_first(parts.as_slice(), parts.len(), "/");
            r.append(below.as_str());
            assert(all.take(all.len() as int) =~= texts(parts@).take(parts@.len() as int));
            assert(r@ =~= without_last(path@, 0));
            r
        },
    }
}

// ---------------------------------------------------------------------------
// Laws
// ---------------------------------------------------------------------------

/// A path below another follows it behind one separator. An absolute path
/// stays what it is, and so does one below nothing.
pub proof fn law_a_path_below_another_follows_a_separator(base: Seq<char>, rest: Seq<char>)
    requires
        rest.len() > 0,
    ensures
        rest[0] == '/' ==> path_below(base, rest) == rest,
        rest[0] != '/' ==> path_below(Seq::empty(), rest) == rest,
        rest[0] != '/' && base.len() > 0 && base.last() != '/' ==> path_below(base, rest) == base
            + seq!['/'] + rest,
        rest[0] != '/' && base.len() > 0 && base.last() == '/' ==> path_below(base, rest) == base
            + rest,
{
    reveal_strlit("/");
    assert("/"@ =~= seq!['/']);
    if rest[0] == '/' {
        assert(rest.take(1) =~= "/"@);
    } else if has_prefix(rest, "/"@) {
        assert(rest.take(1)[0] == '/');
    }
    assert(Seq::<char>::empty() + rest =~= rest);
    if base.len() > 0 {
        assert(base.skip(base.len() - 1)[0] == base.last());
        if base.last() == '/' {
            assert(base.skip(base.len() - 1) =~= "/"@);
        }
    }
}

/// A tilde stands for the home directory, by itself or before a separator; a
/// path that only starts with one does not.
pub proof fn law_a_tilde_is_the_home_directory(rest: Seq<char>, home: Seq<char>, path: Seq<char>)
    requires
        home.len() > 0,
        home.last() != '/',
        rest.len() > 0,
        rest[0] != '/',
    ensures
        home_relative(seq!['~']) && expanded_tilde(seq!['~'], home) == home,
        home_relative(seq!['~', '/'] + rest) && expanded_tilde(seq!['~', '/'] + rest, home) == home
            + seq!['/'] + rest,
        !home_relative(seq!['~'] + rest),
        path.len() > 0 && path[0] != '~' ==> !home_relative(path),
{
    reveal_strlit("~");
    reveal_strlit("~/");
    assert("~"@ =~= seq!['~']);
    assert("~/"@ =~= seq!['~', '/']);
    let below = seq!['~', '/'] + rest;
    assert(below.take(2) =~= "~/"@);
    assert(below.skip(2) =~= rest);
    assert(below.len() > 1);
    law_a_path_below_another_follows_a_separator(home, rest);
    let beside = seq!['~'] + rest;
    assert(beside[1] == rest[0]);
    if has_prefix(beside, "~/"@) {
        assert(beside.take(2)[1] == '/');
    }
    assert(beside.len() > 1);
    if has_prefix(path, "~/"@) {
        assert(path.take(2)[0] == path[0]);
    }
}

/// The configuration is in the directory that is named for configurations,
/// where that is absolute, and else in the home directory, where that is. What
/// is not absolute counts for nothing.
pub proof fn law_the_configuration_has_its_place(xdg: Seq<char>, home: Seq<char>)
    requires
        xdg.len() > 0,
        home.len() > 0,
    ensures
        xdg[0] == '/' ==> config_place(Some(xdg), Some(home)) == Some(
            path_below(path_below(xdg, "autobahn"@), "config.toml"@),
        ),
        xdg[0] != '/' ==> config_place(Some(xdg), Some(home)) == config_place(None, Some(home)),
        home[0] == '/' ==> config_place(None, Some(home)) == Some(
            path_below(
                path_below(path_below(home, ".config"@), "autobahn"@),
                "config.toml"@,
            ),
        ),
        home[0] != '/' ==> config_place(None, Some(home)) is None,
        config_place(None, None) is None,
{
    reveal_strlit("/");
    assert("/"@ =~= seq!['/']);
    assert(xdg.take(1) =~= seq![xdg[0]]);
    assert(home.take(1) =~= seq![home[0]]);
    assert(seq![xdg[0]][0] == xdg[0] && seq![home[0]][0] == home[0]);
}

/// Names are put below a path one after the other.
pub proof fn law_names_go_below_one_another(base: Seq<char>, names: Seq<Seq<char>>, name: Seq<char>)
    ensures
        with_names(base, Seq::empty()) == base,
        with_names(base, names.push(name)) == path_below(with_names(base, names), name),
{
    assert(names.push(name).drop_last() =~= names);
}

/// Whether names are those on the way along a path: none is empty or holds a
/// separator, and none is a `.`, but for one before all others where `dotted`.
spec fn are_steps(parts: Seq<Seq<char>>, dotted: bool) -> bool {
    forall|i: int|
        0 <= i < parts.len() ==> (#[trigger] parts[i]).len() > 0 && !parts[i].contains('/') && (
        parts[i] == "."@ ==> dotted && i == 0)
}

proof fn lemma_undotted(parts: Seq<Seq<char>>, dotted: bool)
    requires
        forall|i: int| 0 <= i < parts.len() ==> !(#[trigger] parts[i]).contains('/'),
        !dotted && parts.len() > 0 ==> parts[0].len() == 0,
    ensures
        are_steps(without_dots(parts), dotted),
        parts.len() == 0 ==> without_dots(parts).len() == 0,
        without_dots(parts).len() <= parts.len(),
        !dotted && parts.len() > 0 ==> without_dots(parts).len() < parts.len(),
    decreases parts.len(),
{
    if parts.len() > 0 {
        let front = parts.drop_last();
        assert forall|i: int| 0 <= i < front.len() implies !(#[trigger] front[i]).contains('/') by {
            assert(front[i] == parts[i]);
        }
        lemma_undotted(front, dotted);
        assert(!parts[parts.len() - 1].contains('/'));
    }
}

proof fn lemma_steps_stay(parts: Seq<Seq<char>>, dotted: bool)
    requires
        are_steps(parts, dotted),
    ensures
        dotted ==> without_dots(parts) == parts,
        !dotted ==> without_dots(seq![Seq::<char>::empty()] + parts) == parts,
    decreases parts.len(),
{
    let none = Seq::<char>::empty();
    if parts.len() == 0 {
        assert(without_dots(parts) =~= parts);
        assert(seq![none] + parts =~= seq![none]);
        assert(seq![none].drop_last() =~= Seq::<Seq<char>>::empty());
        assert(without_dots(seq![none].drop_last()) =~= parts);
        assert(seq![none].last().len() == 0);
    } else {
        let front = parts.drop_last();
        assert(are_steps(front, dotted)) by {
            assert forall|i: int| 0 <= i < front.len() implies (#[trigger] front[i]).len() > 0
                && !front[i].contains('/') && (front[i] == "."@ ==> dotted && i == 0) by {
                assert(front[i] == parts[i]);
            }
        }
        lemma_steps_stay(front, dotted);
        assert(parts[parts.len() - 1].len() > 0);
        assert(front.push(parts.last()) =~= parts);
        let all = seq![none] + parts;
        assert(all.drop_last() =~= seq![none] + front);
        assert(all.last() == parts.last());
    }
}

/// A path without its last names has the names before them, and starts at the
/// top where the path does.
pub proof fn law_an_ancestor_has_the_names_above(path: Seq<char>, n: int)
    requires
        0 <= n <= steps(path).len(),
    ensures
        steps(without_last(path, n)) == steps(path).take(steps(path).len() - n),
        rooted(without_last(path, n)) == rooted(path),
{
    reveal_strlit("/");
    assert("/"@ =~= seq!['/']);
    let top = rooted(path);
    let pieces = segments(path, '/');
    crate::text::lemma_segments_plain(path, '/');
    crate::text::lemma_segments_nonempty(path, '/');
    if top {
        let rest = path.skip(1);
        assert(Seq::<char>::empty() + seq!['/'] + rest =~= path);
        crate::text::lemma_segments_front(Seq::empty(), '/', rest);
    }
    lemma_undotted(pieces, !top);
    let parts = steps(path).take(steps(path).len() - n);
    assert(are_steps(parts, !top)) by {
        assert forall|i: int| 0 <= i < parts.len() implies (#[trigger] parts[i]).len() > 0
            && !parts[i].contains('/') && (parts[i] == "."@ ==> !top && i == 0) by {
            assert(parts[i] == steps(path)[i]);
        }
    }
    lemma_steps_stay(parts, !top);
    let text = joined(parts, seq!['/']);
    if parts.len() > 0 {
        crate::text::lemma_segments_joined(parts, '/');
    } else {
        assert(text =~= Seq::<char>::empty());
    }
    if top {
        let whole = seq!['/'] + text;
        assert(Seq::<char>::empty() + seq!['/'] + text =~= whole);
        crate::text::lemma_segments_front(Seq::empty(), '/', text);
        if parts.len() == 0 {
            let none = Seq::<char>::empty();
            assert(segments(text, '/') =~= seq![none]);
            assert(seq![none] + segments(text, '/') =~= seq![none, none]);
            assert(seq![none, none].drop_last() =~= seq![none]);
            assert(seq![none].drop_last() =~= Seq::<Seq<char>>::empty());
            assert(without_dots(seq![none].drop_last()) =~= Seq::<Seq<char>>::empty());
            assert(without_dots(seq![none]) =~= Seq::<Seq<char>>::empty());
            assert(steps(whole) =~= parts);
        }
    } else if parts.len() == 0 {
        let none = Seq::<char>::empty();
        assert(segments(text, '/') =~= seq![none]);
        assert(seq![none].drop_last() =~= Seq::<Seq<char>>::empty());
        assert(without_dots(seq![none].drop_last()) =~= Seq::<Seq<char>>::empty());
        assert(steps(text) =~= parts);
    } else {
        lemma_joined_first(parts, '/');
        assert(parts[0].contains(parts[0][0]));
    }
}

proof fn lemma_joined_first(parts: Seq<Seq<char>>, sep: char)
    requires
        parts.len() > 0,
        parts[0].len() > 0,
    ensures
        joined(parts, seq![sep]).len() > 0,
        joined(parts, seq![sep])[0] == parts[0][0],
    decreases parts.len(),
{
    if parts.len() > 1 {
        lemma_joined_first(parts.drop_last(), sep);
    }
}

} // verus!
