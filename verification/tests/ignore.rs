//! Ignore patterns and ignore files.
use autobahn::scan::ignore::{parse_pattern, IgnoreSet, PatternError};
use autobahn::scan::ignorefile::{list, locate, location, parse, LocateError, Location};

fn ignores(patterns: &[&str]) -> IgnoreSet {
    let patterns: Vec<String> = patterns.iter().map(|p| (*p).to_owned()).collect();
    match IgnoreSet::new(&patterns) {
        Ok(set) => set,
        Err(error) => panic!("patterns should compile: {error:?}"),
    }
}

#[test]
fn a_negation_undone_by_a_later_pattern_is_reported() {
    let set = ignores(&["*.jar", "!gradle-wrapper.jar", "*.jar"]);
    let dead = set.dead_negations();
    assert_eq!(dead.len(), 1, "{dead:?}");
    assert!(dead[0].contains("gradle-wrapper.jar"), "{dead:?}");
    assert!(dead[0].contains("later ignores it again"), "{dead:?}");
}

#[test]
fn a_negation_that_takes_effect_is_left_alone() {
    let set = ignores(&["*.jar", "!gradle-wrapper.jar"]);
    assert!(set.dead_negations().is_empty());
    assert!(!set.ignored("gradle-wrapper.jar", false));
}

#[test]
fn a_negation_beneath_an_ignored_directory_is_live() {
    let set = ignores(&[".yarn", "!.yarn/patches"]);
    assert!(set.dead_negations().is_empty(), "{:?}", set.dead_negations());
    assert!(set.holds_a_re_inclusion(".yarn"), "the walk must enter .yarn to reach the re-inclusion");
    assert!(set.re_included(".yarn/patches", true));
    assert!(!set.re_included(".yarn/cache", true), "still ignored");
}

#[test]
fn a_deep_re_inclusion_keeps_every_level_walkable() {
    let set = ignores(&["a", "!a/b/c.txt"]);
    assert!(set.holds_a_re_inclusion("a"));
    assert!(set.holds_a_re_inclusion("a/b"));
    assert!(!set.holds_a_re_inclusion("a/b/c.txt"), "the file is not a door");
}

#[test]
fn without_negations_nothing_is_kept_walkable() {
    let set = ignores(&["node_modules", "target"]);
    assert!(!set.holds_a_re_inclusion("node_modules"));
    assert!(!set.holds_a_re_inclusion("target"));
}

#[test]
fn a_wildcard_negation_contributes_no_door() {
    let set = ignores(&["build/", "!**/src/**/build/"]);
    assert!(!set.holds_a_re_inclusion("src"));
    assert!(!set.ignored("src/x/build", true), "re-included on its own merits");
}

#[test]
fn ignoring_the_contents_rather_than_the_directory_is_correct() {
    let set = ignores(&[".yarn/*", "!.yarn/patches"]);
    assert!(set.dead_negations().is_empty(), "{:?}", set.dead_negations());
}

#[test]
fn a_wildcard_negation_is_not_guessed_at() {
    let set = ignores(&["build/", "!**/src/**/build/"]);
    assert!(set.dead_negations().is_empty());
}

#[test]
fn empty_set_ignores_nothing() {
    let set = ignores(&[]);
    assert!(!set.ignored("anything", false));
    assert!(!set.ignored("any/thing", true));
    let empty = IgnoreSet::empty();
    assert!(!empty.ignored("anything", false));
}

#[test]
fn separator_free_patterns_match_at_any_depth() {
    let set = ignores(&["build"]);
    assert!(set.ignored("build", true));
    assert!(set.ignored("a/build", true));
    assert!(set.ignored("a/b/build", false));
    assert!(!set.ignored("rebuild", false));
    assert!(!set.ignored("build/inner", false));
}

#[test]
fn patterns_with_separators_are_root_anchored() {
    let set = ignores(&["/target", "a/b"]);
    assert!(set.ignored("target", true));
    assert!(!set.ignored("nested/target", true));
    assert!(set.ignored("a/b", false));
    assert!(!set.ignored("x/a/b", false));
}

#[test]
fn wildcards_do_not_cross_separators_but_double_star_does() {
    let set = ignores(&["*.log", "/tmp/*", "a/**/c"]);
    assert!(set.ignored("server.log", false));
    assert!(set.ignored("deep/nested/server.log", false));
    assert!(set.ignored("tmp/one", false));
    assert!(!set.ignored("tmp/one/two", false));
    assert!(set.ignored("a/b/c", false));
    assert!(set.ignored("a/b/x/c", false));
}

#[test]
fn trailing_slash_restricts_to_directories() {
    let set = ignores(&["cache/"]);
    assert!(set.ignored("cache", true));
    assert!(!set.ignored("cache", false));
    assert!(set.ignored("a/cache", true));
}

#[test]
fn last_matching_pattern_wins() {
    let set = ignores(&["*.log", "!keep.log"]);
    assert!(set.ignored("noise.log", false));
    assert!(!set.ignored("keep.log", false));
    assert!(!set.ignored("nested/keep.log", false));

    // The same patterns in the opposite order ignore everything, since the
    // broad pattern now has the final say.
    let reversed = ignores(&["!keep.log", "*.log"]);
    assert!(reversed.ignored("keep.log", false));
    assert!(reversed.ignored("noise.log", false));
}

#[test]
fn negation_of_a_directory_only_pattern_respects_the_type() {
    let set = ignores(&["state", "!state/"]);
    assert!(set.ignored("state", false));
    assert!(!set.ignored("state", true));
}

#[test]
fn negation_beneath_an_ignored_directory_is_reported_but_unreachable() {
    let set = ignores(&["node_modules", "!node_modules/keep"]);
    assert!(set.ignored("node_modules", true));
    assert!(!set.ignored("node_modules/keep", false));
    let supported = ignores(&["node_modules/*", "!node_modules/keep"]);
    assert!(!supported.ignored("node_modules", true));
    assert!(supported.ignored("node_modules/other", false));
    assert!(!supported.ignored("node_modules/keep", false));
}

/// Whether the walk reaches a path and, if so, whether it is carried.
fn carried(set: &IgnoreSet, path: &str, is_directory: bool) -> bool {
    let mut within_ignored = false;
    for (at, _) in path.match_indices('/') {
        let directory = &path[..at];
        let ignored = match within_ignored {
            true => !set.re_included(directory, true),
            false => set.ignored(directory, true),
        };
        if ignored && !set.holds_a_re_inclusion(directory) {
            return false;
        }
        within_ignored = ignored;
    }
    match within_ignored {
        true => set.re_included(path, is_directory),
        false => !set.ignored(path, is_directory),
    }
}

#[test]
fn a_wildcard_negation_under_an_ignored_directory_is_reported() {
    let set = ignores(&["vendor", "!vendor/*.patch"]);
    let ineffective = set.ineffective_negations();
    assert_eq!(ineffective.len(), 1, "{ineffective:?}");
    assert!(ineffective[0].contains("!vendor/*.patch"), "{ineffective:?}");
    assert!(ineffective[0].contains("has no effect"), "{ineffective:?}");
    assert!(ineffective[0].contains("vendor/*"), "{ineffective:?}");
    assert!(!carried(&set, "vendor/fix.patch", false));

    // The suggested spelling works, and is not reported.
    let fixed = ignores(&["vendor/*", "!vendor/*.patch"]);
    assert!(fixed.ineffective_negations().is_empty());
    assert!(carried(&fixed, "vendor/fix.patch", false));
}

#[test]
fn a_wildcard_negation_that_can_take_effect_is_not_reported() {
    let opened = ignores(&["vendor", "!vendor/keep.txt", "!vendor/*.patch"]);
    assert!(opened.ineffective_negations().is_empty());
    assert!(carried(&opened, "vendor/fix.patch", false));
    assert!(ignores(&["vendor", "!**/*.patch"]).ineffective_negations().is_empty());
    assert!(ignores(&["build/", "!**/src/**/build/"]).ineffective_negations().is_empty());
    assert!(ignores(&["*.log", "!keep*.log"]).ineffective_negations().is_empty());
}

#[test]
fn a_negation_inside_a_walked_region_matches_git() {
    let region = ignores(&["vendor", "!vendor/keep.txt", "!*.md"]);
    let git = ignores(&["vendor/*", "!vendor/keep.txt", "!*.md"]);
    let expected = [
        ("top.md", false, true),
        ("vendor/README.md", false, true),
        ("vendor/keep.txt", false, true),
        ("vendor/junk.txt", false, false),
        ("vendor/sub/x.md", false, false),
    ];
    for (path, is_directory, listed) in expected {
        assert_eq!(carried(&region, path, is_directory), listed, "{path}");
        assert_eq!(carried(&git, path, is_directory), listed, "{path}");
    }
}

#[test]
fn invalid_patterns_are_rejected_by_name() {
    match IgnoreSet::new(&["a[".to_owned()]) {
        Err(PatternError::Invalid { pattern, .. }) => assert!(pattern.contains("a[")),
        _ => panic!("an unclosed class is invalid"),
    }
    for empty in ["", "!", "/"] {
        match IgnoreSet::new(&[empty.to_owned()]) {
            Err(PatternError::NoContent { pattern }) => assert_eq!(pattern, empty),
            _ => panic!("{empty:?} names nothing"),
        }
    }
}

#[test]
fn a_pattern_that_does_not_compile_says_why() {
    match IgnoreSet::new(&["a[".to_owned()]) {
        Err(PatternError::Invalid { pattern, cause }) => {
            assert_eq!(pattern, "a[");
            assert!(!cause.is_empty());
        }
        _ => panic!("an unclosed class is invalid"),
    }
}

#[test]
fn a_pattern_that_is_nested_too_deeply_is_refused() {
    let nested = |levels: usize| format!("{}x{}", "{".repeat(levels), "}".repeat(levels));
    match IgnoreSet::new(&["*.o".to_owned(), nested(2_000)]) {
        Err(PatternError::TooLarge { pattern }) => assert_eq!(pattern, nested(2_000)),
        _ => panic!("no such pattern compiles"),
    }
    assert!(matches!(IgnoreSet::new(&[nested(251)]), Err(PatternError::TooLarge { .. })));
    let error = IgnoreSet::new(&[nested(251)]).err().expect("it is refused");
    let words = error.message();
    assert!(words.starts_with("invalid ignore pattern "), "{words}");
    assert!(words.ends_with("it is too long or too deeply nested"), "{words}");
}

#[test]
fn braces_that_open_nothing_are_not_nested() {
    let escaped = "\\{".repeat(300);
    let set = ignores(&[&escaped]);
    assert!(set.ignored(&"{".repeat(300), false));
    assert!(!set.ignored("{", false));
    let classes = "[{]".repeat(300);
    let set = ignores(&[&classes]);
    assert!(set.ignored(&"{".repeat(300), false));
    let beside = "{a,b}".repeat(251);
    let set = ignores(&[&beside]);
    assert!(set.ignored(&"a".repeat(251), false));
}

#[test]
fn everything_undoes_a_negation() {
    for last in ["**", "/**", "**/"] {
        let set = ignores(&["!keep.jar", last]);
        let dead = if last == "**/" { 0 } else { 1 };
        assert_eq!(set.dead_negations().len(), dead, "{last}");
    }
    let set = ignores(&["*.jar", "!keep.jar", "/**"]);
    assert!(set.ignored("keep.jar", false));
    assert!(set.ignored("a/b/keep.jar", false));
}

#[test]
fn an_ignore_file_is_joined_to_its_directory() {
    let joined = |directory: &str| {
        locate(directory, "x.gitignore", true, Vec::new(), None, false).expect("it is there")
    };
    assert_eq!(joined(""), "x.gitignore");
    assert_eq!(joined("/ignores"), "/ignores/x.gitignore");
    assert_eq!(joined("/ignores/"), "/ignores/x.gitignore");
}

#[test]
fn a_negation_that_matches_anywhere_outlives_an_anchored_pattern() {
    let set = ignores(&["*.jar", "!keep.jar", "/keep.jar"]);
    assert!(set.dead_negations().is_empty());
    assert!(!set.ignored("a/keep.jar", false));
    assert!(set.ignored("keep.jar", false));
    let undone = ignores(&["*.jar", "!keep.jar", "keep.jar"]);
    assert_eq!(undone.dead_negations().len(), 1);
    assert!(undone.ignored("a/keep.jar", false));
    let anchored = ignores(&["!/keep.jar", "keep.jar"]);
    assert_eq!(anchored.dead_negations().len(), 1);
}

#[test]
fn a_pattern_is_read_as_its_parts() {
    let parsed = parse_pattern("!/a/b/").expect("a pattern");
    assert!(parsed.negated);
    assert!(parsed.directory_only);
    assert_eq!(parsed.glob, "a/b");
    let parsed = parse_pattern("name").expect("a pattern");
    assert!(!parsed.negated && !parsed.directory_only);
    assert_eq!(parsed.glob, "**/name");
    assert!(parse_pattern("!/").is_none());
    let key = |patterns: &[&str]| ignores(patterns).key();
    assert_eq!(key(&["a", "!/b/"]), "a\n!/b/\n");
    assert_eq!(key(&["a", "b"]), key(&["a", "b"]));
    assert_ne!(key(&["a", "b"]), key(&["b", "a"]));
    assert_ne!(key(&["a"]), key(&["!a"]));
    assert_ne!(key(&["a"]), key(&["a/"]));
    assert_ne!(key(&["/a/b"]), key(&["a/b"]));
    assert_ne!(key(&["a"]), key(&["**/a"]));
    assert_ne!(key(&["x/a\nb/c"]), key(&["x/a", "b/c"]));
}

#[test]
fn comments_and_blank_lines_are_dropped() {
    let text = "# build output\n\ntarget\n\n  node_modules  \n\n# nothing below\n";
    assert_eq!(parse(text), vec!["target", "node_modules"]);
}

#[test]
fn a_hash_inside_a_pattern_is_not_a_comment() {
    assert_eq!(parse("a#b\n#c\n"), vec!["a#b"]);
}

#[test]
fn pattern_syntax_is_left_alone() {
    let text = "*.jar\n!gradle-wrapper.jar\nbuild/\n/anchored\n";
    assert_eq!(parse(text), vec!["*.jar", "!gradle-wrapper.jar", "build/", "/anchored"]);
}

#[test]
fn a_relative_path_is_refused() {
    let read = locate(
        "/ignores",
        "some/where.gitignore",
        false,
        Vec::new(),
        Some("some/where.gitignore".to_owned()),
        false,
    );
    let message = read.expect_err("relative").message("/ignores");
    assert!(message.contains("relative"), "{message}");
    assert!(message.contains("\"some/where.gitignore\""), "{message}");
}

#[test]
fn an_empty_entry_is_refused() {
    for entry in ["", "   "] {
        let read = locate("/ignores", entry, false, Vec::new(), None, false);
        assert!(matches!(read, Err(LocateError::Empty)), "{read:?}");
        assert_eq!(location(entry), Location::Nowhere);
    }
}

#[test]
fn a_tilde_expands_against_the_home_directory() {
    assert_eq!(location("~/definitely-not-here.gitignore"), Location::Path);
    let read = locate(
        "/ignores",
        "~/definitely-not-here.gitignore",
        false,
        Vec::new(),
        Some("/home/user/definitely-not-here.gitignore".to_owned()),
        false,
    );
    let message = read.expect_err("no such file").message("/ignores");
    assert!(!message.contains('~'), "the path must be expanded: {message}");
    assert!(message.contains("definitely-not-here"), "{message}");
}

#[test]
fn a_missing_name_says_what_is_available() {
    let names = ["Rust.gitignore".to_owned(), ".hidden".to_owned(), "Ada.gitignore".to_owned()];
    let available = list(&names);
    assert_eq!(available, vec!["Ada.gitignore", "Rust.gitignore"]);
    let error = locate("/ignores", "Python.gitignore", false, available, None, false)
        .expect_err("no such file");
    let message = error.message("/ignores");
    assert!(message.contains("Python.gitignore"), "{message}");
    assert!(message.contains("available: Ada.gitignore, Rust.gitignore"), "{message}");
    let error =
        locate("/ignores", "x", false, Vec::new(), None, false).expect_err("nothing is there");
    assert!(error.message("/ignores").contains("empty or absent"));
    let error = locate("/ignores", "~/x", false, Vec::new(), None, false).expect_err("no home");
    assert!(matches!(error, LocateError::Unexpandable { .. }));
}

#[test]
fn a_bare_name_is_the_filename_as_written() {
    let read = locate("/ignores", "Rust.gitignore", true, Vec::new(), None, false);
    assert_eq!(read.expect("a place"), "/ignores/Rust.gitignore");
    assert_eq!(location("Rust.gitignore"), Location::Named);
}

#[test]
fn a_path_is_read_from_where_it_says() {
    let read = locate(
        "/ignores",
        "/elsewhere/mine.gitignore",
        false,
        Vec::new(),
        Some("/elsewhere/mine.gitignore".to_owned()),
        true,
    );
    assert_eq!(read.expect("a place"), "/elsewhere/mine.gitignore");
}
