//! What the commands read, decide and say.
use autobahn::command::blocked::{
    blocked_fix, blocked_parts, blocked_path, clusters, common_prefix, conflict_filter,
    home_quoted, pasteable, roll_up, Counted, FilterError,
};
use autobahn::command::format::{
    format_age, format_age_at, format_bytes, format_duration, format_estimate, format_size,
    thousands,
};
use autobahn::command::issues::{check_depth, describe_side, issues, stays, IssueOptions};
use autobahn::command::remote::parse_remote;
use autobahn::command::scope::{covered_paths, is_covered, outermost_paths};
use autobahn::command::select::{
    relative_in, relative_path, select, selects_by_path, tidy, PathError, SelectError,
};
use autobahn::command::status::{
    collapsed_group, render_status, render_status_entry, show_recorded, status_view, Recorded,
    Reported, Rows, StatusOptions, StatusView, Supervisor,
};
use autobahn::plan::{ConflictDetail, ConflictSide, SessionPlan, SessionStatus, SyncMode};
use autobahn::progress::{Phase, ProgressSnapshot, SideSnapshot};
use autobahn::service::ServiceState;
use autobahn::text::{display_safe, shell_quote};

fn texts(list: &[&str]) -> Vec<String> {
    list.iter().map(|text| (*text).to_owned()).collect()
}

fn pairs(counted: Vec<Counted>) -> Vec<(String, usize)> {
    counted.into_iter().map(|counted| (counted.name, counted.count)).collect()
}

/// A plan of a group with one beta.
fn plan(group: &str, alpha: &str, beta: &str) -> SessionPlan {
    let host = match parse_remote(beta) {
        Some((destination, _)) => destination,
        None => beta.to_owned(),
    };
    SessionPlan {
        group: group.to_owned(),
        host: host.clone(),
        alpha_spec: alpha.to_owned(),
        beta_spec: beta.to_owned(),
        alpha_identity: alpha.to_owned(),
        beta_identity: beta.to_owned(),
        identifier: format!("{group}-{host}"),
        display: format!("{group} -> {host}"),
        mode: SyncMode::TwoWaySafe,
    }
}

fn fix_plan(beta: &str) -> SessionPlan {
    plan("g", "/tmp/a", beta)
}

#[test]
fn remote_specification_parsing() {
    let parsed = |spec: &str| parse_remote(spec);
    let pair = |a: &str, b: &str| Some((a.to_owned(), b.to_owned()));
    assert_eq!(parsed("host:path"), pair("host", "path"));
    assert_eq!(parsed("user@host:/absolute/path"), pair("user@host", "/absolute/path"));
    assert_eq!(parsed("/local/path"), None);
    assert_eq!(parsed("relative/path:with-colon"), None);
    assert_eq!(parsed("plain"), None);
}

#[test]
fn rolling_up_groups_by_leading_segments_and_keeps_leaves_whole() {
    let paths = texts(&[
        "vulns/backend/app.py",
        "vulns/backend/db.py",
        "vulns/README.md",
        "autobahn/src/main.rs",
        "Cargo.toml",
    ]);
    assert_eq!(
        pairs(roll_up(&paths, 1)),
        vec![
            ("vulns".to_owned(), 3),
            ("autobahn".to_owned(), 1),
            ("Cargo.toml".to_owned(), 1),
        ],
        "depth 1 groups by top-level folder, in the order reported"
    );
    assert_eq!(
        pairs(roll_up(&paths, 2)),
        vec![
            ("vulns/backend".to_owned(), 2),
            ("vulns/README.md".to_owned(), 1),
            ("autobahn/src".to_owned(), 1),
            ("Cargo.toml".to_owned(), 1),
        ]
    );
    // A depth past the deepest path leaves every path its own group, which is
    // the unrolled listing.
    assert_eq!(roll_up(&paths, 9).len(), paths.len());
}

#[test]
fn a_filter_is_a_substring_until_it_looks_like_a_glob() {
    // A plain word matches anywhere, ignoring case: what someone means when
    // they type a folder name in a hurry.
    let plain = conflict_filter("arcturus").expect("a plain filter compiles");
    assert!(plain.matches("arcturus/frontend/app.ts"));
    assert!(plain.matches("vendor/ARCTURUS/x"));
    assert!(!plain.matches("vulns/backend/app.py"));

    // A glob without a slash matches at any depth.
    let extension = conflict_filter("*.ts").expect("a glob compiles");
    assert!(extension.matches("arcturus/frontend/app.ts"));
    assert!(extension.matches("app.ts"));
    assert!(!extension.matches("arcturus/frontend/app.tsx"));

    // A glob with a slash is anchored to the root, because writing the
    // separator is what asks for that.
    let anchored = conflict_filter("vulns/**").expect("a glob compiles");
    assert!(anchored.matches("vulns/backend/app.py"));
    assert!(!anchored.matches("other/vulns/backend/app.py"));

    // A malformed pattern is reported, not silently matched.
    assert!(conflict_filter("[").is_err());
    assert!(conflict_filter(&format!("{}x{}", "{".repeat(2_000), "}".repeat(2_000))).is_err());
}

fn side() -> SideSnapshot {
    SideSnapshot {
        active: true,
        entries: 0,
        bytes: 0,
        expected: None,
        seconds: 0,
        remaining_seconds: None,
    }
}

fn snapshot(phase: Phase, seconds: u64) -> Reported {
    Reported {
        progress: ProgressSnapshot {
            phase,
            seconds,
            alpha: side(),
            beta: side(),
            staged: 0,
            staged_total: 0,
            staged_bytes: 0,
            staged_bytes_total: 0,
            applied: 0,
            applied_total: 0,
            remaining_seconds: None,
        },
        working_seconds: seconds,
    }
}

#[test]
fn a_phase_earns_the_status_line_by_taking_long_enough_to_look_stuck() {
    let shows = |progress: &Reported, live: bool| {
        let mut lines = Vec::new();
        render_status_entry(
            "beta",
            "two-way-conflict",
            None,
            Some(progress),
            live,
            false,
            0,
            &mut lines,
        );
        lines.concat().contains("scanning")
    };

    // A cycle that is quick about it says nothing.
    assert!(!shows(&snapshot(Phase::Scanning, 0), false));
    assert!(!shows(&snapshot(Phase::Scanning, 4), false));
    // One that has been going long enough to look dead says so.
    assert!(shows(&snapshot(Phase::Scanning, 5), false));
    assert!(shows(&snapshot(Phase::Scanning, 600), false));
    // A live view wants every phase.
    assert!(shows(&snapshot(Phase::Scanning, 0), true));
    // Waiting is never a phase to report: a session between cycles is
    // described by how the last one ended.
    assert!(!shows(&snapshot(Phase::Waiting, 600), true));
}

#[test]
fn an_estimate_is_rounded_to_the_precision_it_can_support() {
    // Close in, five-second steps: the two readings that made "about 20s" and
    // "about 14s" out of the same transfer now agree.
    assert_eq!(format_estimate(14), "15s");
    assert_eq!(format_estimate(20), "20s");
    assert_eq!(format_estimate(1), "5s");
    // Further out, coarser: quarter-minutes, then minutes.
    assert_eq!(format_estimate(100), "1m45s");
    assert_eq!(format_estimate(700), "12m");
    assert_eq!(format_estimate(3_500), "59m");
    assert_eq!(format_estimate(3_600), "1h");
    // Rounding is always up: an estimate that lands early is a pleasant
    // surprise, one that overruns is a broken promise.
    assert_eq!(format_estimate(31), "45s");
}

#[test]
fn a_scope_narrows_the_listing_and_moves_where_depth_counts_from() {
    let paths = texts(&[
        "autobahn/src/main.rs",
        "autobahn/src/shop.rs",
        "autobahn/Cargo.toml",
        "vulns/backend/app.py",
    ]);
    let scoped = covered_paths(&paths, &texts(&["autobahn"]));
    assert_eq!(scoped.len(), 3, "vulns is outside the scope");

    // Depth counts from the scope: one level below `autobahn`.
    let below = "autobahn".split('/').count();
    assert_eq!(
        pairs(roll_up(&scoped, 1 + below)),
        vec![("autobahn/src".to_owned(), 2), ("autobahn/Cargo.toml".to_owned(), 1)]
    );
    // Counting from the root instead would say nothing at all.
    assert_eq!(pairs(roll_up(&scoped, 1)), vec![("autobahn".to_owned(), 3)]);
}

#[test]
fn a_named_folder_covers_the_conflicts_recorded_under_it() {
    let recorded = texts(&[
        "autobahn/src/main.rs",
        "autobahn/Cargo.toml",
        "autobahn",
        "vulns/app.py",
        "autobahn-notes.md",
    ]);
    let under = |named: &str| -> Vec<String> { covered_paths(&recorded, &texts(&[named])) };
    assert_eq!(
        under("autobahn"),
        ["autobahn/src/main.rs", "autobahn/Cargo.toml", "autobahn"],
        "the folder, and everything below it"
    );
    // A sibling whose name merely starts the same is not below it.
    assert!(!under("autobahn").contains(&"autobahn-notes.md".to_owned()));
    // A file names only itself.
    assert_eq!(under("vulns/app.py"), ["vulns/app.py"]);
    // And a path with nothing recorded expands to nothing, which is what sends
    // the command back to taking the path at its word.
    assert!(under("bench").is_empty());
}

#[test]
fn blocked_entries_are_read_back_into_side_path_and_cause() {
    let entry = "beta azure/backend/.ruff_cache/0.9.10/104972: unable to read file: \
                 unable to open /home/ubuntu/Workspace/azure/backend/.ruff_cache/0.9.10/104972: \
                 Permission denied (os error 13)";
    let (side, path, cause) = blocked_parts(entry);
    assert_eq!(side, "beta");
    assert_eq!(path, "azure/backend/.ruff_cache/0.9.10/104972");
    assert_eq!(cause, "Permission denied (os error 13)");
    assert_eq!(blocked_path(entry), Some(path));

    // A message with no wrapping context is its own cause.
    let (side, path, cause) =
        blocked_parts("alpha notes.txt: refusing to create over existing content");
    assert_eq!((side.as_str(), path.as_str()), ("alpha", "notes.txt"));
    assert_eq!(cause, "refusing to create over existing content");
}

#[test]
fn paths_cluster_by_where_they_are_before_a_directory_is_named() {
    // No prefix in common: naming the shared directory of all would name the
    // root, and the fix would be to change everything.
    let mut paths = texts(&[
        "azure/backend/.ruff_cache/0.9.10/a",
        "azure/backend/.ruff_cache/0.9.10/b",
        "arcturus/frontend/static/images/one.png",
        "arcturus/frontend/static/logos/two.svg",
    ]);
    assert_eq!(common_prefix(&paths), "", "nothing is shared by all four");
    assert_eq!(
        pairs(clusters(&paths)),
        vec![
            ("azure/backend/.ruff_cache/0.9.10".to_owned(), 2),
            ("arcturus/frontend/static".to_owned(), 2),
        ]
    );

    // A single path clusters to its own directory.
    paths.truncate(1);
    assert_eq!(
        pairs(clusters(&paths)),
        vec![("azure/backend/.ruff_cache/0.9.10".to_owned(), 1)]
    );
}

#[test]
fn a_fix_command_quotes_every_name_it_holds() {
    let prefix = "a dir/it's;$(touch pwned)/`touch pwned`";
    let quoted = "a dir/it'\\''s;$(touch pwned)/`touch pwned`";
    let denied = "Permission denied (os error 13)";
    let local = blocked_fix("alpha", denied, prefix, &fix_plan("/tmp/b"));
    assert!(local[0].contains(&format!("'/tmp/a/{quoted}'")), "{local:?}");
    // Quoted once for the shell here, and once more for the one over there.
    let remote = blocked_fix("beta", denied, prefix, &fix_plan("u@h:/tmp/b"));
    assert!(remote[0].starts_with("ssh 'u@h' "), "{remote:?}");
    assert!(!remote[0].contains(&format!("/tmp/b/{prefix}")), "{remote:?}");
    assert_eq!(home_quoted("/tmp/it's"), "'/tmp/it'\\''s'");
}

#[test]
fn a_remote_fix_names_the_remote_user_not_the_host() {
    let fixes = blocked_fix(
        "beta",
        "Permission denied (os error 13)",
        "x",
        &fix_plan("h:/tmp/b"),
    );
    assert!(fixes[0].contains("$(id -un)"), "{fixes:?}");
    assert!(!fixes[0].contains("chown -R h "), "{fixes:?}");
}

#[test]
fn a_strange_name_gets_a_manual_fix_not_a_command() {
    for beta in ["u@h:/tmp/b", "/tmp/b"] {
        let fixes = blocked_fix(
            "beta",
            "Permission denied (os error 13)",
            "evil\nrm -rf ~\x1b[2J",
            &fix_plan(beta),
        );
        assert!(fixes[0].starts_with("fix permissions on "), "{fixes:?}");
        assert!(fixes[0].ends_with(" by hand"), "{fixes:?}");
        assert!(!fixes[0].contains('\n') && !fixes[0].contains('\x1b'), "{fixes:?}");
        assert!(fixes[0].contains("evil\\nrm"), "{fixes:?}");
    }
}

#[test]
fn a_fix_for_a_home_relative_root_expands_the_home() {
    let fixes = blocked_fix(
        "beta",
        "Permission denied (os error 13)",
        "x",
        &fix_plan("u@h:~/mirror"),
    );
    // The home stands outside the quotes, or no shell would expand it.
    assert_eq!(
        fixes[0],
        "ssh 'u@h' 'sudo chown -R \"$(id -un)\" \"$HOME\"/'\\''mirror/x'\\'''"
    );
    assert_eq!(home_quoted("~/mirror/x"), "\"$HOME\"/'mirror/x'");
}

#[test]
fn an_ignore_is_suggested_only_for_a_generated_directory() {
    let plan = plan("g", "/tmp/a", "u@h:/tmp/b");
    // The last segment is a version. The generated directory is the hidden one
    // above it, and that is what may be ignored.
    let fixes = blocked_fix(
        "beta",
        "Permission denied (os error 13)",
        "azure/backend/.ruff_cache/0.9.10",
        &plan,
    );
    assert!(fixes[0].starts_with("ssh 'u@h' "), "{fixes:?}");
    assert!(fixes[1].contains("\".ruff_cache\""), "{fixes:?}");

    // Nothing hidden in the path, so no ignore is offered: ignoring a real
    // folder is worse than fixing its ownership.
    let fixes = blocked_fix(
        "beta",
        "Permission denied (os error 13)",
        "arcturus/frontend/static",
        &plan,
    );
    assert_eq!(fixes.len(), 1, "{fixes:?}");
}

#[test]
fn a_name_collision_reads_as_a_collision() {
    let entry = "alpha recruiting/candidates/Jorge Suárez resume.pdf: \
                 \"Jorge Sua\u{301}rez resume.pdf\" is already here under one entry: \
                 unicode collision";
    let (side, path, cause) = blocked_parts(entry);
    assert_eq!(side, "alpha");
    assert_eq!(path, "recruiting/candidates/Jorge Suárez resume.pdf");
    assert_eq!(cause, "unicode collision", "the heading names the rule");

    // Two files colliding the same way group together, however different the
    // names in front of the cause.
    let other = "alpha recruiting/candidates/Ana Muñoz cv.pdf: \
                 \"Ana Mun\u{303}oz cv.pdf\" is already here under one entry: \
                 unicode collision";
    assert_eq!(blocked_parts(other).2, cause);

    // And the fix names what to do about it rather than offering a diff, which
    // for a PDF is no help at all.
    let plan = plan("g", "/tmp/a", "u@h:/tmp/b");
    let fixes = blocked_fix("alpha", &cause, "recruiting/candidates", &plan);
    assert_eq!(fixes.len(), 1);
    assert!(fixes[0].contains("holds this name twice"), "{fixes:?}");
    assert!(fixes[0].contains("spelled two ways"), "{fixes:?}");
    assert!(!fixes[0].contains("diff"), "{fixes:?}");

    // Casing says casing.
    let fixes = blocked_fix("beta", "casing collision", "docs", &plan);
    assert!(fixes[0].starts_with("alpha holds"), "{fixes:?}");
    assert!(fixes[0].contains("cased two ways"), "{fixes:?}");
}

#[test]
fn a_path_in_nested_groups_is_relative_to_each_root() {
    let plans = [plan("outer", "/k/outer", "/k/b1"), plan("inner", "/k/outer/inner", "/k/b2")];
    let file = "/k/outer/inner/file.txt";
    assert!(selects_by_path(&plans, file, true));
    let selection = select(&plans, Some(file), Some(file), None, None).expect("a selection");
    assert_eq!(selection.plans.len(), 2);
    for (index, plan) in selection.plans.iter().enumerate() {
        let expected = match plan.group.as_str() {
            "outer" => "inner/file.txt",
            "inner" => "file.txt",
            other => panic!("unexpected group {other}"),
        };
        assert_eq!(relative_in(&selection, index, None).unwrap(), expected);
    }
    // The two disagree, so no single remainder stands for both.
    assert_eq!(selection.relative, None);
    assert!(matches!(relative_path(&selection, None), Err(PathError::Nested)));
}

#[test]
fn a_selection_that_finds_nothing_says_why() {
    let plans = [plan("g", "/tmp/a", "u@h:/tmp/b")];
    let failed = |selector, folder, host| match select(&plans, selector, folder, host, None) {
        Err(error) => error.message(),
        Ok(_) => panic!("nothing to select"),
    };
    assert_eq!(failed(Some("x"), None, None), "no configured group named 'x'");
    assert_eq!(failed(Some("x"), None, Some("h")), "no configured session matches x@h");
    assert_eq!(
        failed(Some("/elsewhere"), Some("/elsewhere"), None),
        "no configured group synchronizes /elsewhere (or anything containing it)"
    );
    assert_eq!(
        failed(Some("g"), None, Some("other")),
        "no destination named \"other\" in the selected group (destinations are named as \
         `autobahn status` shows them)"
    );
    assert!(matches!(select(&[], None, None, None, None), Err(SelectError::NoSessions)));
    let selection = select(&plans, Some("g"), None, None, None).expect("the group");
    assert!(matches!(relative_path(&selection, None), Err(PathError::Unnamed)));
    assert_eq!(relative_path(&selection, Some("a/b")).unwrap(), "a/b");
    assert_eq!(tidy("././a/b//"), "a/b");
}

#[test]
fn a_quoted_text_is_one_word() {
    assert_eq!(shell_quote("plain"), "'plain'");
    assert_eq!(shell_quote("it's; $(x)"), "'it'\\''s; $(x)'");
    assert_eq!(shell_quote(""), "''");
    assert_eq!(display_safe("a\tb\u{1b}[2J\u{7}"), "a\\tb\\u{1b}[2J\\u{7}");
    assert!(!display_safe("\n\r\t\u{0}\u{9f}").chars().any(char::is_control));
    assert_eq!(display_safe("é日"), "é日");
}

#[test]
fn outermost_paths_are_apart() {
    let outermost = outermost_paths(&texts(&["a/b", "a", "a/b/c", "d", "ab"]));
    for one in &outermost {
        for other in &outermost {
            assert!(one == other || !is_covered(one, other), "{outermost:?}");
        }
    }
    for path in ["a/b", "a", "a/b/c", "d", "ab"] {
        assert!(outermost.iter().any(|outer| is_covered(outer, path)), "{path}");
    }
}

#[test]
fn sizes_durations_and_ages_are_words() {
    assert_eq!(thousands(1_234_567), "1,234,567");
    assert_eq!(thousands(12), "12");
    assert_eq!(format_duration(59), "59s");
    assert_eq!(format_duration(3_661), "1h01m");
    assert!(format_size(512).contains("512"));
    assert_eq!(format_size(1_536), "1.5 KB");
    assert_eq!(format_bytes(0), "0 bytes");
    assert_eq!(format_bytes(1_023), "1023 bytes");
    assert_eq!(format_bytes(1_536), "1.50 kB");
    assert_eq!(format_bytes(15 << 20), "15.0 MB");
    assert_eq!(format_bytes(150 << 30), "150 GB");
    assert_eq!(format_bytes(10_239), "10.0 kB");
    assert_eq!(format_bytes(u64::MAX), "17179869184 GB");
    assert_eq!(format_age_at(100, 100), format_age_at(200, 200));
    assert_ne!(format_age_at(0, 10), format_age_at(0, 10_000));
    assert_ne!(format_age(0), format_age(u64::MAX));
    assert_eq!(pasteable("plain"), "plain");
}

fn status(state: &str, conflicts: &[&str], blocked: &[&str]) -> SessionStatus {
    SessionStatus {
        state: state.to_owned(),
        conflicts: texts(conflicts),
        conflict_details: Vec::new(),
        blocked: texts(blocked),
        error: None,
        cycles: 3,
        updated_at: 90,
        role: String::new(),
        term: 0,
    }
}

fn everything() -> IssueOptions {
    IssueOptions { scope: None, filter: None, pattern: None, depth: None }
}

#[test]
fn issues_are_listed_by_session_and_grouped_by_cause() {
    let plans = [plan("g", "/tmp/a", "u@h:/tmp/b"), plan("quiet", "/tmp/q", "/tmp/r")];
    let mut troubled = status(
        "conflicted",
        &["notes/one.txt"],
        &[
            "beta x/a: unable to read file: Permission denied (os error 13)",
            "beta x/b: unable to read file: Permission denied (os error 13)",
        ],
    );
    troubled.conflict_details = vec![ConflictDetail {
        path: "notes/one.txt".to_owned(),
        alpha: present(12, 10),
        beta: absent(),
    }];
    let statuses = [Some(troubled), Some(status("synchronized", &[], &[]))];
    let lines = issues(&plans, &statuses, &everything(), 100).expect("a listing").join("\n");
    assert!(lines.contains("notes/one.txt"), "{lines}");
    assert!(lines.contains("Permission denied (os error 13)"), "{lines}");
    assert_eq!(lines.matches("Permission denied").count(), 1, "{lines}");
    assert!(!lines.contains("quiet"), "{lines}");

    let mut narrowed = everything();
    narrowed.depth = Some(0);
    let error = issues(&plans, &statuses, &narrowed, 100).expect_err("no depth");
    assert_eq!(error.message(), "--depth counts path segments, so it starts at 1");

    let mut filtered = everything();
    filtered.scope = Some("elsewhere".to_owned());
    let lines = issues(&plans, &statuses, &filtered, 100).expect("a listing").join("\n");
    assert!(!lines.contains("notes/one.txt"), "{lines}");
    assert!(stays(1, 0, "synchronized") && !stays(0, 0, "synchronized"));
}

fn present(size: u64, mtime_seconds: i64) -> ConflictSide {
    ConflictSide {
        present: true,
        kind: "file".to_owned(),
        size,
        mtime_seconds,
        unsynchronizable: None,
    }
}

fn absent() -> ConflictSide {
    ConflictSide {
        present: false,
        kind: String::new(),
        size: 0,
        mtime_seconds: 0,
        unsynchronizable: None,
    }
}

#[test]
fn a_side_of_a_conflict_is_described() {
    let here = describe_side(&present(2_048, 40), 100);
    assert_eq!(here, "2.0 KB, modified 1m ago");
    assert_ne!(here, describe_side(&present(4_096, 40), 100));
    assert_ne!(here, describe_side(&absent(), 100));
}

fn supervisor() -> Supervisor {
    Supervisor {
        mismatch: None,
        running: true,
        service: Some(ServiceState::Running),
        notice: None,
    }
}

fn options() -> StatusOptions {
    StatusOptions { expand_conflicts: false, expand: false, live: false }
}

#[test]
fn the_status_names_every_group() {
    let plans = [plan("one", "/tmp/a", "u@h:/tmp/b"), plan("two", "/tmp/q", "/tmp/r")];
    let statuses = [Some(status("synchronized", &[], &[])), Some(status("conflicted", &["x"], &[]))];
    let reported = [None, None];
    let rows = Rows { plans: &plans, statuses: &statuses, reported: &reported };
    let lines = render_status(&supervisor(), &rows, &options(), 100).join("\n");
    assert!(lines.contains("one"), "{lines}");
    assert!(lines.contains("two"), "{lines}");
    assert!(lines.contains("1 conflict"), "{lines}");

    // A quiet group is one line; one with a conflict is not collapsed.
    assert!(collapsed_group(&statuses, &reported, 0, 1, false, 100).is_some());
    assert!(collapsed_group(&statuses, &reported, 1, 2, false, 100).is_none());
}

#[test]
fn a_record_is_shown_where_the_configuration_does_not_load() {
    let recorded = [Recorded {
        group: "g".to_owned(),
        host: "h".to_owned(),
        beta: "h:/tmp/b".to_owned(),
        state: "synchronized".to_owned(),
        error: None,
    }];
    let lines = show_recorded(&recorded, "bad mode").join("\n");
    assert!(lines.contains("bad mode") && lines.contains("synchronized"), "{lines}");
}

#[test]
fn the_view_of_a_status_follows_its_options() {
    assert!(matches!(status_view(false, false, true, true, true), StatusView::LiveDocument));
    assert!(matches!(status_view(false, false, true, false, true), StatusView::Live));
    assert!(matches!(status_view(false, false, true, false, false), StatusView::NoTerminal));
    assert!(matches!(status_view(false, false, false, true, true), StatusView::Document));
    assert!(matches!(status_view(false, false, false, false, true), StatusView::Text));
}

#[test]
fn a_depth_counts_segments_of_what_is_shown() {
    assert!(check_depth(None, true).is_ok());
    assert!(check_depth(Some(1), false).is_ok());
    let error = check_depth(Some(0), true).expect_err("nothing to count");
    assert_eq!(error.message(), "--depth counts path segments, so it starts at 1");
    let error = check_depth(Some(1), true).expect_err("nothing is shown");
    assert_eq!(
        error.message(),
        "--depth is a display option; with --json, group the paths yourself"
    );
}

#[test]
fn a_shared_directory_is_the_same_in_any_order() {
    assert_eq!(common_prefix(&texts(&["a/b/c", "a/b"])), "a");
    assert_eq!(common_prefix(&texts(&["a/b", "a/b/c"])), "a");
    assert_eq!(common_prefix(&texts(&["a/b/c", "a/b/d"])), "a/b");
    assert_eq!(common_prefix(&texts(&["a"])), "");
    assert_eq!(common_prefix(&[]), "");
    assert_eq!(pairs(clusters(&texts(&["a/b", "a"]))), vec![("a".to_owned(), 2)]);
}

#[test]
fn a_local_root_with_a_colon_in_it_is_mended_here() {
    let local = plan("g", "/a", "/data/a:b");
    let fixes = blocked_fix("beta", "Permission denied (os error 13)", "docs", &local);
    assert_eq!(fixes, vec!["sudo chown -R \"$(whoami)\" '/data/a:b/docs'"]);
    let remote = plan("g", "/a", "host:/data");
    let fixes = blocked_fix("beta", "Permission denied (os error 13)", "docs", &remote);
    assert!(fixes[0].starts_with("ssh 'host' "), "{fixes:?}");
}

#[test]
fn a_filter_that_cannot_be_read_says_why() {
    match conflict_filter("[") {
        Err(error @ FilterError::Invalid { .. }) => assert!(!error.message().is_empty()),
        _ => panic!("an unclosed class is invalid"),
    }
    let nested = format!("{}x{}", "{".repeat(251), "}".repeat(251));
    match conflict_filter(&nested) {
        Err(error @ FilterError::TooLarge) => {
            assert_eq!(error.message(), "it is too long or too deeply nested");
        }
        _ => panic!("no such filter compiles"),
    }
    let plain = conflict_filter("a/b").expect("a path is always a filter");
    assert!(plain.matches("x/A/b/c"));
}
