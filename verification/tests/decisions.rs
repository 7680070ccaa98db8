//! What `resolve`, `clean`, `doctor` and `sync` decide.
use autobahn::command::clean::{
    agents_line, destinations, disabled_labels, disabled_plans, identifiers_of, log_line,
    must_ask, question, skipped_line, staging_session, summary, Attempt, CleanTally, Cleaning,
    Fate,
};
use autobahn::command::control::{
    after_supervision, applied_line, availability, bundled_launch, changed, checks_config,
    exit_code, identical_line, is_same_content, leads_peers, live_display, log_level, may_write_config, peer_header,
    presence_line, shows_as_peer, sync_form, unchanged_line, watch_start, yielded_line,
    AfterSupervision, Availability, AvailabilityError, PeerStanding, SyncForm, WatchStart,
};
use autobahn::command::doctor::{
    baseline_line, describe, entries_below, heading, lopsided_folders, show, show_lopsided,
    show_next, show_reset, side_line, Baseline, Change,
};
use autobahn::command::resolve::{
    acting_paths, blocked_paths, choose_all, choose_named, choose_winner, confirmed, decided_paths,
    nothing_to_retire, free_name, is_yes, judge, loses_alpha, mode_refusal, paths_here, paths_to_settle, plan_path, proposal,
    removals_of, replacements, single_group, stakes, starting_trees, targets_root, unsafe_words,
    unsynchronizable_within, ChooseError, Confirmation, Cycle, KeepError, Loser, ModeRefusal, PathPlan,
    StartingTree, Target, Unsafe, Winner,
};
use autobahn::command::settle::{agreed_paths, count_settled, note, note_paths, report};
use autobahn::command::sync::{
    after_cycle, identity, is_local, missing_words, outcome_line, print_report, reach,
    refused_root, run_end, split_words, unsettled_words, wait_seconds, CycleReport, Next, Outcome, Problem, Reach,
    RunEnd, SessionOutcome,
};
use autobahn::digest::digest_of;
use autobahn::plan::{SessionPlan, SyncMode};
use autobahn::tree::{Content, FileMetadata, Node, Snapshot};

fn texts(list: &[&str]) -> Vec<String> {
    list.iter().map(|text| (*text).to_owned()).collect()
}

fn plan(host: &str, mode: SyncMode) -> SessionPlan {
    SessionPlan {
        group: "g".to_owned(),
        host: host.to_owned(),
        alpha_spec: "/tmp/a".to_owned(),
        beta_spec: format!("{host}:/tmp/b"),
        alpha_identity: "/tmp/a".to_owned(),
        beta_identity: format!("{host}:/tmp/b"),
        identifier: format!("id-{host}"),
        display: format!("g -> {host}"),
        mode,
    }
}

fn file(name: &str, contents: &str) -> Node {
    Node {
        name: name.to_owned(),
        content: Content::File {
            digest: digest_of(contents.as_bytes()),
            executable: false,
            metadata: FileMetadata {
                mtime_seconds: 0,
                mtime_nanos: 0,
                size: contents.len() as u64,
                inode: 1,
                mode: 0o100644,
            },
        },
    }
}

fn directory(name: &str, children: Vec<Node>) -> Node {
    Node { name: name.to_owned(), content: Content::Directory(children) }
}

fn problematic(name: &str) -> Node {
    Node { name: name.to_owned(), content: Content::Problematic { message: "denied".to_owned() } }
}

#[test]
fn the_winner_is_a_side_both_or_a_destination() {
    let plans = [plan("one", SyncMode::TwoWaySafe), plan("two", SyncMode::TwoWaySafe)];
    assert!(matches!(choose_winner(&plans, "alpha"), Ok(Winner::Alpha)));
    assert!(matches!(choose_winner(&plans, "both"), Ok(Winner::Both)));
    assert!(matches!(choose_winner(&plans, "two"), Ok(Winner::Beta(1))));
    assert!(matches!(choose_winner(&plans, "one:/tmp/b"), Ok(Winner::Beta(0))));
    let hosts = texts(&["one", "two"]);
    match choose_winner(&plans, "three") {
        Err(error) => assert_eq!(
            error.message("three", "g", &hosts),
            "--keep \"three\" names no destination of group 'g'; expected alpha, both, or one of: \
             one, two"
        ),
        Ok(_) => panic!("there is no such destination"),
    }
    let twins = [plan("one", SyncMode::TwoWaySafe), plan("one", SyncMode::TwoWaySafe)];
    match choose_winner(&twins, "one") {
        Err(KeepError::Ambiguous) => {}
        _ => panic!("two destinations have that name"),
    }
    assert!(single_group(&plans));
}

#[test]
fn all_takes_every_recorded_conflict_and_cannot_keep_both() {
    let plans = [plan("one", SyncMode::TwoWaySafe), plan("two", SyncMode::TwoWaySafe)];
    let records = [Some(texts(&["b", "a"])), None];
    match choose_all(&plans, &records, Winner::Alpha) {
        Ok(Some(targets)) => {
            assert_eq!(targets.len(), 1);
            assert_eq!(targets[0].plan.host, "one");
            assert_eq!(paths_to_settle(&targets).len(), 2);
            assert!(!targets_root(&targets));
        }
        _ => panic!("two paths are recorded"),
    }
    match choose_all(&plans, &records, Winner::Both) {
        Err(ChooseError::AllCannotKeepBoth) => {}
        _ => panic!("refused"),
    }
}

#[test]
fn a_named_folder_is_the_conflicts_below_it() {
    let plans = [plan("one", SyncMode::TwoWaySafe)];
    let records = [Some(texts(&["d/x", "d/y", "e"]))];
    let (targets, scope) = choose_named(&plans, &records, &texts(&["d"]));
    assert_eq!(targets.len(), 1);
    assert_eq!(targets[0].paths, ["d/x", "d/y"]);
    assert_eq!(scope.as_deref(), Some("d"));
    // A path nothing is recorded under is taken at its word.
    let (targets, _) = choose_named(&plans, &records, &texts(&["f"]));
    assert_eq!(targets[0].paths, ["f"]);
    assert!(is_yes("y\n") && is_yes("yes") && is_yes("Y") && !is_yes("") && !is_yes("no"));
}

#[test]
fn a_mode_that_would_undo_the_choice_is_refused() {
    let replica = [plan("one", SyncMode::OneWayReplica)];
    let targets = [Target { plan: replica[0].duplicate(), paths: texts(&["x"]) }];
    match mode_refusal(Winner::Beta(0), &replica, &targets) {
        Some(refusal @ ModeRefusal::NeverCarried) => {
            let words = refusal.message("one", "one-way-alpha", "one");
            assert!(words.ends_with("Nothing was changed"), "{words}");
        }
        other => panic!("{other:?}"),
    }
    assert!(matches!(
        mode_refusal(Winner::Both, &replica, &targets),
        Some(ModeRefusal::AsideWouldGo { target: 0 })
    ));
    let safe = [plan("one", SyncMode::TwoWaySafe)];
    let targets = [Target { plan: safe[0].duplicate(), paths: texts(&["x"]) }];
    assert!(mode_refusal(Winner::Both, &safe, &targets).is_none());
    assert!(loses_alpha(Winner::Beta(0), 0));
    assert!(!loses_alpha(Winner::Alpha, 0));
}

#[test]
fn a_proposal_names_the_sides_by_their_roots() {
    let plans = [plan("one", SyncMode::TwoWaySafe)];
    let targets = [Target { plan: plans[0].duplicate(), paths: texts(&["d/x", "d/y"]) }];
    let (kept, overwritten) = stakes(Winner::Alpha, &plans, &targets);
    let lines = proposal(&targets, &kept, &overwritten, Some("d"), false);
    assert_eq!(lines[0], "about to resolve 2 conflicts under d:");
    let text = lines.join("\n");
    assert!(text.contains("  keep       "), "{text}");
    assert!(text.contains("  overwrite  "), "{text}");
    assert!(text.contains("one:/tmp/b"), "{text}");
    assert!(text.contains("  d/x"), "{text}");
}

#[test]
fn what_is_lost_is_only_what_was_scanned() {
    let own = directory("", vec![directory("d", vec![file("x", "mine")])]);
    let winning = directory("", vec![directory("d", vec![file("x", "theirs")])]);
    match plan_path(Some(&own), Some(&winning), "d/x", "beta", false) {
        PathPlan::Retire { expectation } => assert_eq!(expectation.name, "x"),
        other => panic!("{other:?}"),
    }
    assert!(matches!(
        plan_path(Some(&own), Some(&own), "d/x", "beta", false),
        PathPlan::Agreed
    ));
    assert!(matches!(
        plan_path(Some(&own), Some(&winning), "gone", "beta", false),
        PathPlan::Agreed | PathPlan::Gone | PathPlan::Nothing
    ));
    let locked = directory("", vec![directory("d", vec![problematic("secret")])]);
    match plan_path(Some(&locked), Some(&winning), "d", "beta", false) {
        PathPlan::Blocked { example, reason } => {
            assert_eq!((example.as_str(), reason.as_str()), ("d/secret", "denied"))
        }
        other => panic!("{other:?}"),
    }
    assert!(unsynchronizable_within(&own, "").is_none());
    let aside = free_name(Some(&own), "d/x", "beta").expect("a free name");
    assert!(aside.starts_with("d/x"), "{aside}");
    match plan_path(Some(&own), Some(&winning), "d/x", "beta", true) {
        PathPlan::Aside { aside: planned } => assert_eq!(planned, aside),
        other => panic!("{other:?}"),
    }
}

fn loser() -> Loser {
    let own = directory("", vec![file("x", "mine"), file("y", "same")]);
    let winning = directory("", vec![file("x", "theirs"), file("y", "same")]);
    Loser::new(
        0,
        false,
        "one".to_owned(),
        Some(own),
        texts(&["x", "y"]),
        Some(&winning),
        false,
    )
}

#[test]
fn only_disputed_paths_are_touched() {
    let losers = [loser()];
    assert_eq!(acting_paths(&losers[0], &[]), ["x"]);
    assert_eq!(agreed_paths(&losers), ["y"]);
    assert!(blocked_paths(&losers).is_empty());
    let removals = removals_of(&losers[0], &[]);
    assert_eq!(removals.len(), 1);
    assert_eq!(removals[0].path, "x");
    // A refused path is left alone.
    assert!(removals_of(&losers[0], &texts(&["x"])).is_empty());
    assert_eq!(decided_paths(Winner::Alpha, &losers, 0, &[]), ["x"]);
    let winning = directory("", vec![file("x", "theirs")]);
    let replaced = replacements(&texts(&["x"]), Some(&winning));
    assert!(replaced[0].new.is_some());
    assert!(matches!(
        starting_trees(Winner::Alpha, 0, true),
        (StartingTree::Winning, StartingTree::Retired)
    ));
    let words = report(1, 1, Winner::Alpha, &losers, &texts(&["x"]), &[], &[], &[], true);
    assert!(words.join("\n").contains('1'), "{words:?}");
}

#[test]
fn a_resolution_that_would_delete_the_winner_is_unsafe() {
    let losers = [loser()];
    let winning = directory("", vec![file("x", "theirs")]);
    let retired = directory("", vec![]);
    // Both sides come out with the kept version: fine.
    let settled = Cycle {
        ancestor: None,
        winning: Some(&winning),
        alpha: Some(&winning),
        beta: Some(&winning),
    };
    let mode = SyncMode::TwoWaySafe;
    assert!(judge(Winner::Alpha, 0, mode, Some(&losers[0]), &settled, "x").is_none());
    // The next cycle would carry the removal to the winner.
    let lost = |ancestor| Cycle {
        ancestor,
        winning: Some(&winning),
        alpha: Some(&retired),
        beta: Some(&retired),
    };
    let judged = |winner, mode, ancestor| {
        judge(winner, 0, mode, Some(&losers[0]), &lost(ancestor), "x").expect("unsafe")
    };
    assert!(matches!(judged(Winner::Alpha, mode, None), Unsafe::NotCarried));
    assert!(matches!(judged(Winner::Alpha, mode, Some(&winning)), Unsafe::Unchanged));
    let strict = SyncMode::TwoWayStrict;
    assert!(matches!(judged(Winner::Beta(0), strict, None), Unsafe::DeletionWins));
    let words = |reason| unsafe_words(&reason, "one", "h", "two-way");
    assert_eq!(
        words(Unsafe::NotCarried),
        "keeping one here would not carry it to h in two-way"
    );
    assert_eq!(
        words(Unsafe::DeletionWins),
        "keeping one here would delete it: in two-way alpha's deletion beats one's edit, so \
         removing alpha's copy removes one's too"
    );
    assert_eq!(
        words(Unsafe::AsideLost { aside: "x~".to_owned() }),
        "h's copy, moved aside to x~, would not survive in two-way"
    );
    assert_eq!(
        words(Unsafe::Unknown { message: "no parent".to_owned() }),
        "whether keeping one here would delete it cannot be worked out (no parent)"
    );
}

#[test]
fn notes_are_kept_once_for_each_path() {
    let mut notes = Vec::new();
    note(&mut notes, "x", "first".to_owned());
    note(&mut notes, "y", "other".to_owned());
    assert_eq!(note_paths(&notes), ["x", "y"]);
    assert_eq!(notes[0].text, "first");
    // A removal settles a path where it left nothing behind.
    assert_eq!(count_settled(&[Some(2), None, Some(0)]), 2);
}

fn cleaning() -> Cleaning {
    Cleaning {
        live_sessions: texts(&["live"]),
        live_locks: texts(&["live.lock"]),
        labels: Vec::new(),
        unclear: Vec::new(),
        include_disabled: false,
        dry_run: false,
        staging_days: Some(7),
        retired: Vec::new(),
    }
}

#[test]
fn live_state_is_left_alone() {
    let mut cleaning = cleaning();
    assert!(matches!(cleaning.judge_session("live"), Fate::Leave));
    assert!(matches!(cleaning.judge_session("stale"), Fate::Remove(_)));
    assert!(matches!(cleaning.judge_lock("live.lock"), Fate::Leave));
    assert!(matches!(cleaning.judge_status("live.json"), Fate::Leave));
    assert!(matches!(cleaning.judge_status("stale.lock"), Fate::Leave));
    match cleaning.judge_status("stale.json") {
        Fate::Remove(label) => assert_eq!(label, "status record"),
        _ => panic!("nothing has that status"),
    }
    cleaning.retire("stale");
    assert!(cleaning.retired.contains(&"stale".to_owned()));
    // What no group accounts for might be a disabled group's that does not load.
    cleaning.unclear = texts(&["broken"]);
    assert!(matches!(cleaning.judge_session("stale"), Fate::Keep));
    assert!(matches!(cleaning.judge_status("stale.json"), Fate::Keep));
    assert!(matches!(cleaning.judge_status("live.json"), Fate::Leave));
    assert!(!cleaning.removed_line("session", "/s/stale", 10).is_empty());
    assert!(!cleaning.kept_line("session", "/s/stale").is_empty());
}

#[test]
fn disabled_groups_are_told_apart_from_broken_ones() {
    let attempts = [
        Attempt { group: "off".to_owned(), plans: Some(vec![plan("h", SyncMode::TwoWaySafe)]) },
        Attempt { group: "broken".to_owned(), plans: None },
    ];
    let (disabled, unclear) = disabled_plans(&attempts, &[]);
    assert_eq!(identifiers_of(&disabled), ["id-h"]);
    assert_eq!(unclear, ["broken"]);
    assert_eq!(disabled_labels(&disabled)[0].identifier, "id-h");
    assert!(must_ask(true, false, false, &disabled, &unclear));
    assert!(!must_ask(true, false, true, &disabled, &unclear));
    assert!(!question(&disabled, &unclear).is_empty());
    assert_eq!(staging_session("no staging name"), None);
    assert_eq!(staging_session("a-b-beta").as_deref(), Some("a-b"));
    assert_eq!(staging_session("a-b-beta.scancache").as_deref(), Some("a-b"));
}

#[test]
fn staged_content_goes_with_its_session_or_with_age() {
    let mut cleaning = cleaning();
    let week = 7 * 86_400;
    assert!(matches!(cleaning.judge_staging("live-beta", Some(10 * week)), Fate::Leave));
    assert!(matches!(cleaning.judge_staging("other-beta", Some(week)), Fate::Remove(_)));
    assert!(matches!(cleaning.judge_staging("other-beta", Some(week - 1)), Fate::Leave));
    assert!(matches!(cleaning.judge_staging("other-beta", None), Fate::Leave));
    cleaning.retire("other");
    assert!(matches!(cleaning.judge_staging("other-beta", None), Fate::Remove(_)));
    assert!(matches!(cleaning.judge_staging("nameless", Some(10 * week)), Fate::Leave));
}

#[test]
fn a_side_acts_where_it_conflicts_and_alpha_everywhere() {
    let one = plan("one", SyncMode::TwoWaySafe);
    let two = plan("two", SyncMode::TwoWaySafe);
    let targets = [
        Target { plan: one.duplicate(), paths: texts(&["x"]) },
        Target { plan: two.duplicate(), paths: texts(&["x", "y"]) },
    ];
    let paths = texts(&["x", "y"]);
    assert_eq!(paths_here(&paths, &targets, &one, false), ["x"]);
    assert_eq!(paths_here(&paths, &targets, &two, false), ["x", "y"]);
    assert_eq!(paths_here(&paths, &targets, &one, true), ["x", "y"]);
}

#[test]
fn a_cleaning_adds_up() {
    let tally = CleanTally { removed: 2, bytes: 2_048, in_use: 1, agents_removed: 0 };
    let lines = summary(&tally, false).join("\n");
    assert!(lines.contains("2.0 KB"), "{lines}");
    assert_eq!(destinations(&texts(&["h", "g", "h"])).len(), 2);
    assert!(agents_line("h", &texts(&["0.1"]), &[], true).contains("h"));
    assert!(skipped_line("lock", "/l").contains("/l"));
    assert!(log_line(2_048, "/log").contains("2.0 KB"));
}

fn snapshot(root: Option<Node>) -> Snapshot {
    Snapshot {
        root,
        mount_points: Vec::new(),
        preserves_executability: true,
        directories: 1,
        files: 2,
        symlinks: 0,
        total_file_size: 2_048,
        scanned_at_seconds: 0,
    }
}

#[test]
fn a_folder_full_on_one_side_and_empty_on_the_other_is_pointed_out() {
    let full = || directory("d", (0..8).map(|i| file(&format!("f{i}"), "x")).collect());
    let alpha = directory("", vec![full()]);
    let beta = directory("", vec![directory("d", Vec::new())]);
    assert_eq!(entries_below(&alpha), 9);
    let found = lopsided_folders(Some(&alpha), Some(&beta));
    assert_eq!(found.len(), 1, "{found:?}");
    assert!(found[0].contains('d'), "{found:?}");
    assert!(lopsided_folders(Some(&alpha), Some(&alpha)).is_empty());
    assert!(!show_lopsided(&found).is_empty());
    let seven = directory("", vec![directory(
        "d",
        (0..7).map(|i| file(&format!("f{i}"), "x")).collect(),
    )]);
    assert!(lopsided_folders(Some(&seven), Some(&beta)).is_empty());
}

#[test]
fn a_diagnosis_says_what_the_next_cycle_would_do() {
    let change = |path: &str, had, gets| Change { path: path.to_owned(), had, gets };
    let lines = describe(
        &[change("made", false, true)],
        &[change("gone", true, false), change("changed", true, true)],
        &texts(&["torn"]),
    );
    assert_eq!(lines.len(), 4, "{lines:?}");
    assert!(!show_next(&lines).is_empty());
    assert!(!show_reset(&lines).is_empty());
    let many: Vec<String> = (0..20).map(|i| format!("line {i}")).collect();
    let shown = show("heading", &many).join("\n");
    assert!(shown.contains("line 7") && !shown.contains("line 8"), "{shown}");
    assert!(shown.contains("12"), "{shown}");
    assert!(heading(&plan("h", SyncMode::TwoWaySafe)).contains("g"));
    assert!(side_line("alpha", &snapshot(None)).contains("alpha"));
    assert_ne!(
        baseline_line(&Baseline::Missing),
        baseline_line(&Baseline::Readable { generation: 3 })
    );
}

#[test]
fn a_specification_is_reached_by_agent_shell_or_path() {
    assert_eq!(split_words("  a  b "), ["a", "b"]);
    assert!(matches!(reach("/x", None), Reach::Local));
    match reach("u@h:/x", None) {
        Reach::Shell { host, path } => assert_eq!((host.as_str(), path.as_str()), ("u@h", "/x")),
        other => panic!("{other:?}"),
    }
    match reach("/x", Some("run agent")) {
        Reach::Agent { argv } => assert_eq!(argv, ["run", "agent"]),
        other => panic!("{other:?}"),
    }
    assert!(matches!(reach("/x", Some("  ")), Reach::NoCommand));
    assert!(is_local("/x", None) && !is_local("h:/x", None));
    assert_eq!(identity("u@h:/x", None), "u@h:/x");
    assert_eq!(identity("x", Some("/abs/x")), "/abs/x");
}

fn quiet() -> CycleReport {
    CycleReport {
        alpha_transitions: 0,
        beta_transitions: 0,
        conflicts: Vec::new(),
        alpha_scan_problems: Vec::new(),
        beta_scan_problems: Vec::new(),
        alpha_transition_problems: Vec::new(),
        beta_transition_problems: Vec::new(),
        missing_staged_files: false,
    }
}

#[test]
fn cycles_follow_one_another_until_the_roots_settle() {
    let mut follow_ups = 0;
    assert!(matches!(after_cycle(&quiet(), &mut follow_ups, false, 3), Next::Settled));
    assert!(matches!(after_cycle(&quiet(), &mut follow_ups, true, 3), Next::Wait));
    let mut missing = quiet();
    missing.missing_staged_files = true;
    let mut cycles = 0;
    while let Next::Again = after_cycle(&missing, &mut follow_ups, false, 3) {
        cycles += 1;
        assert!(cycles < 10, "it stops");
    }
    let mut follow_ups = 0;
    let mut torn = quiet();
    torn.conflicts = texts(&["x"]);
    assert!(matches!(
        after_cycle(&torn, &mut follow_ups, false, 3),
        Next::Unsettled { conflicts: 1, blocked: 0 }
    ));
    assert!(wait_seconds(0) >= 1);
    assert!(missing_words(3).contains("3 cycles"));
    assert!(unsettled_words(1, 2).contains('1'));
}

#[test]
fn a_report_quotes_the_paths_it_names() {
    let mut report = quiet();
    report.alpha_transitions = 1;
    report.conflicts = texts(&["odd\"name"]);
    report.beta_scan_problems =
        vec![Problem { path: "locked".to_owned(), message: "denied".to_owned() }];
    let (results, complaints) = print_report(&report);
    let text = format!("{}\n{}", results.join("\n"), complaints.join("\n"));
    assert!(text.contains("odd\\\"name"), "{text}");
    assert!(text.contains("locked") && text.contains("denied"), "{text}");
}

#[test]
fn a_run_ends_as_its_sessions_did() {
    let ran = |conflicts, problems| SessionOutcome {
        display: "g -> h".to_owned(),
        outcome: Outcome::Ran { alpha_transitions: 1, beta_transitions: 2, conflicts, problems },
    };
    let failed = SessionOutcome {
        display: "g -> h".to_owned(),
        outcome: Outcome::Failed { error: "no route".to_owned() },
    };
    assert!(outcome_line(&failed).contains("no route"));
    assert!(matches!(run_end(&[ran(0, 0)]), RunEnd::Settled));
    assert!(matches!(run_end(&[ran(1, 0), ran(0, 1)]), RunEnd::Unsettled(2)));
    assert!(matches!(run_end(&[ran(1, 0), failed]), RunEnd::Failed(1)));
    assert_eq!(exit_code(false, false), 0);
    assert_ne!(exit_code(true, false), exit_code(false, true));
}

#[test]
fn a_launch_from_a_bundle_is_told_apart() {
    assert!(!bundled_launch(true, Some("/Applications/Autobahn.app/Contents/MacOS")));
    assert!(bundled_launch(false, Some("/Applications/Autobahn.app/Contents/MacOS")));
    assert!(!bundled_launch(false, Some("/usr/bin")));
    assert!(matches!(sync_form(false, false), SyncForm::Configured));
    assert!(matches!(sync_form(true, true), SyncForm::Roots));
    assert!(matches!(sync_form(true, false), SyncForm::OneRoot));
}

#[test]
fn a_machine_is_a_peer_or_configured_but_not_both() {
    assert!(matches!(watch_start(false, true, true), WatchStart::Both));
    assert!(matches!(watch_start(false, true, false), WatchStart::Peer));
    assert!(matches!(watch_start(true, true, true), WatchStart::Configured));
    assert!(matches!(watch_start(false, false, false), WatchStart::Configured));
    assert!(checks_config(true, true));
    assert!(shows_as_peer(false, true, false) && !shows_as_peer(true, true, false));
    assert!(live_display(false, true) && !live_display(true, true));
    assert!(matches!(after_supervision(None), AfterSupervision::Stop));
    let lease = PeerStanding::Lease {
        leader: "alpha".to_owned(),
        term: 4,
        standing: "stale".to_owned(),
        stale_seconds: 12,
        wait_seconds: 60,
    };
    assert_eq!(
        peer_header("p", &lease),
        "peer p: alpha leads at term 4; the lease is stale for 12s (this peer acts after 60s)\n"
    );
    assert_eq!(
        peer_header("p", &PeerStanding::NoLease),
        "peer p: no lease yet; waiting for the leader\n"
    );
}

#[test]
fn one_host_or_one_group_is_switched() {
    let (hosts, groups) = (texts(&["h"]), texts(&["g"]));
    assert!(matches!(
        availability(Some("h"), None, &hosts, &groups),
        Ok(Availability::Host(_))
    ));
    assert!(matches!(
        availability(None, None, &hosts, &groups),
        Err(AvailabilityError::NotOne)
    ));
    match availability(Some("x"), None, &hosts, &groups) {
        Err(AvailabilityError::UnknownHost { message }) => assert_eq!(
            message,
            "no group mentions the host \"x\". The configuration names: h"
        ),
        _ => panic!("no such host"),
    }
    match availability(None, Some("x"), &hosts, &groups) {
        Err(AvailabilityError::UnknownGroup { message }) => {
            assert_eq!(message, "no group named \"x\". The configuration names: g")
        }
        _ => panic!("no such group"),
    }
    let what = Availability::Group("g".to_owned());
    assert!(unchanged_line(&what, false, "/c").contains("group g"));
    assert!(!changed(&what, true, "/c", 3, 2, &[]).is_empty());
    assert_eq!(
        yielded_line("two", 3),
        "handing the lead to two; 3 session(s) will pass it on"
    );
    assert!(applied_line("paused", 2).contains('2'));
    assert!(may_write_config(false, false) && !may_write_config(true, false));
}

#[test]
fn a_difference_is_shown_only_where_there_is_one() {
    assert!(is_same_content(Some(b"a"), Some(b"a")));
    assert!(!is_same_content(Some(b"a"), None));
    assert!(identical_line("p", "h").contains('p'));
    assert_eq!(presence_line(true, true, "h"), None);
    assert_eq!(presence_line(false, true, "h").as_deref(), Some("(absent on alpha)"));
    assert_eq!(presence_line(true, false, "h").as_deref(), Some("(present on h)"));
}

#[test]
fn cleaning_keeps_what_disabled_groups_left_unless_told() {
    let plans = [plan("on", SyncMode::TwoWaySafe)];
    let disabled = [plan("off", SyncMode::TwoWaySafe)];
    let (locks, more) = (texts(&["on.lock"]), texts(&["off.lock"]));
    let made = |disabled_too: bool| {
        Cleaning::new(&plans, &locks, &disabled, &more, Vec::new(), disabled_too, true, Some(3))
    };
    let kept = made(false);
    assert_eq!(kept.live_sessions, ["id-on", "id-off"]);
    assert_eq!(kept.live_locks, ["on.lock", "off.lock"]);
    assert_eq!(kept.labels[0].text, "(g -> off, disabled)");
    assert!(matches!(kept.judge_status("id-off.json"), Fate::Leave));
    let cleared = made(true);
    assert_eq!(cleared.live_sessions, ["id-on"]);
    assert!(matches!(cleared.judge_lock("off.lock"), Fate::Remove(_)));
    assert!(cleared.dry_run && cleared.retired.is_empty());
    assert_eq!(cleared.staging_days, Some(3));
}

#[test]
fn only_a_missing_source_is_refused() {
    assert_eq!(refused_root("alpha", "/a", true), None);
    assert_eq!(refused_root("beta", "/b", false), None);
    assert_eq!(
        refused_root("alpha", "/a", false).as_deref(),
        Some("unable to resolve alpha root /a")
    );
}

#[test]
fn a_supervisor_logs_and_leads_as_it_is_told() {
    assert_eq!(log_level(true, Some("warn".to_owned())).as_deref(), Some("debug"));
    assert_eq!(log_level(false, Some("warn".to_owned())).as_deref(), Some("warn"));
    assert_eq!(log_level(false, None), None);
    assert!(leads_peers(&[false, true]));
    assert!(!leads_peers(&[false]));
    assert!(!leads_peers(&[]));
}

#[test]
fn a_resolution_is_confirmed_before_it_starts() {
    let plans = [plan("one", SyncMode::TwoWaySafe)];
    let targets = [Target { plan: plans[0].duplicate(), paths: texts(&["d/x"]) }];
    let (kept, overwritten) = stakes(Winner::Alpha, &plans, &targets);
    let lines = proposal(&targets, &kept, &overwritten, None, false);
    let asked = |yes: bool, terminal: bool| {
        confirmed(&targets, &kept, &overwritten, None, false, yes, terminal)
    };
    assert!(matches!(asked(true, false), Confirmation::Given));
    assert!(matches!(asked(true, true), Confirmation::Given));
    match asked(false, true) {
        Confirmation::Asked { proposal } => assert_eq!(proposal, lines),
        other => panic!("{other:?}"),
    }
    match asked(false, false) {
        Confirmation::Refused { proposal } => assert_eq!(proposal, lines),
        other => panic!("{other:?}"),
    }
}

#[test]
fn where_no_side_loses_there_is_nothing_to_retire() {
    assert_eq!(nothing_to_retire(0, 3), Some("settled 0 of 3 (nothing to retire)".to_owned()));
    assert_eq!(nothing_to_retire(1, 3), None);
}
