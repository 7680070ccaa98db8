//! The course of a resolution.
use autobahn::command::resolution::{
    begin, judge_session, kept_line, not_kept, work_of, Judged, ResolveRefusal, Resolution,
};
use autobahn::command::resolve::{Cycle, Loser, Winner};
use autobahn::command::select::Selection;
use autobahn::command::settle::note_paths;
use autobahn::digest::digest_of;
use autobahn::plan::{SessionPlan, SyncMode};
use autobahn::tree::{Content, FileMetadata, Node};

fn texts(list: &[&str]) -> Vec<String> {
    list.iter().map(|text| (*text).to_owned()).collect()
}

fn plan(group: &str, host: &str, mode: SyncMode) -> SessionPlan {
    SessionPlan {
        group: group.to_owned(),
        host: host.to_owned(),
        alpha_spec: "/tmp/a".to_owned(),
        beta_spec: format!("{host}:/tmp/b"),
        alpha_identity: "/tmp/a".to_owned(),
        beta_identity: format!("{host}:/tmp/b"),
        identifier: format!("id-{host}"),
        display: format!("{group} -> {host}"),
        mode,
    }
}

fn selection(plans: &[SessionPlan]) -> Selection {
    Selection {
        plans: plans.iter().map(|plan| plan.duplicate()).collect(),
        relatives: plans.iter().map(|_| None).collect(),
        relative: None,
    }
}

fn file(name: &str, contents: &str) -> Node {
    Node {
        name: name.to_owned(),
        content: Content::File {
            digest: digest_of(contents.as_bytes()),
            executable: false,
            metadata: FileMetadata {
                mtime_seconds: 0,
                mtime_nanos: 0,
                size: contents.len() as u64,
                inode: 1,
                mode: 0o100644,
            },
        },
    }
}

fn tree(children: Vec<Node>) -> Node {
    Node { name: String::new(), content: Content::Directory(children) }
}

fn refusal(outcome: Result<Option<Resolution>, ResolveRefusal>, keep: &str) -> String {
    match outcome {
        Err(refusal) => refusal.message(keep, "g", &texts(&["one", "two"])),
        Ok(_) => panic!("it is refused"),
    }
}

#[test]
fn a_resolution_says_what_is_at_stake() {
    let plans = [plan("g", "one", SyncMode::TwoWaySafe), plan("g", "two", SyncMode::TwoWaySafe)];
    let records = [Some(texts(&["d/x", "e"])), Some(texts(&["d/x"]))];
    match begin(&plans, &selection(&plans), &records, &texts(&["./d/"]), "two", false) {
        Ok(Some(resolution)) => {
            assert_eq!(resolution.winner, Winner::Beta(1));
            assert_eq!(resolution.group_plans.len(), 2);
            assert_eq!(resolution.targets.len(), 2);
            assert_eq!(resolution.targets[0].paths, ["d/x"]);
            assert_eq!(resolution.scope.as_deref(), Some("d"));
            assert_eq!(resolution.kept, "two:/tmp/b  (two)");
            assert_eq!(resolution.overwritten, ["/tmp/a  (alpha)", "one:/tmp/b"]);
        }
        _ => panic!("there is something to resolve"),
    }
}

#[test]
fn nothing_recorded_is_nothing_to_resolve() {
    let plans = [plan("g", "one", SyncMode::TwoWaySafe)];
    assert!(matches!(begin(&plans, &selection(&plans), &[None], &[], "both", true), Ok(None)));
}

#[test]
fn a_resolution_is_refused_before_anything_is_read() {
    let plans = [plan("g", "one", SyncMode::TwoWaySafe), plan("h", "two", SyncMode::TwoWaySafe)];
    let both = selection(&plans);
    assert_eq!(
        refusal(begin(&plans, &both, &[None, None], &[], "alpha", true), "alpha"),
        "resolve works within one group; the selector matched several"
    );
    let one = selection(&plans[..1]);
    let records = [Some(texts(&["x"]))];
    // Another group's destination is no destination of this one.
    assert!(matches!(
        begin(&plans, &one, &records, &[], "two", true),
        Err(ResolveRefusal::Keep { .. })
    ));
    assert_eq!(
        refusal(begin(&plans, &one, &records, &[], "both", true), "both"),
        "--all cannot keep both: choose whose version wins"
    );
    assert!(matches!(
        begin(&plans, &one, &records, &[], "alpha", false),
        Err(ResolveRefusal::Path { .. })
    ));
    for root in ["", "."] {
        let words = refusal(begin(&plans, &one, &records, &texts(&[root]), "alpha", false), "alpha");
        assert_eq!(
            words,
            "resolve settles a path inside the root, not the root itself; name the file or folder \
             to settle"
        );
    }
    let replica = [plan("g", "one", SyncMode::OneWayReplica)];
    let one = selection(&replica);
    let words = refusal(begin(&replica, &one, &records, &texts(&["x"]), "both", false), "both");
    assert_eq!(
        words,
        "--keep both cannot work in one-way-alpha: one is made identical to alpha, so the copy \
         moved aside there would be deleted. Nothing was changed"
    );
    let words = refusal(begin(&replica, &one, &records, &texts(&["x"]), "one", false), "one");
    assert_eq!(
        words,
        "--keep one cannot work in one-way-alpha: that mode never carries one's content to alpha, \
         so removing alpha's copy would not make it win. Nothing was changed"
    );
}

#[test]
fn a_path_the_cycle_would_lose_is_left_alone() {
    let winning = tree(vec![file("x", "kept"), file("y", "kept")]);
    let losing = tree(vec![file("x", "other"), file("y", "other")]);
    let session = plan("g", "one", SyncMode::TwoWaySafe);
    let loser = Loser::new(
        0,
        false,
        "one".to_owned(),
        Some(losing.duplicate()),
        texts(&["x", "y"]),
        Some(&winning),
        false,
    );
    let judged = Judged {
        winner: Winner::Alpha,
        winner_name: "alpha",
        index: 0,
        plan: &session,
        loser: Some(&loser),
    };
    // The winner's `x` is what the last sync recorded, so the gap deletes it.
    let ancestor = tree(vec![file("x", "kept")]);
    let after = tree(vec![file("y", "kept")]);
    let cycle = Cycle {
        ancestor: Some(&ancestor),
        winning: Some(&winning),
        alpha: Some(&after),
        beta: Some(&after),
    };
    let decided = texts(&["x", "y"]);
    let mut notes = Vec::new();
    judge_session(&judged, &Ok(cycle), &decided, &mut notes);
    assert_eq!(notes.len(), 1);
    assert_eq!(notes[0].path, "x");
    assert!(notes[0].text.starts_with("keeping alpha here would delete it: alpha has not changed"));
    let refused = note_paths(&notes);
    let (renames, retirements) = work_of(&loser, &refused);
    assert!(renames.is_empty());
    assert_eq!(retirements.len(), 1);
    assert_eq!(retirements[0].path, "y");

    // The first reason stands, and a cycle that cannot be worked out settles
    // nothing.
    judge_session(&judged, &Err("no parent"), &decided, &mut notes);
    assert_eq!(note_paths(&notes), ["x", "y"]);
    assert!(notes[0].text.starts_with("keeping alpha"));
    assert_eq!(
        notes[1].text,
        "whether keeping alpha here would delete it cannot be worked out (no parent)"
    );
}

#[test]
fn a_version_moved_aside_is_renamed() {
    let winning = tree(vec![file("x", "kept")]);
    let losing = tree(vec![file("x", "other")]);
    let loser = Loser::new(
        0,
        false,
        "one".to_owned(),
        Some(losing),
        texts(&["x"]),
        Some(&winning),
        true,
    );
    let (renames, retirements) = work_of(&loser, &[]);
    assert!(retirements.is_empty());
    assert_eq!(renames.len(), 1);
    assert_eq!(renames[0].from, "x");
    assert_eq!(kept_line("one", &renames[0]), format!("  one: kept x as {}", renames[0].to));
    assert_eq!(not_kept("one", "x"), "unable to keep one's x");
    // Lost on beta after the cycle, the moved version is not safe either.
    let session = plan("g", "one", SyncMode::OneWaySafe);
    let judged = Judged {
        winner: Winner::Both,
        winner_name: "alpha",
        index: 0,
        plan: &session,
        loser: Some(&loser),
    };
    let cycle = Cycle {
        ancestor: None,
        winning: Some(&winning),
        alpha: Some(&winning),
        beta: Some(&winning),
    };
    let mut notes = Vec::new();
    judge_session(&judged, &Ok(cycle), &texts(&["x"]), &mut notes);
    assert_eq!(
        notes[0].text,
        format!(
            "one's copy, moved aside to {}, would not survive in one-way-conflict",
            renames[0].to
        )
    );
}
