//! Leases, terms and pushed files.
use autobahn::peering::{
    alpha_term, ancestor_copy_path, answer, directory, is_pushable, lease_path, now_seconds,
    pushed_path, takes_record, write_pushed_file, AlphaStart, Fenced, Lease, LeaseAnswer, Role, DIRECTORY,
};

#[test]
fn a_lease_admits_a_higher_term_or_the_same_leader() {
    let held = Lease::new("alpha", 7, 30);
    assert!(held.admits(&Lease::new("alpha", 7, 30)));
    assert!(held.admits(&Lease::new("u@h:/x", 8, 30)));
    assert!(!held.admits(&Lease::new("u@h:/x", 7, 30)));
    assert!(!held.admits(&Lease::new("alpha", 6, 30)));
}

#[test]
fn staleness_is_judged_against_the_ttl() {
    let lease = Lease { leader: "alpha".into(), term: 1, renewed_at: 1_000, ttl_seconds: 30 };
    assert!(!lease.is_stale_at(1_030));
    assert!(lease.is_stale_at(1_031));
    assert_eq!(lease.stale_for_at(1_000), 0);
    assert_eq!(lease.stale_for_at(1_100), 70);
}

#[test]
fn only_the_files_a_follower_needs_can_be_pushed() {
    assert!(is_pushable("config.toml"));
    assert!(is_pushable("name"));
    assert!(is_pushable("ignores/node"));
    assert!(!is_pushable("ignores/"));
    assert!(!is_pushable("ignores/../x"));
    assert!(!is_pushable("ignores/a/b"));
    assert!(!is_pushable("lease.json"));
    assert!(!is_pushable("../config.toml"));
    assert!(!is_pushable("/etc/passwd"));
}

#[test]
fn a_pushed_file_lands_inside_the_directory() {
    let file = write_pushed_file("/home/u/.autobahn/peering", "ignores/node", 42).expect("pushed");
    assert_eq!(file.path, "/home/u/.autobahn/peering/ignores/node");
    assert_eq!(file.parent, "/home/u/.autobahn/peering/ignores");
    assert_eq!(file.temporary, "/home/u/.autobahn/peering/ignores/.node.42.tmp");
    assert_eq!(pushed_path("/home/u/.autobahn/peering", "ignores/node"), file.path);
    for other in ["name", "config.toml", "ignores/nod"] {
        assert_ne!(pushed_path("/home/u/.autobahn/peering", other), file.path);
    }
    assert_eq!(lease_path("/p"), "/p/lease.json");
    let refused = write_pushed_file("/p", "../escape", 1).expect_err("refused");
    assert_eq!(refused.message(), "\"../escape\" is not a file peering pushes");
    assert_eq!(
        directory(None, Some("/home/u")).unwrap(),
        format!("/home/u/.autobahn/{DIRECTORY}")
    );
    assert_eq!(directory(Some("/srv"), Some("/home/u")).unwrap(), format!("/srv/{DIRECTORY}"));
    assert_eq!(ancestor_copy_path("/p", "s1"), "/p/ancestors/s1/ancestor");
}

#[test]
fn a_replaced_leader_is_fenced() {
    let held = Lease::new_at("alpha", 7, 30, 100);
    let newer = Lease::new_at("u@h:/x", 8, 30, 200);
    assert!(matches!(answer(None, &held), LeaseAnswer::Accepted));
    assert!(matches!(answer(Some(&held), &newer), LeaseAnswer::Accepted));
    match answer(Some(&newer), &held) {
        LeaseAnswer::Refused { current } => {
            let fenced = Fenced { current };
            assert_eq!(
                fenced.message(),
                "fenced: u@h:/x at term 8 holds the lease on the beta; this supervisor stepped down"
            );
        }
        LeaseAnswer::Accepted => panic!("the older lease is refused"),
    }
}

#[test]
fn the_configured_supervisor_leads_unless_another_does() {
    assert!(matches!(alpha_term(None), AlphaStart::Lead { term: 1 }));
    let own = Lease::new_at("alpha", 4, 30, 0);
    assert!(matches!(alpha_term(Some(&own)), AlphaStart::Lead { term: 4 }));
    let other = Lease::new_at("u@h:/x", 6, 30, 0);
    match alpha_term(Some(&other)) {
        AlphaStart::Follow { lease } => assert_eq!(lease.term, 6),
        AlphaStart::Lead { .. } => panic!("another leads"),
    }
    let role = Role::Follower { leader: "u@h:/x".into(), term: 6 };
    assert_eq!(role.label(), "follower");
    assert_eq!(role.term(), 6);
    assert_eq!(Role::Off.term(), 0);
}

#[test]
fn a_record_follows_the_generation_it_was_made_for() {
    assert!(takes_record(0, 1));
    assert!(!takes_record(1, 5));
    assert!(!takes_record(1, 1));
}

#[test]
fn a_lease_made_now_is_fresh() {
    let lease = Lease::new("alpha", 1, 30);
    assert!(lease.renewed_at > 1_000_000_000);
    assert!(!lease.is_stale_at(now_seconds()));
    assert_eq!(lease.duplicate().term, 1);
}
