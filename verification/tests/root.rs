//! Running as root.
use autobahn::protocol::Initialize;
use autobahn::root::{allows, check_agent, check_controller, config_allows_root, Identity};
use autobahn::scan::SymlinkMode;

const ROOT: Identity = Identity { euid: 0, home_owner: Some(0) };
const SUDO: Identity = Identity { euid: 0, home_owner: Some(501) };
const USER: Identity = Identity { euid: 501, home_owner: Some(501) };

fn initialize() -> Initialize {
    Initialize {
        root: "/srv".into(),
        session: "0123456789abcdef0123456789abcdef".into(),
        ignores: Vec::new(),
        symlink_mode: SymlinkMode::Raw,
        file_mode: None,
        directory_mode: None,
        side: "beta".into(),
        max_file_size: None,
        max_entry_count: None,
        ignore_mounts: true,
        default_owner: None,
        default_group: None,
        one_shot: false,
    }
}

#[test]
fn the_controller_refuses_root_without_the_override() {
    let error = check_controller(ROOT, false).expect_err("refused");
    assert!(error.message().contains("--allow-root"), "{error:?}");
    check_controller(ROOT, true).expect("allowed when asked");
    check_controller(USER, false).expect("an ordinary user is not asked");
}

#[test]
fn root_with_another_user_s_home_is_refused_even_with_the_override() {
    let error = check_controller(SUDO, true).expect_err("refused");
    assert!(error.message().contains("sudo"), "{error:?}");
    assert!(error.message().contains("uid 501"), "{error:?}");
    check_agent(SUDO, &initialize()).expect_err("the agent too");
}

#[test]
fn the_agent_runs_as_root_only_for_a_session_that_sets_an_owner() {
    let plain = initialize();
    let error = check_agent(ROOT, &plain).expect_err("refused");
    assert!(error.message().contains("default_owner"), "{error:?}");
    check_agent(USER, &plain).expect("an ordinary user is not asked");

    let mut owned = initialize();
    owned.default_owner = Some("www-data".into());
    check_agent(ROOT, &owned).expect("accepted with an owner");
    let mut grouped = initialize();
    grouped.default_group = Some("id:33".into());
    check_agent(ROOT, &grouped).expect("accepted with a group");
}

#[test]
fn the_override_is_read_from_the_configuration() {
    assert!(!config_allows_root(None), "no file");
    assert!(config_allows_root(Some("[advanced]\nallow_root = true\n")));
    assert!(!config_allows_root(Some("[advanced]\nallow_root = false\n")));
    assert!(!config_allows_root(Some("not toml [")));
    assert!(!config_allows_root(Some("[advanced]\nallow_root = 1\n")));
    assert!(!config_allows_root(Some("allow_root = true\n")));
    assert!(allows(Some(true)) && !allows(None));
}

#[test]
fn as_root_the_agent_without_an_owner_is_refused() {
    check_agent(ROOT, &initialize()).expect_err("refused as root");
    let mut owned = initialize();
    owned.default_owner = Some("root".into());
    check_agent(ROOT, &owned).expect("accepted with an owner");
}
