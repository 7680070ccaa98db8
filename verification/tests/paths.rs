//! Homes, default places and identities of missing paths.
use autobahn::paths::{
    ancestors, default_config_path, default_state_root, expand_tilde, expand_tilde_in,
    home_override, is_absolute, join_path, missing_identity, HomeError,
};

#[test]
fn tilde_expansion() {
    let home = "/home/user";
    assert_eq!(expand_tilde("~", Some(home)).unwrap(), home);
    assert_eq!(expand_tilde("~/projects/x", Some(home)).unwrap(), "/home/user/projects/x");
    assert_eq!(expand_tilde("/absolute", Some(home)).unwrap(), "/absolute");
    assert_eq!(expand_tilde("relative/x", None).unwrap(), "relative/x");
    // ~user forms are not expanded.
    assert_eq!(expand_tilde("~other/x", Some(home)).unwrap(), "~other/x");
    assert!(matches!(expand_tilde("~", None), Err(HomeError::Unset)));
}

#[test]
fn a_non_absolute_home_is_an_error_not_a_relative_root() {
    assert!(expand_tilde_in("~/x", "relative-home").is_err());
    assert!(expand_tilde_in("~", "").is_err());
    assert_eq!(expand_tilde_in("~/x", "/home/user").unwrap(), "/home/user/x");
    let error = expand_tilde_in("~/x", "relative-home").unwrap_err();
    assert_eq!(
        error.message(true),
        "unable to expand ~: HOME (\"relative-home\") is not an absolute path"
    );
}

#[test]
fn relative_xdg_config_home_is_ignored_per_the_specification() {
    // An absolute XDG_CONFIG_HOME wins and needs no HOME at all.
    assert_eq!(
        default_config_path(Some("/etc/xdg"), None).unwrap(),
        "/etc/xdg/autobahn/config.toml"
    );
    for invalid in [Some("relative/config"), Some(""), None] {
        assert_eq!(
            default_config_path(invalid, Some("/home/user")).unwrap(),
            "/home/user/.config/autobahn/config.toml"
        );
    }
    // Without a usable XDG_CONFIG_HOME, HOME must exist and be absolute.
    assert!(default_config_path(None, None).is_err());
    assert!(default_config_path(None, Some("relative-home")).is_err());
}

#[test]
fn identity_resolution_sees_through_ancestors_of_missing_paths() {
    // A missing leaf under a symlinked ancestor has the identity of the
    // direct spelling.
    let through = missing_identity("/keep/alias/new/deeper", Some((1, "/keep/real")));
    let direct = missing_identity("/keep/real/new/deeper", Some((1, "/keep/real")));
    assert_eq!(through, "/keep/real/new/deeper");
    assert_eq!(through, direct);
    // Dot components are normalized even when nothing exists.
    assert_eq!(missing_identity("/nonexistent/./x", None), "/nonexistent/x");
}

#[test]
fn the_state_is_kept_below_the_home() {
    assert_eq!(default_state_root(None, Some("/home/user")).unwrap(), "/home/user/.autobahn");
    assert_eq!(default_state_root(Some("/srv/a"), Some("/home/user")).unwrap(), "/srv/a");
    assert_eq!(default_state_root(Some("/srv/a"), None).unwrap(), "/srv/a");
    match default_state_root(Some("srv"), Some("/home/user")) {
        Err(error) => {
            assert_eq!(error.message(false), "AUTOBAHN_HOME (\"srv\") is not an absolute path")
        }
        Ok(_) => panic!("a relative directory is refused"),
    }
    assert!(default_state_root(None, None).is_err());
    assert!(is_absolute("/a") && !is_absolute("a"));
    assert_eq!(join_path("/a", "b"), "/a/b");
    assert_eq!(join_path("/a", "/b"), "/b");
    assert!(!ancestors("/a/b/c").is_empty());
}

#[test]
fn the_state_root_is_moved_only_to_an_absolute_place() {
    assert_eq!(home_override(None).unwrap(), None);
    assert_eq!(home_override(Some("/srv/a")).unwrap().as_deref(), Some("/srv/a"));
    assert_eq!(default_state_root(Some("/srv/a"), None).unwrap(), "/srv/a");
    for relative in ["state", ""] {
        let error = home_override(Some(relative)).expect_err("not absolute");
        assert_eq!(
            error.message(false),
            format!("AUTOBAHN_HOME ({relative:?}) is not an absolute path")
        );
        assert!(default_state_root(Some(relative), Some("/home/u")).is_err());
    }
}
