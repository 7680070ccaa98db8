//! The version, and what an initialization may hold.
use autobahn::protocol::{is_session_identifier, version, Initialize, COMPATIBILITY_EPOCH};
use autobahn::scan::SymlinkMode;

#[test]
fn the_version_holds_nothing_a_shell_would_interpret() {
    let version = version();
    assert!(!version.is_empty());
    assert!(
        version.bytes().all(|byte| byte.is_ascii_alphanumeric() || b"._+-".contains(&byte)),
        "the version {version:?} holds characters outside [0-9A-Za-z._+-]"
    );
    assert!(version.ends_with(&format!("+e{COMPATIBILITY_EPOCH}")), "{version}");
}

/// An initialization that differs from a genuine one only where a test says.
fn initialize(session: &str, side: &str) -> Initialize {
    Initialize {
        root: "/unused".into(),
        session: session.into(),
        ignores: Vec::new(),
        symlink_mode: SymlinkMode::Raw,
        file_mode: None,
        directory_mode: None,
        side: side.into(),
        max_file_size: None,
        max_entry_count: None,
        ignore_mounts: true,
        default_owner: None,
        default_group: None,
        one_shot: false,
    }
}

/// An identifier of the form sessions have: half a digest, in hex.
fn genuine() -> String {
    blake3::hash(b"a\0b").to_hex()[..32].to_owned()
}

#[test]
fn a_genuine_identifier_is_accepted() {
    let session = genuine();
    assert!(is_session_identifier(&session));
    initialize(&session, "beta").validate().expect("a genuine session and side are accepted");
    initialize(&session, "alpha").validate().expect("a genuine session and side are accepted");
}

#[test]
fn a_session_that_is_not_32_hex_characters_is_refused() {
    let hex = "0123456789abcdef0123456789abcdef";
    for session in [
        "..",
        "../../..",
        "a/b",
        "/tmp/x",
        "",
        &hex[..31],
        &format!("{hex}0"),
        &format!("{}/", &hex[..31]),
    ] {
        assert!(!is_session_identifier(session), "{session:?}");
        let error =
            initialize(session, "beta").validate().expect_err("the session must be refused");
        assert!(
            error.message().contains("refusing session identifier"),
            "{session:?}: {error:?}"
        );
    }
}

#[test]
fn an_uppercase_session_is_refused() {
    let session = genuine().to_uppercase();
    assert!(!is_session_identifier(&session));
    assert!(initialize(&session, "beta").validate().is_err());
}

#[test]
fn an_unknown_side_is_refused() {
    let session = genuine();
    for side in ["gamma", "../alpha", "", "Beta"] {
        let error = initialize(&session, side).validate().expect_err("the side must be refused");
        assert!(error.message().contains("refusing side"), "{side:?}: {error:?}");
    }
    let error = initialize(&session, "gam\"ma").validate().expect_err("refused");
    assert_eq!(error.message(), "refusing side \"gam\\\"ma\"");
}
