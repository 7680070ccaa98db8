//! Units, property lists and the steps of a service.
use autobahn::service::prepare::{prepare_install, prepare_rewrite, PrepareError};
use autobahn::service::launchd::{parse_plist, render_plist, xml_escape, xml_unescape};
use autobahn::service::systemd::{parse_unit, render_unit, systemd_quote, systemd_words};
use autobahn::service::{
    install, installed_config, log_path, previous_log_path, registration_for, restart, retargeted, rotates, start,
    state, stop, uninstall, Answer, Manager, Registration, ServiceError, ServiceState, Step,
    Target,
};

/// Every character that a careless unit breaks on: a space splits an
/// argument, a quote ends one, `%` is a specifier and `$` a variable.
const AWKWARD: &str = "my \"odd\" 100% $HOME";

fn awkward(root: &str) -> Registration {
    Registration {
        executable: format!("{root}/bin dir 100% $x/autobahn"),
        arguments: vec![
            "watch".to_owned(),
            "--config".to_owned(),
            format!("{root}/{AWKWARD}/config.toml"),
            "--state-root".to_owned(),
            format!("{root}/state \\ root"),
        ],
        home: Some(format!("{root}/{AWKWARD}")),
    }
}

fn assert_same(read: Option<Registration>, written: &Registration, content: &str) {
    let read = read.unwrap_or_else(|| panic!("{content}"));
    assert_eq!(read.executable, written.executable, "{content}");
    assert_eq!(read.arguments, written.arguments, "{content}");
    assert_eq!(read.home, written.home, "{content}");
}

#[test]
fn a_unit_reads_back_as_the_registration_it_was_written_from() {
    let registration = awkward("/tmp/a");
    let unit = render_unit(&registration, "/tmp/a/lo g%s/service.log");
    assert_same(parse_unit(&unit), &registration, &unit);
    // Doubled characters stay doubled, in the environment as anywhere.
    let registration = awkward("/tmp/a%%b$$c");
    let unit = render_unit(&registration, "/tmp/service.log");
    assert_same(parse_unit(&unit), &registration, &unit);
    // An environment line of another shape does not hide the rest.
    let unit = unit.replace("[Service]\n", "[Service]\nEnvironment=\n");
    assert_same(parse_unit(&unit), &registration, &unit);
}

#[test]
fn a_legacy_relative_config_is_not_guessed_at() {
    let registration = Registration {
        executable: "/usr/bin/autobahn".into(),
        arguments: vec![
            "watch".into(),
            "--config".into(),
            "work.toml".into(),
            "--state-root".into(),
            "state".into(),
        ],
        home: None,
    };
    assert_eq!(registration.config(), None);
    assert_eq!(registration.state_root(), None);
}

#[test]
fn systemd_quoting_escapes_what_systemd_would_expand() {
    assert_eq!(systemd_quote("a b", false), "\"a b\"");
    assert_eq!(systemd_quote("100%", false), "\"100%%\"");
    assert_eq!(systemd_quote("$HOME", false), "\"$$HOME\"");
    assert_eq!(systemd_quote("$HOME", true), "\"$HOME\"");
    assert_eq!(systemd_quote("say \"hi\"", false), "\"say \\\"hi\\\"\"");
    assert_eq!(systemd_quote("a\\b", false), "\"a\\\\b\"");
    // What earlier versions wrote still reads.
    assert_eq!(
        systemd_words("/usr/bin/autobahn watch --config /etc/a.toml"),
        vec!["/usr/bin/autobahn", "watch", "--config", "/etc/a.toml"]
    );
}

#[test]
fn a_relative_config_is_stored_absolute() {
    let registration = registration_for(
        "/usr/bin/autobahn",
        Some("/here/configs/work.toml"),
        Some("/here/state"),
        None,
    );
    assert_eq!(registration.config().as_deref(), Some("/here/configs/work.toml"));
    assert_eq!(registration.state_root().as_deref(), Some("/here/state"));
    assert_eq!(
        installed_config(Some(&registration)).as_deref(),
        Some("/here/configs/work.toml")
    );
    assert_eq!(installed_config(None), None);
    let moved = retargeted(&registration, "/opt/autobahn");
    assert_eq!(moved.executable, "/opt/autobahn");
    assert_eq!(moved.arguments, registration.arguments);
}

#[test]
fn a_newline_in_a_path_is_refused() {
    let log = "/tmp/service.log";
    let mut registration = awkward("/tmp");
    registration.check(log, true).expect("awkward but carriable");
    registration.arguments[2] = "/tmp/a\nExecStartPre=/bin/evil".to_owned();
    let error = registration.check(log, true).expect_err("a newline is refused");
    assert!(error.message().contains("newline"), "{error:?}");
    assert!(error.message().contains("(/tmp/a\\nExecStartPre=/bin/evil)"), "{error:?}");

    let mut registration = awkward("/tmp");
    registration.home = Some("/tmp/home\n[Service]".to_owned());
    registration.check(log, true).expect_err("in AUTOBAHN_HOME too");

    let mut registration = awkward("/tmp");
    registration.executable = "/tmp/o'dd/autobahn".to_owned();
    registration.check(log, true).expect_err("systemd does not run it");
    registration.check(log, false).expect("launchd does");
}

#[test]
fn a_plist_for_awkward_paths_is_well_formed_and_reads_back() {
    let mut registration = awkward("/tmp/a");
    registration.arguments[2] = "/tmp/a <&> b/config.toml".to_owned();
    let plist = render_plist(&registration, "/tmp/a & b/service.log");
    assert_same(parse_plist(&plist), &registration, &plist);
    assert!(plist.contains("<string>/tmp/a &lt;&amp;&gt; b/config.toml</string>"), "{plist}");
    assert_eq!(xml_unescape(&xml_escape("a<&>\"b")), "a<&>\"b");
}

#[test]
fn the_log_is_rotated_once_it_is_large() {
    assert_eq!(log_path("/home/u/.autobahn"), "/home/u/.autobahn/service.log");
    assert_ne!(previous_log_path("/home/u/.autobahn"), log_path("/home/u/.autobahn"));
    assert!(!rotates(None));
    assert!(!rotates(Some(16 * 1024 * 1024 - 1)));
    assert!(rotates(Some(16 * 1024 * 1024)));
}

#[test]
fn each_manager_is_driven_by_its_own_steps() {
    let target = Target { domain: "gui/501".into(), file: "/u/io.autobahn.supervisor.service".into() };
    assert!(matches!(
        install(Manager::Unsupported, &target),
        Err(ServiceError::Unsupported)
    ));
    let steps = install(Manager::Systemd, &target).expect("steps");
    assert!(matches!(steps[0], Step::Write));
    let steps = uninstall(Manager::Systemd, &target).expect("steps");
    assert!(steps.iter().any(|step| matches!(step, Step::Remove)));
    let missing = start(ServiceState::NotInstalled, Manager::Systemd, &target, false);
    match missing {
        Err(error) => assert!(error.message(true).contains("autobahn install")),
        Ok(_) => panic!("nothing is installed"),
    }
    match stop(ServiceState::NotInstalled, Manager::Launchd, &target) {
        Err(error) => assert_eq!(error.message(false), "no service is installed"),
        Ok(_) => panic!("nothing is installed"),
    }
    assert!(restart(ServiceState::Running, Manager::Launchd, &target, true).is_ok());
}

#[test]
fn a_service_s_state_is_what_its_manager_says() {
    assert_eq!(state(false, &Answer::Systemd(true)), ServiceState::NotInstalled);
    assert_eq!(state(true, &Answer::Systemd(true)), ServiceState::Running);
    assert_eq!(state(true, &Answer::Systemd(false)), ServiceState::Stopped);
    assert_eq!(state(true, &Answer::Launchd(None)), ServiceState::Stopped);
    let report = "io = {\n\tstate = running\n}\n".to_owned();
    assert_eq!(state(true, &Answer::Launchd(Some(report))), ServiceState::Running);
}

#[test]
fn a_service_is_checked_before_it_is_written_down() {
    let target = Target { domain: "gui/501".into(), file: "/u/a.service".into() };
    let log = "/tmp/service.log";
    let registration = awkward("/tmp/a");
    let unit = prepare_install(&registration, log, Manager::Systemd, &target).expect("a unit");
    assert_eq!(unit.text, render_unit(&registration, log));
    assert!(unit.steps.iter().any(|step| matches!(step, Step::Write)));
    let plist = prepare_rewrite(&registration, log, Manager::Launchd, &target, true)
        .expect("a property list");
    assert_eq!(plist.text, render_plist(&registration, log));
    assert!(plist.steps.iter().any(|step| matches!(step, Step::Write)));

    let mut broken = awkward("/tmp/a");
    broken.arguments[2] = "/tmp/a\nb".to_owned();
    let refused = prepare_install(&broken, log, Manager::Unsupported, &target)
        .expect_err("a newline is refused first");
    assert!(matches!(refused, PrepareError::Registration { .. }));
    assert!(refused.message().contains("newline"), "{refused:?}");
    let refused = prepare_rewrite(&registration, log, Manager::Unsupported, &target, false)
        .expect_err("there is no manager");
    assert!(matches!(refused, PrepareError::Service { .. }));
    let mut quoted = awkward("/tmp/a");
    quoted.executable = "/tmp/o'dd/autobahn".to_owned();
    assert!(prepare_install(&quoted, log, Manager::Systemd, &target).is_err());
    assert!(prepare_install(&quoted, log, Manager::Launchd, &target).is_ok());
}
