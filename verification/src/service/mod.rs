//! The login service that keeps a supervisor running: what it is registered
//! to run, the file each service manager reads, and the commands that drive
//! them.
use crate::command::resolve::push_line;
use crate::command::select::text_option;
use crate::paths::{is_absolute, join_path, path_below, HOME_VARIABLE};
use crate::text::{
    any_control, any_of, chars_of, copy_optional, copy_strings, has_any, has_control, has_prefix,
    line_texts, lines, optional, same_text, starts_with, strings, texts, trim_end, trim_start,
    trimmed,
};
use vstd::prelude::*;

pub mod launchd;
pub mod prepare;
pub mod systemd;

verus! {

/// The service's name under the service manager.
pub const LABEL: &'static str = "io.autobahn.supervisor";

/// Whether the service is there, and running.
#[derive(Clone, Copy, Debug, PartialEq, Eq, Structural)]
pub enum ServiceState {
    /// No service is installed.
    NotInstalled,
    /// One is, and does not run.
    Stopped,
    /// One is, and runs.
    Running,
}

// ---------------------------------------------------------------------------
// The log
// ---------------------------------------------------------------------------

/// The size at which the service log is rotated.
pub const MAXIMUM_LOG_SIZE: u64 = 16777216;

/// Where the service's log goes, below the state root.
pub fn log_path(state_root: &str) -> (r: String)
    ensures
        r@ == path_below(state_root@, "service.log"@),
{
    join_path(state_root, "service.log")
}

/// The previous generation of the service log.
pub fn previous_log_path(state_root: &str) -> (r: String)
    ensures
        r@ == path_below(state_root@, "service.log.1"@),
{
    join_path(state_root, "service.log.1")
}

/// Whether a log has reached its largest size.
pub open spec fn too_large(size: Option<u64>) -> bool {
    size matches Some(size) && size >= MAXIMUM_LOG_SIZE
}

/// Whether a log is rotated, given its size where there is one.
pub fn rotates(size: Option<u64>) -> (r: bool)
    ensures
        r == too_large(size),
{
    match size {
        Some(size) => size >= MAXIMUM_LOG_SIZE,
        None => false,
    }
}

// ---------------------------------------------------------------------------
// The registration
// ---------------------------------------------------------------------------

/// What a login service is registered to run.
#[derive(Debug)]
pub struct Registration {
    /// The executable.
    pub executable: String,
    /// Its arguments.
    pub arguments: Vec<String>,
    /// The state root written into its environment, if any.
    pub home: Option<String>,
}

/// What a login service is registered to run.
#[verifier::ext_equal]
pub struct RegistrationView {
    /// The executable.
    pub executable: Seq<char>,
    /// Its arguments.
    pub arguments: Seq<Seq<char>>,
    /// The state root written into its environment, if any.
    pub home: Option<Seq<char>>,
}

/// Where a text first stands among those from `from` on, or the length.
pub open spec fn first_text(list: Seq<Seq<char>>, text: Seq<char>, from: int) -> int
    decreases list.len() - from,
{
    if from < 0 || from >= list.len() {
        list.len() as int
    } else if list[from] == text {
        from
    } else {
        first_text(list, text, from + 1)
    }
}

/// What follows a flag among arguments.
pub open spec fn option_value(arguments: Seq<Seq<char>>, flag: Seq<char>) -> Option<Seq<char>> {
    let at = first_text(arguments, flag, 0);
    if at + 1 < arguments.len() {
        Some(arguments[at + 1])
    } else {
        None
    }
}

/// A path, where it is absolute.
pub open spec fn if_absolute(path: Option<Seq<char>>) -> Option<Seq<char>> {
    match path {
        Some(path) => if has_prefix(path, "/"@) {
            Some(path)
        } else {
            None
        },
        None => None,
    }
}

/// Why a registration cannot be written down.
#[derive(Debug)]
pub enum RegistrationError {
    /// A text holds a control character, which no service definition carries.
    Control {
        /// What the text is.
        what: String,
        /// The text.
        text: String,
    },
    /// The executable's path holds what its service manager refuses.
    Executable {
        /// The path.
        executable: String,
    },
}

/// The texts of a registration, with what each is.
pub open spec fn registration_texts(registration: RegistrationView, log: Seq<char>) -> Seq<
    (Seq<char>, Seq<char>),
> {
    let first = seq![("the executable"@, registration.executable), ("the log"@, log)] + Seq::new(
        registration.arguments.len(),
        |i: int| ("an argument"@, registration.arguments[i]),
    );
    match registration.home {
        Some(home) => first.push((HOME_VARIABLE@, home)),
        None => first,
    }
}

/// The first of some texts from `from` on that holds a control character.
pub open spec fn first_control(list: Seq<(Seq<char>, Seq<char>)>, from: int) -> Option<int>
    decreases list.len() - from,
{
    if from < 0 || from >= list.len() {
        None
    } else if has_control(list[from].1) {
        Some(from)
    } else {
        first_control(list, from + 1)
    }
}

/// The characters that systemd refuses in an executable's path.
pub open spec fn refused_marks() -> Seq<char> {
    seq!['"', '\\', '\'']
}

/// Whether every text of a registration can be written down.
pub open spec fn carriable(registration: RegistrationView, log: Seq<char>) -> bool {
    first_control(registration_texts(registration, log), 0) is None
}

impl Registration {
    /// What the service is registered to run.
    pub open spec fn view(&self) -> RegistrationView {
        RegistrationView {
            executable: self.executable@,
            arguments: strings(self.arguments@),
            home: optional(self.home),
        }
    }

    /// A copy of the registration.
    pub fn duplicate(&self) -> (r: Registration)
        ensures
            r.view() == self.view(),
    {
        Registration {
            executable: self.executable.clone(),
            arguments: copy_strings(self.arguments.as_slice()),
            home: copy_optional(&self.home),
        }
    }

    fn option(&self, flag: &str) -> (r: Option<String>)
        ensures
            optional(r) == option_value(strings(self.arguments@), flag@),
    {
        let mut i: usize = 0;
        let ghost all = strings(self.arguments@);
        while i < self.arguments.len() && !same_text(self.arguments[i].as_str(), flag)
            invariant
                i <= self.arguments@.len(),
                all == strings(self.arguments@),
                first_text(all, flag@, 0) == first_text(all, flag@, i as int),
            decreases self.arguments@.len() - i,
        {
            i += 1;
        }
        assert(first_text(all, flag@, 0) == i);
        if i < self.arguments.len() && i + 1 < self.arguments.len() {
            Some(self.arguments[i + 1].clone())
        } else {
            None
        }
    }

    /// The configuration the service was told to read. `None` where it reads
    /// the default one, and where the path is relative: that path is resolved
    /// in the service's working directory, which is not known.
    pub fn config(&self) -> (r: Option<String>)
        ensures
            optional(r) == if_absolute(option_value(self.view().arguments, "--config"@)),
    {
        match self.option("--config") {
            Some(path) => if is_absolute(path.as_str()) {
                Some(path)
            } else {
                None
            },
            None => None,
        }
    }

    /// The state root the service was told to use, or has in its environment.
    /// `None` where it uses the default one, and where a path it was told is
    /// relative.
    pub fn state_root(&self) -> (r: Option<String>)
        ensures
            optional(r) == (match option_value(self.view().arguments, "--state-root"@) {
                Some(root) => if_absolute(Some(root)),
                None => self.view().home,
            }),
    {
        match self.option("--state-root") {
            Some(root) => if is_absolute(root.as_str()) {
                Some(root)
            } else {
                None
            },
            None => copy_optional(&self.home),
        }
    }

    /// Whether the registration can be written down: no text of it, nor the
    /// log's path, holds a control character, and, where systemd runs it, the
    /// executable's path holds no quote and no backslash.
    pub fn check(&self, log: &str, systemd: bool) -> (r: Result<(), RegistrationError>)
        ensures
            match first_control(registration_texts(self.view(), log@), 0) {
                Some(i) => {
                    let found = registration_texts(self.view(), log@)[i];
                    r matches Err(RegistrationError::Control { what, text }) && (what@, text@)
                        == found
                },
                None => if systemd && has_any(self.executable@, refused_marks()) {
                    r matches Err(RegistrationError::Executable { executable }) && executable@
                        == self.executable@
                } else {
                    r is Ok
                },
            },
    {
        let ghost all = registration_texts(self.view(), log@);
        if any_control(chars_of(self.executable.as_str()).as_slice()) {
            return Err(
                RegistrationError::Control {
                    what: "the executable".to_owned(),
                    text: self.executable.clone(),
                },
            );
        }
        assert(first_control(all, 0) == first_control(all, 1));
        if any_control(chars_of(log).as_slice()) {
            return Err(
                RegistrationError::Control { what: "the log".to_owned(), text: log.to_owned() },
            );
        }
        assert(first_control(all, 1) == first_control(all, 2));
        let mut i: usize = 0;
        while i < self.arguments.len()
            invariant
                i <= self.arguments@.len(),
                all == registration_texts(self.view(), log@),
                first_control(all, 0) == first_control(all, 2 + i),
            decreases self.arguments@.len() - i,
        {
            assert(all[2 + i] == ("an argument"@, self.arguments@[i as int]@));
            if any_control(chars_of(self.arguments[i].as_str()).as_slice()) {
                return Err(
                    RegistrationError::Control {
                        what: "an argument".to_owned(),
                        text: self.arguments[i].clone(),
                    },
                );
            }
            i += 1;
        }
        if let Some(home) = &self.home {
            assert(all[2 + i] == (HOME_VARIABLE@, home@));
            if any_control(chars_of(home.as_str()).as_slice()) {
                return Err(
                    RegistrationError::Control {
                        what: HOME_VARIABLE.to_owned(),
                        text: home.clone(),
                    },
                );
            }
            assert(first_control(all, 2 + i) == first_control(all, 3 + i));
        }
        assert(first_control(all, 0) is None);
        let marks: [char; 3] = ['"', '\\', '\''];
        assert(marks@ =~= refused_marks());
        if systemd && any_of(chars_of(self.executable.as_str()).as_slice(), marks.as_slice()) {
            return Err(RegistrationError::Executable { executable: self.executable.clone() });
        }
        Ok(())
    }
}

/// The arguments of a service with a configuration and a state root, both
/// absolute where they are given.
pub open spec fn service_arguments(config: Option<Seq<char>>, state_root: Option<Seq<char>>) -> Seq<
    Seq<char>,
> {
    let first = seq!["watch"@];
    let second = match config {
        Some(config) => first + seq!["--config"@, config],
        None => first,
    };
    match state_root {
        Some(root) => second + seq!["--state-root"@, root],
        None => second,
    }
}

/// The registration of a service, given the absolute forms of the paths that
/// were named.
pub fn registration_for(
    executable: &str,
    config: Option<&str>,
    state_root: Option<&str>,
    home: Option<&str>,
) -> (r: Registration)
    ensures
        r.view() == (RegistrationView {
            executable: executable@,
            arguments: service_arguments(text_option(config), text_option(state_root)),
            home: text_option(home),
        }),
{
    let mut arguments: Vec<String> = Vec::new();
    assert(strings(arguments@) =~= Seq::<Seq<char>>::empty());
    push_line(&mut arguments, "watch".to_owned());
    if let Some(config) = config {
        push_line(&mut arguments, "--config".to_owned());
        push_line(&mut arguments, config.to_owned());
    }
    if let Some(root) = state_root {
        push_line(&mut arguments, "--state-root".to_owned());
        push_line(&mut arguments, root.to_owned());
    }
    assert(strings(arguments@) =~= service_arguments(
        text_option(config),
        text_option(state_root),
    ));
    let home: Option<String> = match home {
        Some(home) => Some(home.to_owned()),
        None => None,
    };
    Registration { executable: executable.to_owned(), arguments, home }
}

/// What a service is registered to run, once it is made for an executable to
/// run another.
pub fn retargeted(registration: &Registration, executable: &str) -> (r: Registration)
    ensures
        r.view() == (RegistrationView { executable: executable@, ..registration.view() }),
{
    let mut r = registration.duplicate();
    r.executable = executable.to_owned();
    r
}

/// The configuration that an installed service reads, where one is installed
/// and was told which.
pub fn installed_config(registration: Option<&Registration>) -> (r: Option<String>)
    ensures
        optional(r) == (match registration {
            Some(registration) => if_absolute(
                option_value(registration.view().arguments, "--config"@),
            ),
            None => None,
        }),
{
    match registration {
        Some(registration) => registration.config(),
        None => None,
    }
}

// ---------------------------------------------------------------------------
// Driving the service manager
// ---------------------------------------------------------------------------

/// The service manager of a platform.
#[derive(Clone, Copy, Debug, PartialEq, Eq, Structural)]
pub enum Manager {
    /// launchd.
    Launchd,
    /// systemd, for the user.
    Systemd,
    /// None that is known.
    Unsupported,
}

/// Why the service manager is not asked.
#[derive(Clone, Copy, Debug, PartialEq, Eq, Structural)]
pub enum ServiceError {
    /// No service is installed.
    NotInstalled,
    /// There is no service manager that is known.
    Unsupported,
}

/// Something to do, in turn.
#[derive(Debug)]
pub enum Step {
    /// Write the service's file.
    Write,
    /// Remove the service's file, where it is there.
    Remove,
    /// Run a command; its failure is the end.
    Run(Vec<String>),
    /// Run a command; its failure is nothing.
    Try(Vec<String>),
    /// Run a command until it succeeds, for a while.
    Insist(Vec<String>),
    /// Wait until the service is gone, for a while.
    AwaitUnload,
}

/// Something to do, in turn.
pub enum StepView {
    /// Write the service's file.
    Write,
    /// Remove the service's file, where it is there.
    Remove,
    /// Run a command; its failure is the end.
    Run(Seq<Seq<char>>),
    /// Run a command; its failure is nothing.
    Try(Seq<Seq<char>>),
    /// Run a command until it succeeds, for a while.
    Insist(Seq<Seq<char>>),
    /// Wait until the service is gone, for a while.
    AwaitUnload,
}

impl Step {
    /// What is done.
    pub open spec fn view(&self) -> StepView {
        match self {
            Step::Write => StepView::Write,
            Step::Remove => StepView::Remove,
            Step::Run(argv) => StepView::Run(strings(argv@)),
            Step::Try(argv) => StepView::Try(strings(argv@)),
            Step::Insist(argv) => StepView::Insist(strings(argv@)),
            Step::AwaitUnload => StepView::AwaitUnload,
        }
    }
}

/// What is done, in turn.
pub open spec fn step_views(steps: Seq<Step>) -> Seq<StepView> {
    Seq::new(steps.len(), |i: int| steps[i].view())
}

/// Where the service is, as launchd names it.
pub struct Target {
    /// The user's domain.
    pub domain: String,
    /// The service's file.
    pub file: String,
}

/// The texts of some words.
pub open spec fn word_texts(parts: Seq<&str>) -> Seq<Seq<char>> {
    Seq::new(parts.len(), |i: int| parts[i]@)
}

fn argv(parts: &[&str]) -> (r: Vec<String>)
    ensures
        strings(r@) == word_texts(parts@),
{
    let mut r: Vec<String> = Vec::new();
    let mut i: usize = 0;
    while i < parts.len()
        invariant
            i <= parts@.len(),
            r@.len() == i,
            forall|k: int| 0 <= k < i ==> (#[trigger] r@[k])@ == parts@[k]@,
        decreases parts@.len() - i,
    {
        r.push(parts[i].to_owned());
        i += 1;
    }
    assert(strings(r@) =~= word_texts(parts@));
    r
}

/// The name of the service's unit.
pub open spec fn unit_text() -> Seq<char> {
    LABEL@ + ".service"@
}

fn unit_name() -> (r: String)
    ensures
        r@ == unit_text(),
{
    let mut r = LABEL.to_owned();
    r.append(".service");
    r
}

/// The service, as launchd names it.
pub open spec fn target_text(target: Target) -> Seq<char> {
    target.domain@ + "/"@ + LABEL@
}

fn target_name(target: &Target) -> (r: String)
    ensures
        r@ == target_text(*target),
{
    let mut r = target.domain.clone();
    r.append("/");
    r.append(LABEL);
    r
}

/// A command for the user's systemd about the unit.
pub open spec fn systemctl(verb: Seq<Seq<char>>) -> Seq<Seq<char>> {
    seq!["systemctl"@, "--user"@] + verb
}

fn user_unit(verb: &str) -> (r: Vec<String>)
    ensures
        strings(r@) == systemctl(seq![verb@, unit_text()]),
{
    let unit = unit_name();
    let parts: [&str; 4] = ["systemctl", "--user", verb, unit.as_str()];
    let r = argv(parts.as_slice());
    assert(strings(r@) =~= systemctl(seq![verb@, unit_text()]));
    r
}

fn user_unit_now(verb: &str) -> (r: Vec<String>)
    ensures
        strings(r@) == systemctl(seq![verb@, "--now"@, unit_text()]),
{
    let unit = unit_name();
    let parts: [&str; 5] = ["systemctl", "--user", verb, "--now", unit.as_str()];
    let r = argv(parts.as_slice());
    assert(strings(r@) =~= systemctl(seq![verb@, "--now"@, unit_text()]));
    r
}

fn user_reload() -> (r: Vec<String>)
    ensures
        strings(r@) == systemctl(seq!["daemon-reload"@]),
{
    let parts: [&str; 3] = ["systemctl", "--user", "daemon-reload"];
    let r = argv(parts.as_slice());
    assert(strings(r@) =~= systemctl(seq!["daemon-reload"@]));
    r
}

fn load_command(target: &Target) -> (r: Vec<String>)
    ensures
        strings(r@) == seq!["launchctl"@, "bootstrap"@, target.domain@, target.file@],
{
    let parts: [&str; 4] = [
        "launchctl",
        "bootstrap",
        target.domain.as_str(),
        target.file.as_str(),
    ];
    let r = argv(parts.as_slice());
    assert(strings(r@) =~= seq!["launchctl"@, "bootstrap"@, target.domain@, target.file@]);
    r
}

fn unload_command(target: &Target) -> (r: Vec<String>)
    ensures
        strings(r@) == seq!["launchctl"@, "bootout"@, target_text(*target)],
{
    let name = target_name(target);
    let parts: [&str; 3] = ["launchctl", "bootout", name.as_str()];
    let r = argv(parts.as_slice());
    assert(strings(r@) =~= seq!["launchctl"@, "bootout"@, target_text(*target)]);
    r
}

/// What installing takes.
pub open spec fn install_steps(manager: Manager, target: Target) -> Seq<StepView> {
    match manager {
        Manager::Launchd => seq![
            StepView::Write,
            StepView::Try(seq!["launchctl"@, "bootout"@, target_text(target)]),
            StepView::Run(seq!["launchctl"@, "bootstrap"@, target.domain@, target.file@]),
        ],
        Manager::Systemd => seq![
            StepView::Write,
            StepView::Run(systemctl(seq!["daemon-reload"@])),
            StepView::Run(systemctl(seq!["enable"@, "--now"@, unit_text()])),
            StepView::Try(seq!["loginctl"@, "enable-linger"@]),
        ],
        Manager::Unsupported => Seq::empty(),
    }
}

/// What installing takes, once the registration can be written down.
pub fn install(manager: Manager, target: &Target) -> (r: Result<Vec<Step>, ServiceError>)
    ensures
        if manager == Manager::Unsupported {
            r == Err::<Vec<Step>, ServiceError>(ServiceError::Unsupported)
        } else {
            r matches Ok(steps) && step_views(steps@) == install_steps(manager, *target)
        },
{
    let mut steps: Vec<Step> = Vec::new();
    match manager {
        Manager::Unsupported => {
            return Err(ServiceError::Unsupported);
        },
        Manager::Launchd => {
            steps.push(Step::Write);
            steps.push(Step::Try(unload_command(target)));
            steps.push(Step::Run(load_command(target)));
        },
        Manager::Systemd => {
            steps.push(Step::Write);
            steps.push(Step::Run(user_reload()));
            steps.push(Step::Run(user_unit_now("enable")));
            let parts: [&str; 2] = ["loginctl", "enable-linger"];
            let linger = argv(parts.as_slice());
            assert(strings(linger@) =~= seq!["loginctl"@, "enable-linger"@]);
            steps.push(Step::Try(linger));
        },
    }
    assert(step_views(steps@) =~= install_steps(manager, *target));
    Ok(steps)
}

/// What replacing the service's file takes.
pub open spec fn rewrite_steps(manager: Manager, target: Target, loaded: bool) -> Seq<StepView> {
    match manager {
        Manager::Launchd => {
            let load = StepView::Insist(
                seq!["launchctl"@, "bootstrap"@, target.domain@, target.file@],
            );
            if loaded {
                seq![
                    StepView::Write,
                    StepView::Run(seq!["launchctl"@, "bootout"@, target_text(target)]),
                    StepView::AwaitUnload,
                    load,
                ]
            } else {
                seq![StepView::Write, load]
            }
        },
        Manager::Systemd => seq![
            StepView::Write,
            StepView::Run(systemctl(seq!["daemon-reload"@])),
        ],
        Manager::Unsupported => Seq::empty(),
    }
}

/// What replacing the service's file takes.
pub fn rewrite(manager: Manager, target: &Target, loaded: bool) -> (r: Result<
    Vec<Step>,
    ServiceError,
>)
    ensures
        if manager == Manager::Unsupported {
            r == Err::<Vec<Step>, ServiceError>(ServiceError::Unsupported)
        } else {
            r matches Ok(steps) && step_views(steps@) == rewrite_steps(manager, *target, loaded)
        },
{
    let mut steps: Vec<Step> = Vec::new();
    match manager {
        Manager::Unsupported => {
            return Err(ServiceError::Unsupported);
        },
        Manager::Launchd => {
            steps.push(Step::Write);
            if loaded {
                steps.push(Step::Run(unload_command(target)));
                steps.push(Step::AwaitUnload);
            }
            steps.push(Step::Insist(load_command(target)));
        },
        Manager::Systemd => {
            steps.push(Step::Write);
            steps.push(Step::Run(user_reload()));
        },
    }
    assert(step_views(steps@) =~= rewrite_steps(manager, *target, loaded));
    Ok(steps)
}

/// What removing the service takes.
pub open spec fn uninstall_steps(manager: Manager, target: Target) -> Seq<StepView> {
    match manager {
        Manager::Launchd => seq![
            StepView::Try(seq!["launchctl"@, "bootout"@, target_text(target)]),
            StepView::Remove,
        ],
        Manager::Systemd => seq![
            StepView::Try(systemctl(seq!["disable"@, "--now"@, unit_text()])),
            StepView::Remove,
            StepView::Try(systemctl(seq!["daemon-reload"@])),
        ],
        Manager::Unsupported => Seq::empty(),
    }
}

/// What removing the service takes.
pub fn uninstall(manager: Manager, target: &Target) -> (r: Result<Vec<Step>, ServiceError>)
    ensures
        if manager == Manager::Unsupported {
            r == Err::<Vec<Step>, ServiceError>(ServiceError::Unsupported)
        } else {
            r matches Ok(steps) && step_views(steps@) == uninstall_steps(manager, *target)
        },
{
    let mut steps: Vec<Step> = Vec::new();
    match manager {
        Manager::Unsupported => {
            return Err(ServiceError::Unsupported);
        },
        Manager::Launchd => {
            steps.push(Step::Try(unload_command(target)));
            steps.push(Step::Remove);
        },
        Manager::Systemd => {
            steps.push(Step::Try(user_unit_now("disable")));
            steps.push(Step::Remove);
            steps.push(Step::Try(user_reload()));
        },
    }
    assert(step_views(steps@) =~= uninstall_steps(manager, *target));
    Ok(steps)
}

/// What is done to a service that is there.
#[derive(Clone, Copy, Debug, PartialEq, Eq, Structural)]
pub enum Verb {
    /// It is started.
    Start,
    /// It is stopped.
    Stop,
    /// It is stopped and started.
    Restart,
}

/// What starting, stopping and restarting takes.
pub open spec fn verb_steps(verb: Verb, manager: Manager, target: Target, loaded: bool) -> Seq<
    StepView,
> {
    match manager {
        Manager::Launchd => {
            let load = StepView::Insist(
                seq!["launchctl"@, "bootstrap"@, target.domain@, target.file@],
            );
            match verb {
                Verb::Stop => seq![
                    StepView::Run(seq!["launchctl"@, "bootout"@, target_text(target)]),
                    StepView::AwaitUnload,
                ],
                Verb::Start => if loaded {
                    seq![
                        StepView::Run(seq!["launchctl"@, "kickstart"@, target_text(target)]),
                    ]
                } else {
                    seq![load]
                },
                Verb::Restart => if loaded {
                    seq![
                        StepView::Run(
                            seq!["launchctl"@, "kickstart"@, "-k"@, target_text(target)],
                        ),
                    ]
                } else {
                    seq![load]
                },
            }
        },
        Manager::Systemd => seq![
            StepView::Run(
                systemctl(
                    seq![
                        match verb {
                            Verb::Start => "start"@,
                            Verb::Stop => "stop"@,
                            Verb::Restart => "restart"@,
                        },
                        unit_text(),
                    ],
                ),
            ),
        ],
        Manager::Unsupported => Seq::empty(),
    }
}

/// Whether a verb is carried out, and how: a service that is not installed is
/// refused, rather than something unregistered started in its place.
pub open spec fn verb_result(
    r: Result<Vec<Step>, ServiceError>,
    verb: Verb,
    state: ServiceState,
    manager: Manager,
    target: Target,
    loaded: bool,
) -> bool {
    if state == ServiceState::NotInstalled {
        r == Err::<Vec<Step>, ServiceError>(ServiceError::NotInstalled)
    } else if manager == Manager::Unsupported {
        r == Err::<Vec<Step>, ServiceError>(ServiceError::Unsupported)
    } else {
        r matches Ok(steps) && step_views(steps@) == verb_steps(verb, manager, target, loaded)
    }
}

/// What starting the service takes.
pub fn start(state: ServiceState, manager: Manager, target: &Target, loaded: bool) -> (r: Result<
    Vec<Step>,
    ServiceError,
>)
    ensures
        verb_result(r, Verb::Start, state, manager, *target, loaded),
{
    if state == ServiceState::NotInstalled {
        return Err(ServiceError::NotInstalled);
    }
    let mut steps: Vec<Step> = Vec::new();
    match manager {
        Manager::Unsupported => {
            return Err(ServiceError::Unsupported);
        },
        Manager::Launchd => {
            if loaded {
                let name = target_name(target);
                let parts: [&str; 3] = ["launchctl", "kickstart", name.as_str()];
                let command = argv(parts.as_slice());
                assert(strings(command@) =~= seq![
                    "launchctl"@,
                    "kickstart"@,
                    target_text(*target),
                ]);
                steps.push(Step::Run(command));
            } else {
                steps.push(Step::Insist(load_command(target)));
            }
        },
        Manager::Systemd => {
            steps.push(Step::Run(user_unit("start")));
        },
    }
    assert(step_views(steps@) =~= verb_steps(Verb::Start, manager, *target, loaded));
    Ok(steps)
}

/// What stopping the service takes.
pub fn stop(state: ServiceState, manager: Manager, target: &Target) -> (r: Result<
    Vec<Step>,
    ServiceError,
>)
    ensures
        verb_result(r, Verb::Stop, state, manager, *target, true),
{
    if state == ServiceState::NotInstalled {
        return Err(ServiceError::NotInstalled);
    }
    let mut steps: Vec<Step> = Vec::new();
    match manager {
        Manager::Unsupported => {
            return Err(ServiceError::Unsupported);
        },
        Manager::Launchd => {
            steps.push(Step::Run(unload_command(target)));
            steps.push(Step::AwaitUnload);
        },
        Manager::Systemd => {
            steps.push(Step::Run(user_unit("stop")));
        },
    }
    assert(step_views(steps@) =~= verb_steps(Verb::Stop, manager, *target, true));
    Ok(steps)
}

/// What restarting the service takes.
pub fn restart(state: ServiceState, manager: Manager, target: &Target, loaded: bool) -> (r: Result<
    Vec<Step>,
    ServiceError,
>)
    ensures
        verb_result(r, Verb::Restart, state, manager, *target, loaded),
{
    if state == ServiceState::NotInstalled {
        return Err(ServiceError::NotInstalled);
    }
    let mut steps: Vec<Step> = Vec::new();
    match manager {
        Manager::Unsupported => {
            return Err(ServiceError::Unsupported);
        },
        Manager::Launchd => {
            if loaded {
                let name = target_name(target);
                let parts: [&str; 4] = ["launchctl", "kickstart", "-k", name.as_str()];
                let command = argv(parts.as_slice());
                assert(strings(command@) =~= seq![
                    "launchctl"@,
                    "kickstart"@,
                    "-k"@,
                    target_text(*target),
                ]);
                steps.push(Step::Run(command));
            } else {
                steps.push(Step::Insist(load_command(target)));
            }
        },
        Manager::Systemd => {
            steps.push(Step::Run(user_unit("restart")));
        },
    }
    assert(step_views(steps@) =~= verb_steps(Verb::Restart, manager, *target, loaded));
    Ok(steps)
}

/// Whether a line of launchd's report says that the service runs.
pub open spec fn says_running(line: Seq<char>) -> bool {
    has_prefix(trimmed(line), "state = running"@)
}

/// What the service manager said of the service.
#[derive(Debug)]
pub enum Answer {
    /// launchd's report; `None` where it does not have the service.
    Launchd(Option<String>),
    /// Whether systemd has the unit active.
    Systemd(bool),
}

/// The state of the service, by whether its file is there and what its
/// manager said.
pub open spec fn state_of(installed: bool, answer: Answer) -> ServiceState {
    if !installed {
        ServiceState::NotInstalled
    } else {
        match answer {
            Answer::Launchd(Some(report)) => if exists|i: int|
                0 <= i < line_texts(report@).len() && says_running(
                    #[trigger] line_texts(report@)[i],
                ) {
                ServiceState::Running
            } else {
                ServiceState::Stopped
            },
            Answer::Launchd(None) => ServiceState::Stopped,
            Answer::Systemd(active) => if active {
                ServiceState::Running
            } else {
                ServiceState::Stopped
            },
        }
    }
}

fn reports_running(report: &str) -> (r: bool)
    ensures
        r == (exists|i: int|
            0 <= i < line_texts(report@).len() && says_running(#[trigger] line_texts(report@)[i])),
{
    let all = lines(chars_of(report).as_slice());
    let mark = chars_of("state = running");
    let ghost list = line_texts(report@);
    let mut i: usize = 0;
    assert(texts(all@).len() == all@.len());
    while i < all.len()
        invariant
            i <= all@.len(),
            texts(all@) == list,
            mark@ == "state = running"@,
            list == line_texts(report@),
            forall|k: int| 0 <= k < i ==> !says_running(#[trigger] list[k]),
        decreases all@.len() - i,
    {
        assert(list[i as int] == all@[i as int]@);
        let line = trim_start(trim_end(all[i].as_slice()));
        if starts_with(line, mark.as_slice()) {
            return true;
        }
        i += 1;
    }
    false
}

/// The state of the service.
pub fn state(installed: bool, answer: &Answer) -> (r: ServiceState)
    ensures
        r == state_of(installed, *answer),
{
    if !installed {
        return ServiceState::NotInstalled;
    }
    match answer {
        Answer::Launchd(Some(report)) => if reports_running(report.as_str()) {
            ServiceState::Running
        } else {
            ServiceState::Stopped
        },
        Answer::Launchd(None) => ServiceState::Stopped,
        Answer::Systemd(active) => if *active {
            ServiceState::Running
        } else {
            ServiceState::Stopped
        },
    }
}

/// A log is rotated once it holds 16 megabytes; one that is not there never is.
pub proof fn law_a_log_is_rotated_at_sixteen_megabytes(size: u64)
    ensures
        too_large(Some(size)) <==> size >= 16777216,
        !too_large(None),
{
}

proof fn lemma_first_text(list: Seq<Seq<char>>, text: Seq<char>, from: int, at: int)
    requires
        0 <= from <= at <= list.len(),
        forall|i: int| from <= i < at ==> #[trigger] list[i] != text,
        at < list.len() ==> list[at] == text,
    ensures
        first_text(list, text, from) == at,
    decreases at - from,
{
    if from < at {
        lemma_first_text(list, text, from + 1, at);
    }
}

/// An option's value is the word behind its flag, the first time the flag is
/// given. A flag that is not given, or that ends the words, has none.
pub proof fn law_an_option_is_the_word_behind_its_flag(
    before: Seq<Seq<char>>,
    flag: Seq<char>,
    value: Seq<char>,
    after: Seq<Seq<char>>,
)
    requires
        !before.contains(flag),
    ensures
        option_value(before + seq![flag, value] + after, flag) == Some(value),
        option_value(before, flag) is None,
        option_value(before.push(flag), flag) is None,
{
    let all = before + seq![flag, value] + after;
    let n = before.len() as int;
    assert forall|i: int| 0 <= i < n implies #[trigger] all[i] != flag by {
        assert(all[i] == before[i]);
    }
    assert(all[n] == flag);
    assert(all[n + 1] == value);
    lemma_first_text(all, flag, 0, n);
    assert forall|i: int| 0 <= i < n implies #[trigger] before[i] != flag by {
        assert(before.contains(before[i]));
    }
    lemma_first_text(before, flag, 0, n);
    assert forall|i: int| 0 <= i < n implies #[trigger] before.push(flag)[i] != flag by {
        assert(before.push(flag)[i] == before[i]);
    }
    lemma_first_text(before.push(flag), flag, 0, n);
}

proof fn lemma_flags()
    ensures
        "watch"@ != "--config"@,
        "watch"@ != "--state-root"@,
        "--config"@ != "--state-root"@,
        "--config"@.len() > 0 && "--config"@[0] == '-',
        "--state-root"@.len() > 0 && "--state-root"@[0] == '-',
        "/"@ == seq!['/'],
{
    reveal_strlit("watch");
    reveal_strlit("--config");
    reveal_strlit("--state-root");
    reveal_strlit("/");
    assert("watch"@.len() != "--config"@.len() && "watch"@.len() != "--state-root"@.len());
    assert("/"@ =~= seq!['/']);
}

/// Whether a path that is given starts at the root.
pub open spec fn rooted(path: Option<Seq<char>>) -> bool {
    path matches Some(path) ==> path.len() > 0 && path[0] == '/'
}

/// The service is run with `watch` first, and the paths it was registered with
/// can be told from its words: the configuration and the state that were given,
/// and neither where none was.
pub proof fn law_a_service_s_paths_can_be_told_from_its_words(
    config: Option<Seq<char>>,
    state_root: Option<Seq<char>>,
)
    requires
        rooted(config),
        rooted(state_root),
    ensures
        service_arguments(config, state_root)[0] == "watch"@,
        if_absolute(option_value(service_arguments(config, state_root), "--config"@)) == config,
        if_absolute(option_value(service_arguments(config, state_root), "--state-root"@))
            == state_root,
{
    lemma_flags();
    let words = service_arguments(config, state_root);
    let first = seq!["watch"@];
    let none = Seq::<Seq<char>>::empty();
    let (c, r) = ("--config"@, "--state-root"@);
    if let Some(path) = config {
        assert(path.take(1) =~= "/"@);
        assert(path != c && path != r);
    }
    if let Some(path) = state_root {
        assert(path.take(1) =~= "/"@);
        assert(path != c && path != r);
    }
    match (config, state_root) {
        (Some(a), Some(b)) => {
            law_an_option_is_the_word_behind_its_flag(first, c, a, seq![r, b]);
            assert(words =~= first + seq![c, a] + seq![r, b]);
            law_an_option_is_the_word_behind_its_flag(seq!["watch"@, c, a], r, b, none);
            assert(words =~= seq!["watch"@, c, a] + seq![r, b] + none);
        },
        (Some(a), None) => {
            law_an_option_is_the_word_behind_its_flag(first, c, a, none);
            assert(words =~= first + seq![c, a] + none);
            law_an_option_is_the_word_behind_its_flag(words, r, a, none);
        },
        (None, Some(b)) => {
            law_an_option_is_the_word_behind_its_flag(first, r, b, none);
            assert(words =~= first + seq![r, b] + none);
            law_an_option_is_the_word_behind_its_flag(words, c, b, none);
        },
        (None, None) => {
            law_an_option_is_the_word_behind_its_flag(words, c, c, none);
            law_an_option_is_the_word_behind_its_flag(words, r, c, none);
        },
    }
}

/// Only a path that starts at the root is taken from what was written down.
pub proof fn law_only_a_rooted_path_is_taken(path: Seq<char>)
    ensures
        if_absolute(Some(path)) == (if path.len() > 0 && path[0] == '/' {
            Some(path)
        } else {
            None
        }),
        if_absolute(None) is None,
{
    lemma_flags();
    if path.len() > 0 {
        assert(path.take(1) =~= seq![path[0]]);
        if path[0] != '/' {
            assert(path.take(1)[0] != "/"@[0]);
        }
    }
}

/// The text that is named is the first that holds a control character; none is
/// where none of them does.
pub proof fn law_the_first_control_is_named(list: Seq<(Seq<char>, Seq<char>)>, from: int)
    requires
        0 <= from <= list.len(),
    ensures
        match first_control(list, from) {
            Some(i) => from <= i < list.len() && has_control(list[i].1) && forall|j: int|
                from <= j < i ==> !has_control((#[trigger] list[j]).1),
            None => forall|j: int| from <= j < list.len() ==> !has_control((#[trigger] list[j]).1),
        },
    decreases list.len() - from,
{
    if from < list.len() {
        law_the_first_control_is_named(list, from + 1);
    }
}

/// A registration can be written down exactly where no control character is in
/// its executable, its arguments, its log or its home.
pub proof fn law_what_holds_a_control_cannot_be_carried(
    registration: RegistrationView,
    log: Seq<char>,
)
    ensures
        carriable(registration, log) <==> {
            &&& !has_control(registration.executable)
            &&& !has_control(log)
            &&& forall|i: int|
                0 <= i < registration.arguments.len() ==> !has_control(
                    #[trigger] registration.arguments[i],
                )
            &&& registration.home matches Some(home) ==> !has_control(home)
        },
{
    let all = registration_texts(registration, log);
    let n = registration.arguments.len() as int;
    law_the_first_control_is_named(all, 0);
    assert(all[0].1 == registration.executable);
    assert(all[1].1 == log);
    assert forall|i: int| 0 <= i < n implies #[trigger] registration.arguments[i] == all[i
        + 2].1 by {}
    if registration.home is Some {
        assert(all[n + 2].1 == registration.home->0);
    }
    if !carriable(registration, log) {
        let i = first_control(all, 0)->0;
        if 2 <= i < n + 2 {
            assert(registration.arguments[i - 2] == all[i].1);
        }
    }
}

/// A service's file is written before its manager hears of it, and only where
/// one is installed or rewritten; it is removed only where the service is
/// uninstalled, and by then the manager has been told to let go of it. The
/// other verbs leave the file alone.
pub proof fn law_the_file_comes_before_the_manager(
    manager: Manager,
    target: Target,
    loaded: bool,
    verb: Verb,
)
    requires
        manager != Manager::Unsupported,
    ensures
        ({
            let (made, again) = (install_steps(manager, target), rewrite_steps(
                manager,
                target,
                loaded,
            ));
            let (gone, told) = (uninstall_steps(manager, target), verb_steps(
                verb,
                manager,
                target,
                loaded,
            ));
            &&& made.len() > 1 && made[0] == StepView::Write
            &&& again.len() > 1 && again[0] == StepView::Write
            &&& forall|i: int|
                1 <= i < made.len() ==> !(#[trigger] made[i] is Write || made[i] is Remove)
            &&& forall|i: int|
                1 <= i < again.len() ==> !(#[trigger] again[i] is Write || again[i] is Remove)
            &&& gone.len() > 1 && gone[0] is Try && gone[1] == StepView::Remove
            &&& forall|i: int|
                0 <= i < gone.len() && i != 1 ==> !(#[trigger] gone[i] is Write || gone[i]
                    is Remove)
            &&& told.len() > 0
            &&& forall|i: int|
                0 <= i < told.len() ==> !(#[trigger] told[i] is Write || told[i] is Remove)
        }),
{
}

/// systemd is told of the user's own unit: it reads its files again after each
/// change to them, enables the unit and starts it at once, stops and disables
/// it before it goes, and each verb is its own. Installing also asks that the
/// user's services outlive a login, which may be refused.
pub proof fn law_systemd_is_told_of_the_unit(target: Target, loaded: bool, verb: Verb)
    ensures
        ({
            let unit = "io.autobahn.supervisor"@ + ".service"@;
            let reload = seq!["systemctl"@, "--user"@, "daemon-reload"@];
            let word = match verb {
                Verb::Start => "start"@,
                Verb::Stop => "stop"@,
                Verb::Restart => "restart"@,
            };
            &&& install_steps(Manager::Systemd, target) == seq![
                StepView::Write,
                StepView::Run(reload),
                StepView::Run(seq!["systemctl"@, "--user"@, "enable"@, "--now"@, unit]),
                StepView::Try(seq!["loginctl"@, "enable-linger"@]),
            ]
            &&& rewrite_steps(Manager::Systemd, target, loaded) == seq![
                StepView::Write,
                StepView::Run(reload),
            ]
            &&& uninstall_steps(Manager::Systemd, target) == seq![
                StepView::Try(seq!["systemctl"@, "--user"@, "disable"@, "--now"@, unit]),
                StepView::Remove,
                StepView::Try(reload),
            ]
            &&& verb_steps(verb, Manager::Systemd, target, loaded) == seq![
                StepView::Run(seq!["systemctl"@, "--user"@, word, unit]),
            ]
        }),
{
    let unit = "io.autobahn.supervisor"@ + ".service"@;
    let word = match verb {
        Verb::Start => "start"@,
        Verb::Stop => "stop"@,
        Verb::Restart => "restart"@,
    };
    assert(systemctl(seq!["daemon-reload"@]) =~= seq!["systemctl"@, "--user"@, "daemon-reload"@]);
    assert(systemctl(seq!["enable"@, "--now"@, unit]) =~= seq![
        "systemctl"@,
        "--user"@,
        "enable"@,
        "--now"@,
        unit,
    ]);
    assert(systemctl(seq!["disable"@, "--now"@, unit]) =~= seq![
        "systemctl"@,
        "--user"@,
        "disable"@,
        "--now"@,
        unit,
    ]);
    assert(systemctl(seq![word, unit]) =~= seq!["systemctl"@, "--user"@, word, unit]);
}

/// launchd has the service in the user's domain. One that it has is booted out,
/// and waited for, before it is loaded anew or let be; loading is from the
/// service's file. A service that it has is kicked, and killed first where it
/// is to be restarted; one that it does not have is loaded instead.
pub proof fn law_launchd_is_told_of_the_service(target: Target)
    ensures
        ({
            let name = target.domain@ + "/"@ + "io.autobahn.supervisor"@;
            let out = seq!["launchctl"@, "bootout"@, name];
            let load = seq!["launchctl"@, "bootstrap"@, target.domain@, target.file@];
            let manager = Manager::Launchd;
            &&& install_steps(manager, target) == seq![
                StepView::Write,
                StepView::Try(out),
                StepView::Run(load),
            ]
            &&& rewrite_steps(manager, target, true) == seq![
                StepView::Write,
                StepView::Run(out),
                StepView::AwaitUnload,
                StepView::Insist(load),
            ]
            &&& rewrite_steps(manager, target, false) == seq![
                StepView::Write,
                StepView::Insist(load),
            ]
            &&& uninstall_steps(manager, target) == seq![StepView::Try(out), StepView::Remove]
            &&& forall|loaded: bool| #[trigger]
                verb_steps(Verb::Stop, manager, target, loaded) == seq![
                    StepView::Run(out),
                    StepView::AwaitUnload,
                ]
            &&& verb_steps(Verb::Start, manager, target, true) == seq![
                StepView::Run(seq!["launchctl"@, "kickstart"@, name]),
            ]
            &&& verb_steps(Verb::Restart, manager, target, true) == seq![
                StepView::Run(seq!["launchctl"@, "kickstart"@, "-k"@, name]),
            ]
            &&& verb_steps(Verb::Start, manager, target, false) == seq![StepView::Insist(load)]
            &&& verb_steps(Verb::Restart, manager, target, false) == seq![StepView::Insist(load)]
        }),
{
}

/// A verb is refused for a service that is not installed, whatever manages it,
/// and where nothing does; otherwise its steps are given.
pub proof fn law_a_verb_needs_a_service(
    r: Result<Vec<Step>, ServiceError>,
    verb: Verb,
    state: ServiceState,
    manager: Manager,
    target: Target,
    loaded: bool,
)
    requires
        verb_result(r, verb, state, manager, target, loaded),
    ensures
        r is Ok <==> state != ServiceState::NotInstalled && manager != Manager::Unsupported,
        state == ServiceState::NotInstalled <==> r is Err && r->Err_0 == ServiceError::NotInstalled,
        r is Ok ==> step_views(r->Ok_0@) == verb_steps(verb, manager, target, loaded),
{
}

/// A service is installed where its file is there, and running where its
/// manager says so: systemd by the unit being active, launchd by a line of its
/// report that, without the space around it, begins with `state = running`.
pub proof fn law_a_service_runs_where_its_manager_says_so(
    installed: bool,
    answer: Answer,
    report: String,
    at: int,
)
    ensures
        state_of(installed, answer) == ServiceState::NotInstalled <==> !installed,
        installed ==> (state_of(installed, Answer::Systemd(true)) == ServiceState::Running),
        installed ==> (state_of(installed, Answer::Systemd(false)) == ServiceState::Stopped),
        installed ==> (state_of(installed, Answer::Launchd(None)) == ServiceState::Stopped),
        installed && 0 <= at < line_texts(report@).len() && has_prefix(
            trimmed(line_texts(report@)[at]),
            "state = running"@,
        ) ==> state_of(installed, Answer::Launchd(Some(report))) == ServiceState::Running,
        installed && state_of(installed, Answer::Launchd(Some(report))) == ServiceState::Running
            ==> exists|i: int|
            0 <= i < line_texts(report@).len() && has_prefix(
                trimmed(#[trigger] line_texts(report@)[i]),
                "state = running"@,
            ),
{
    if 0 <= at < line_texts(report@).len() {
        let line = line_texts(report@)[at];
        assert(has_prefix(trimmed(line), "state = running"@) ==> says_running(line));
    }
}

} // verus!
