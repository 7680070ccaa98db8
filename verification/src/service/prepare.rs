//! Writing a service down: what is refused before anything is written, the
//! text of the service's file, and the steps that put it to use.
use crate::service::launchd::{law_a_property_list_reads_back, parsed_plist, plist_text, render_plist};
use crate::service::systemd::{ended, law_a_unit_reads_back, parsed_unit, render_unit, unit_lines};
use crate::service::{
    carriable, first_control, install, install_steps, law_the_first_control_is_named, refused_marks, registration_texts, rewrite,
    rewrite_steps, step_views, Manager, Registration, RegistrationError, RegistrationView,
    ServiceError, Step, StepView, Target,
};
use crate::text::{has_any, has_control};
use vstd::prelude::*;

verus! {

/// Why a service is not written down.
#[derive(Debug)]
pub enum PrepareError {
    /// Its registration cannot be.
    Registration {
        /// Why.
        error: RegistrationError,
    },
    /// There is no service manager to write it for.
    Service {
        /// Why.
        error: ServiceError,
    },
}

/// A service to be written down.
#[derive(Debug)]
pub struct Prepared {
    /// The text of its file.
    pub text: String,
    /// The steps, one of which writes the file.
    pub steps: Vec<Step>,
}

/// The text of a service's file.
pub open spec fn file_text(manager: Manager, registration: RegistrationView, log: Seq<char>) -> Seq<
    char,
> {
    match manager {
        Manager::Launchd => plist_text(registration, log),
        _ => ended(unit_lines(registration, log)),
    }
}

/// Whether a result is a service to be written down with some steps: refused
/// where a text of the registration holds a control character, where systemd
/// would refuse the executable, and where there is no service manager; and
/// otherwise the text of the file that the manager reads, with the steps.
pub open spec fn is_prepared(
    r: Result<Prepared, PrepareError>,
    registration: RegistrationView,
    log: Seq<char>,
    manager: Manager,
    steps: Seq<StepView>,
) -> bool {
    let texts = registration_texts(registration, log);
    match first_control(texts, 0) {
        Some(i) => r matches Err(
            PrepareError::Registration { error: RegistrationError::Control { what, text } },
        ) && (what@, text@) == texts[i],
        None => if manager == Manager::Systemd && has_any(
            registration.executable,
            refused_marks(),
        ) {
            r matches Err(
                PrepareError::Registration { error: RegistrationError::Executable { executable } },
            ) && executable@ == registration.executable
        } else if manager == Manager::Unsupported {
            r matches Err(PrepareError::Service { error: ServiceError::Unsupported })
        } else {
            r matches Ok(prepared) && prepared.text@ == file_text(manager, registration, log)
                && step_views(prepared.steps@) == steps
        },
    }
}

/// The text of a service's file.
fn render(manager: Manager, registration: &Registration, log: &str) -> (r: String)
    ensures
        r@ == file_text(manager, registration.view(), log@),
{
    match manager {
        Manager::Launchd => render_plist(registration, log),
        _ => render_unit(registration, log),
    }
}

/// What installing a service takes: nothing is written before the
/// registration is known to be one that can be.
pub fn prepare_install(
    registration: &Registration,
    log: &str,
    manager: Manager,
    target: &Target,
) -> (r: Result<Prepared, PrepareError>)
    ensures
        is_prepared(r, registration.view(), log@, manager, install_steps(manager, *target)),
{
    match registration.check(log, manager == Manager::Systemd) {
        Err(error) => {
            return Err(PrepareError::Registration { error });
        },
        Ok(()) => {},
    }
    match install(manager, target) {
        Err(error) => Err(PrepareError::Service { error }),
        Ok(steps) => Ok(Prepared { text: render(manager, registration, log), steps }),
    }
}

/// What replacing the file of an installed service takes: nothing is written
/// before the registration is known to be one that can be.
pub fn prepare_rewrite(
    registration: &Registration,
    log: &str,
    manager: Manager,
    target: &Target,
    loaded: bool,
) -> (r: Result<Prepared, PrepareError>)
    ensures
        is_prepared(r, registration.view(), log@, manager, rewrite_steps(manager, *target, loaded)),
{
    match registration.check(log, manager == Manager::Systemd) {
        Err(error) => {
            return Err(PrepareError::Registration { error });
        },
        Ok(()) => {},
    }
    match rewrite(manager, target, loaded) {
        Err(error) => Err(PrepareError::Service { error }),
        Ok(steps) => Ok(Prepared { text: render(manager, registration, log), steps }),
    }
}

/// What is prepared reads back as the registration it was prepared from, and is
/// refused exactly where it could not: where a text holds a control character,
/// where systemd would misread the executable, or where nothing manages
/// services.
pub proof fn law_what_is_prepared_reads_back(
    r: Result<Prepared, PrepareError>,
    registration: RegistrationView,
    log: Seq<char>,
    manager: Manager,
    steps: Seq<StepView>,
)
    requires
        is_prepared(r, registration, log, manager, steps),
    ensures
        r is Ok <==> {
            &&& carriable(registration, log)
            &&& manager != Manager::Unsupported
            &&& manager == Manager::Systemd ==> !registration.executable.contains('"')
                && !registration.executable.contains('\'') && !registration.executable.contains(
                '\\',
            )
        },
        r matches Ok(prepared) ==> step_views(prepared.steps@) == steps && match manager {
            Manager::Launchd => parsed_plist(prepared.text@) == Some(registration),
            _ => parsed_unit(prepared.text@) == Some(registration),
        },
        !carriable(registration, log) ==> (r matches Err(
            PrepareError::Registration { error: RegistrationError::Control { what, text } },
        ) && has_control(text@)),
{
    let marks = refused_marks();
    let path = registration.executable;
    law_the_first_control_is_named(registration_texts(registration, log), 0);
    assert(marks[0] == '"' && marks[1] == '\\' && marks[2] == '\'');
    if has_any(path, marks) {
        let i = choose|i: int| 0 <= i < path.len() && marks.contains(#[trigger] path[i]);
        let k = choose|k: int| 0 <= k < marks.len() && marks[k] == path[i];
        assert(path.contains(path[i]));
        assert(k == 0 || k == 1 || k == 2);
    } else {
        assert forall|c: char| #[trigger] marks.contains(c) implies !path.contains(c) by {
            if path.contains(c) {
                let i = choose|i: int| 0 <= i < path.len() && path[i] == c;
                assert(marks.contains(path[i]));
            }
        }
        assert(marks.contains('"') && marks.contains('\\') && marks.contains('\''));
    }
    if r is Ok {
        law_a_property_list_reads_back(registration, log);
        law_a_unit_reads_back(registration, log);
    }
}

} // verus!
