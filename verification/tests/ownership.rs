//! Owners by number and by name.
use autobahn::ownership::{
    after_lookup, numeric, resolve_group, resolve_user, Lookup, LookupStep, OwnershipError,
    FIRST_CAPACITY,
};

#[test]
fn numeric_forms_resolve_without_database_lookups() {
    assert_eq!(resolve_user("1000", Lookup::Missing).unwrap(), 1000);
    assert_eq!(resolve_user("id:0", Lookup::Missing).unwrap(), 0);
    assert_eq!(resolve_group("id:33", Lookup::Missing).unwrap(), 33);
    // The number that means "leave it" names nobody.
    assert_eq!(numeric("4294967295"), None);
    assert_eq!(numeric("+7"), Some(7));
    assert_eq!(numeric("+"), None);
    assert_eq!(numeric("-0"), None);
    assert_eq!(numeric("4294967296"), None);
}

#[test]
fn the_root_user_resolves_by_name() {
    assert_eq!(resolve_user("root", Lookup::Found(0)).unwrap(), 0);
    assert_eq!(resolve_group("root", Lookup::Found(0)).unwrap(), 0);
}

#[test]
fn unknown_names_are_errors() {
    assert!(resolve_user("no-such-user-exists-here", Lookup::Missing).is_err());
    assert!(resolve_group("no-such-group-exists-here", Lookup::Missing).is_err());
    assert!(matches!(
        resolve_user("x", Lookup::Failed { code: 5 }),
        Err(OwnershipError::Failed { code: 5 })
    ));
    assert!(matches!(resolve_group("x\0", Lookup::BadName), Err(OwnershipError::BadName)));
}

#[test]
fn a_buffer_that_is_too_small_is_doubled() {
    match after_lookup(34, 34, None, FIRST_CAPACITY) {
        LookupStep::Retry { capacity } => assert_eq!(capacity, 2 * FIRST_CAPACITY),
        LookupStep::Done(_) => panic!("too small"),
    }
    assert!(matches!(after_lookup(0, 34, Some(7), 1024), LookupStep::Done(Lookup::Found(7))));
    assert!(matches!(after_lookup(0, 34, None, 1024), LookupStep::Done(Lookup::Missing)));
    assert!(matches!(
        after_lookup(5, 34, None, 1024),
        LookupStep::Done(Lookup::Failed { code: 5 })
    ));
}
