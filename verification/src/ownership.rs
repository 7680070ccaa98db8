//! Owners and groups, by name or by number.
//!
//! A name is looked up on the machine that applies it, so one configuration
//! means the right thing on every host.
use crate::text::{chars_of, has_prefix, number, number_u32, starts_with};
use vstd::prelude::*;
use vstd::slice::slice_subrange;

verus! {

/// The number that a text spells: decimal digits, behind a `+` or nothing.
pub open spec fn spelled(s: Seq<char>) -> Option<nat> {
    if s.len() > 0 && s[0] == '+' {
        number(s.skip(1))
    } else {
        number(s)
    }
}

/// The number that a specification gives, if it gives one: plainly, or behind
/// `id:`. The largest number means that nothing is changed, and is none.
pub open spec fn numeric_id(spec: Seq<char>) -> Option<u32> {
    let digits = if has_prefix(spec, "id:"@) {
        spec.skip(3)
    } else {
        spec
    };
    match spelled(digits) {
        Some(n) => if n < u32::MAX {
            Some(n as u32)
        } else {
            None
        },
        None => None,
    }
}

/// The number that a specification gives, if it gives one.
pub fn numeric(spec: &str) -> (r: Option<u32>)
    ensures
        r == numeric_id(spec@),
{
    let all = chars_of(spec);
    let lead = chars_of("id:");
    proof {
        reveal_strlit("id:");
    }
    let text: &[char] = if starts_with(all.as_slice(), lead.as_slice()) {
        slice_subrange(all.as_slice(), 3, all.len())
    } else {
        all.as_slice()
    };
    assert(has_prefix(spec@, "id:"@) ==> text@ =~= spec@.skip(3));
    let digits: &[char] = if text.len() > 0 && text[0] == '+' {
        slice_subrange(text, 1, text.len())
    } else {
        text
    };
    assert(text@.len() > 0 && text@[0] == '+' ==> digits@ =~= text@.skip(1));
    match number_u32(digits) {
        Some(n) => if n != u32::MAX {
            Some(n)
        } else {
            None
        },
        None => None,
    }
}

/// What looking a name up came to.
#[derive(Clone, Copy, Debug, PartialEq, Eq, Structural)]
pub enum Lookup {
    /// The number it stands for.
    Found(u32),
    /// There is no such name.
    Missing,
    /// It failed.
    Failed {
        /// With this code.
        code: i32,
    },
    /// The name cannot be looked up.
    BadName,
}

/// Why a specification has no number.
#[derive(Clone, Copy, Debug, PartialEq, Eq, Structural)]
pub enum OwnershipError {
    /// There is no such name.
    Missing,
    /// Looking it up failed.
    Failed {
        /// With this code.
        code: i32,
    },
    /// The name cannot be looked up.
    BadName,
}

/// The number a specification stands for, given what looking it up as a name
/// came to.
pub open spec fn resolved(spec: Seq<char>, lookup: Lookup) -> Result<u32, OwnershipError> {
    match numeric_id(spec) {
        Some(id) => Ok(id),
        None => match lookup {
            Lookup::Found(id) => Ok(id),
            Lookup::Missing => Err(OwnershipError::Missing),
            Lookup::Failed { code } => Err(OwnershipError::Failed { code }),
            Lookup::BadName => Err(OwnershipError::BadName),
        },
    }
}

fn resolve(spec: &str, lookup: Lookup) -> (r: Result<u32, OwnershipError>)
    ensures
        r == resolved(spec@, lookup),
{
    if let Some(id) = numeric(spec) {
        return Ok(id);
    }
    match lookup {
        Lookup::Found(id) => Ok(id),
        Lookup::Missing => Err(OwnershipError::Missing),
        Lookup::Failed { code } => Err(OwnershipError::Failed { code }),
        Lookup::BadName => Err(OwnershipError::BadName),
    }
}

/// The user a specification stands for, given what the user database says of
/// it. One that gives a number needs no database.
pub fn resolve_user(spec: &str, lookup: Lookup) -> (r: Result<u32, OwnershipError>)
    ensures
        r == resolved(spec@, lookup),
{
    resolve(spec, lookup)
}

/// The group a specification stands for, given what the group database says of
/// it. One that gives a number needs no database.
pub fn resolve_group(spec: &str, lookup: Lookup) -> (r: Result<u32, OwnershipError>)
    ensures
        r == resolved(spec@, lookup),
{
    resolve(spec, lookup)
}

/// The room that looking a name up begins with.
pub const FIRST_CAPACITY: usize = 1024;

/// What follows asking a database.
#[derive(Clone, Copy, Debug, PartialEq, Eq, Structural)]
pub enum LookupStep {
    /// It is asked again, with more room.
    Retry {
        /// The room.
        capacity: usize,
    },
    /// It has answered.
    Done(Lookup),
}

/// What follows asking a database.
pub open spec fn next_lookup(
    status: i32,
    too_small: i32,
    found: Option<u32>,
    capacity: usize,
) -> LookupStep {
    if status == too_small {
        LookupStep::Retry { capacity: (capacity * 2) as usize }
    } else if status != 0 {
        LookupStep::Done(Lookup::Failed { code: status })
    } else {
        match found {
            Some(id) => LookupStep::Done(Lookup::Found(id)),
            None => LookupStep::Done(Lookup::Missing),
        }
    }
}

/// What follows asking a database, by the status it gave, the one that means
/// that there was too little room, and the number it found.
pub fn after_lookup(status: i32, too_small: i32, found: Option<u32>, capacity: usize) -> (r:
    LookupStep)
    requires
        capacity <= usize::MAX / 2,
    ensures
        r == next_lookup(status, too_small, found, capacity),
{
    if status == too_small {
        return LookupStep::Retry { capacity: capacity * 2 };
    }
    if status != 0 {
        return LookupStep::Done(Lookup::Failed { code: status });
    }
    match found {
        Some(id) => LookupStep::Done(Lookup::Found(id)),
        None => LookupStep::Done(Lookup::Missing),
    }
}

/// A number stands for itself, with `id:` before it or not, as long as it is
/// one that an account can have; what is no number is looked up.
pub proof fn law_a_number_is_its_own_account(n: nat, name: Seq<char>, lookup: Lookup)
    ensures
        n < 4294967295 ==> numeric_id(crate::text::decimal_text(n)) == Some(n as u32),
        n < 4294967295 ==> numeric_id("id:"@ + crate::text::decimal_text(n)) == Some(n as u32),
        n >= 4294967295 ==> numeric_id(crate::text::decimal_text(n)) is None,
        n < 4294967295 ==> resolved(crate::text::decimal_text(n), lookup) == Ok::<
            u32,
            OwnershipError,
        >(n as u32),
        numeric_id(name) is None ==> (resolved(name, lookup) is Ok <==> lookup is Found),
        numeric_id(name) is None && lookup is Found ==> resolved(name, lookup) == Ok::<
            u32,
            OwnershipError,
        >(lookup->Found_0),
        numeric_id(name) is None && lookup is Missing ==> resolved(name, lookup) == Err::<
            u32,
            OwnershipError,
        >(OwnershipError::Missing),
{
    crate::text::law_a_number_reads_back(n);
    crate::scan::probes::lemma_decimal_digits(n);
    let digits = crate::text::decimal_text(n);
    reveal_strlit("id:");
    let marked = "id:"@ + digits;
    assert(marked.take(3) =~= "id:"@);
    assert(marked.skip(3) =~= digits);
    assert(digits[0] != '+' && digits[0] != 'i');
    if has_prefix(digits, "id:"@) {
        assert(digits.take(3)[0] == 'i');
    }
}

/// Too little room is doubled and asked again; any other status but zero is a
/// failure that is told; and after zero the account was found or there is none.
pub proof fn law_a_lookup_is_tried_again_with_more_room(
    status: i32,
    too_small: i32,
    id: u32,
    capacity: usize,
)
    requires
        capacity <= usize::MAX / 2,
    ensures
        forall|found: Option<u32>| #[trigger]
            next_lookup(too_small, too_small, found, capacity) matches LookupStep::Retry {
                capacity: more,
            } && more == capacity + capacity,
        status != too_small && status != 0 ==> forall|found: Option<u32>| #[trigger]
            next_lookup(status, too_small, found, capacity) == LookupStep::Done(
                Lookup::Failed { code: status },
            ),
        too_small != 0 ==> next_lookup(0, too_small, Some(id), capacity) == LookupStep::Done(
            Lookup::Found(id),
        ) && next_lookup(0, too_small, None, capacity) == LookupStep::Done(Lookup::Missing),
{
}

/// A number may be spelled with a plus sign before it, and with one only.
pub proof fn law_a_number_may_have_a_plus_sign(digits: Seq<char>)
    requires
        digits.len() > 0,
        digits[0] != '+',
    ensures
        spelled(seq!['+'] + digits) == number(digits),
        spelled(digits) == number(digits),
{
    assert((seq!['+'] + digits)[0] == '+');
    assert((seq!['+'] + digits).skip(1) =~= digits);
}

} // verus!
