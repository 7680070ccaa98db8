//! Writing derived state in the background.
//!
//! A writer holds at most one state that waits to be written: a newer one
//! takes its place, since the older is superseded already. Losing a state
//! costs a full scan and nothing else, so a failed write is passed over.
use crate::text::string_of;
use vstd::prelude::*;

verus! {

/// How long the writer waits for a newer state before it encodes the one it
/// holds, in milliseconds.
pub const COALESCING_WINDOW: u64 = 250;

/// What the owner of a writer and its thread share. A state is known by the
/// number of the call that stored it.
#[derive(Clone, Copy, Debug)]
pub struct Slot {
    /// The state that waits to be written, if any.
    pub pending: Option<u64>,
    /// Whether the owner has asked the writer to finish.
    pub stopping: bool,
    /// Whether the writer has nothing to do.
    pub idle: bool,
    /// Whether the writer is gone.
    pub finished: bool,
}

/// What the writer does next.
#[derive(Clone, Copy, Debug, PartialEq, Eq, Structural)]
pub enum Turn {
    /// It waits.
    Wait,
    /// It ends: all that was stored is written.
    End,
    /// It takes a state, and waits for a newer one before it encodes.
    Hold(u64),
    /// It takes a state and encodes it at once.
    Encode(u64),
}

/// Whether all that was stored is written, or never will be.
pub open spec fn flushed(slot: Slot) -> bool {
    slot.finished || (slot.pending is None && slot.idle)
}

impl Slot {
    /// Nothing is stored.
    pub fn new() -> (r: Slot)
        ensures
            r == (Slot { pending: None, stopping: false, idle: false, finished: false }),
    {
        Slot { pending: None, stopping: false, idle: false, finished: false }
    }

    /// Stores a state, in place of one that was not yet taken.
    pub fn store(&mut self, state: u64)
        ensures
            *final(self) == (Slot { pending: Some(state), ..*old(self) }),
    {
        self.pending = Some(state);
    }

    /// Asks the writer to finish.
    pub fn stop(&mut self)
        ensures
            *final(self) == (Slot { stopping: true, ..*old(self) }),
    {
        self.stopping = true;
    }

    /// What the writer does next. One that is asked to finish still writes
    /// what is stored, without waiting for something newer.
    pub fn turn(&mut self) -> (r: Turn)
        ensures
            r == (match old(self).pending {
                Some(state) => if old(self).stopping {
                    Turn::Encode(state)
                } else {
                    Turn::Hold(state)
                },
                None => if old(self).stopping {
                    Turn::End
                } else {
                    Turn::Wait
                },
            }),
            *final(self) == (Slot { pending: None, idle: r == Turn::Wait, ..*old(self) }),
            r == turn_of(*old(self)),
    {
        match self.pending {
            Some(state) => {
                self.pending = None;
                self.idle = false;
                if self.stopping {
                    Turn::Encode(state)
                } else {
                    Turn::Hold(state)
                }
            },
            None => if self.stopping {
                self.idle = false;
                Turn::End
            } else {
                self.idle = true;
                Turn::Wait
            },
        }
    }

    /// The state that is encoded after the wait: the newest one.
    pub fn newest(&mut self, held: u64) -> (r: u64)
        ensures
            r == (match old(self).pending {
                Some(state) => state,
                None => held,
            }),
            *final(self) == (Slot { pending: None, ..*old(self) }),
    {
        match self.pending {
            Some(state) => {
                self.pending = None;
                state
            },
            None => held,
        }
    }

    /// The writer is gone, whatever the reason: nobody may wait for it.
    pub fn retire(&mut self)
        ensures
            *final(self) == (Slot { idle: true, finished: true, ..*old(self) }),
    {
        self.finished = true;
        self.idle = true;
    }

    /// Whether all that was stored is written, or never will be.
    pub fn is_flushed(&self) -> (r: bool)
        ensures
            r == flushed(*self),
    {
        self.finished || (self.pending.is_none() && self.idle)
    }
}

/// What the writer does next.
pub open spec fn turn_of(slot: Slot) -> Turn {
    match slot.pending {
        Some(state) => if slot.stopping {
            Turn::Encode(state)
        } else {
            Turn::Hold(state)
        },
        None => if slot.stopping {
            Turn::End
        } else {
            Turn::Wait
        },
    }
}

/// What a slot holds after a store.
pub open spec fn stored(slot: Slot, state: u64) -> Slot {
    Slot { pending: Some(state), ..slot }
}

/// What a slot holds after some stores, one after the other.
pub open spec fn stored_all(slot: Slot, states: Seq<u64>) -> Slot
    decreases states.len(),
{
    if states.len() == 0 {
        slot
    } else {
        stored(stored_all(slot, states.drop_last()), states.last())
    }
}

/// Of several states that are stored before the writer takes its turn, only
/// the last is kept.
pub proof fn law_the_last_state_is_kept(slot: Slot, states: Seq<u64>)
    requires
        states.len() > 0,
    ensures
        stored_all(slot, states).pending == Some(states.last()),
{
}

/// The permissions of a file that is written anew.
pub open spec fn mode_after(replaced: Option<u32>) -> u32 {
    match replaced {
        Some(mode) => mode & 0xfff,
        None => 0x180,
    }
}

/// The permissions of a file that is written anew: those of the file it
/// replaces, or the owner's alone.
pub fn kept_mode(replaced: Option<u32>) -> (r: u32)
    ensures
        r == mode_after(replaced),
{
    match replaced {
        Some(mode) => mode & 0xfff,
        None => 0x180,
    }
}

/// The last name of a path, if it has one.
pub open spec fn file_name(path: Seq<char>) -> Option<Seq<char>> {
    let parts = crate::command::select::steps(path);
    if parts.len() == 0 || parts.last() == ".."@ || parts.last() == "."@ {
        None
    } else {
        Some(parts.last())
    }
}

/// The name of the temporary that a file is written to first: hidden, and one
/// that nobody can guess.
pub fn temporary_name(path: &str, suffix: &str) -> (r: Option<String>)
    ensures
        match file_name(path@) {
            Some(name) => r matches Some(text) && text@ == "."@ + name + ".tmp."@ + suffix@,
            None => r is None,
        },
{
    let parts = crate::command::select::steps_of(path);
    assert(crate::text::texts(parts@).len() == parts@.len());
    if parts.len() == 0 {
        return None;
    }
    let last = string_of(parts[parts.len() - 1].as_slice());
    assert(last@ == crate::command::select::steps(path@).last());
    if crate::text::same_text(last.as_str(), "..") || crate::text::same_text(last.as_str(), ".") {
        return None;
    }
    let mut r = ".".to_owned();
    r.append(last.as_str());
    r.append(".tmp.");
    r.append(suffix);
    Some(r)
}

/// A file that is written anew has exactly the permissions of the one that it
/// replaces, whatever kind that was; a new one can be read and written by its
/// owner and by no one else.
pub proof fn law_a_file_keeps_its_permissions(mode: u32)
    ensures
        mode_after(Some(mode)) == mode % 0o10000,
        mode_after(None) == 0o600,
{
    assert(mode & 0xfff == mode % 0o10000) by (bit_vector);
}

/// A writer that is asked to end does so only once nothing is stored: what was
/// stored last is written first, at once. One that is not asked to holds what
/// is stored for something newer, and waits where nothing is.
pub proof fn law_nothing_stored_is_lost_at_the_end(slot: Slot, state: u64)
    ensures
        turn_of(slot) is End <==> slot.stopping && slot.pending is None,
        turn_of(stored(slot, state)) == (if slot.stopping {
            Turn::Encode(state)
        } else {
            Turn::Hold(state)
        }),
        turn_of(slot) is Wait <==> !slot.stopping && slot.pending is None,
{
}

/// The last name of a path is what stands behind its last separator.
pub proof fn law_the_last_name_is_behind_the_last_separator(above: Seq<char>, name: Seq<char>)
    requires
        name.len() > 0,
        !name.contains('/'),
        name != "."@,
        name != ".."@,
    ensures
        file_name(name) == Some(name),
        file_name(above + seq!['/'] + name) == Some(name),
        file_name(above + seq!['/'] + ".."@) is None,
{
    reveal_strlit(".");
    reveal_strlit("..");
    assert("."@ =~= seq!['.']);
    crate::command::select::law_a_name_is_a_step(above, name);
    assert(".."@.len() == 2);
    crate::command::select::law_a_name_is_a_step(above, ".."@);
}

/// What waits is not flushed while someone is there to write it, nor is what
/// is being written; a writer that is gone is waited for by nobody.
pub proof fn law_what_waits_is_not_flushed(slot: Slot)
    ensures
        !slot.finished && slot.pending is Some ==> !flushed(slot),
        !slot.finished && !slot.idle ==> !flushed(slot),
        slot.finished ==> flushed(slot),
        slot.idle && slot.pending is None ==> flushed(slot),
{
}

} // verus!
