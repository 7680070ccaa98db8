//! The slot between a writer and its states.
use autobahn::persist::{kept_mode, temporary_name, Slot, Turn};

#[test]
fn the_latest_queued_state_is_what_lands() {
    let mut slot = Slot::new();
    for generation in 0..50 {
        slot.store(generation);
    }
    assert!(!slot.is_flushed());
    let held = match slot.turn() {
        Turn::Hold(held) => held,
        other => panic!("{other:?}"),
    };
    // One more arrives while the window is held open.
    slot.store(99);
    assert_eq!(slot.newest(held), 99);
    assert!(matches!(slot.turn(), Turn::Wait));
    assert!(slot.is_flushed());
}

#[test]
fn dropping_the_writer_flushes_what_was_queued() {
    let mut slot = Slot::new();
    slot.store(7);
    slot.stop();
    assert!(matches!(slot.turn(), Turn::Encode(7)));
    assert!(matches!(slot.turn(), Turn::End));
    slot.retire();
    assert!(slot.is_flushed());
}

#[test]
fn a_panicking_encoder_does_not_strand_a_flusher() {
    let mut slot = Slot::new();
    slot.store(1);
    let _ = slot.turn();
    // The writer is gone; a waiter is released all the same.
    slot.retire();
    assert!(slot.is_flushed());
    slot.store(2);
    assert!(slot.is_flushed());
}

/// The states the writer encodes when `stored` arrive before it looks.
fn encoded(stored: std::ops::Range<u64>) -> Vec<u64> {
    let mut slot = Slot::new();
    for state in stored {
        slot.store(state);
    }
    slot.stop();
    let mut encoded = Vec::new();
    loop {
        match slot.turn() {
            Turn::Wait | Turn::End => return encoded,
            Turn::Hold(held) => encoded.push(slot.newest(held)),
            Turn::Encode(state) => encoded.push(state),
        }
    }
}

#[test]
fn superseded_states_are_never_encoded() {
    let encoded = encoded(0..200);
    assert!(!encoded.is_empty(), "nothing was ever encoded");
    assert!(encoded.len() < 200, "{} of 200 states were encoded", encoded.len());
    assert_eq!(encoded.last(), Some(&199));
}

#[test]
fn a_state_superseded_within_the_window_is_never_encoded() {
    let mut slot = Slot::new();
    slot.store(1);
    let held = match slot.turn() {
        Turn::Hold(held) => held,
        other => panic!("{other:?}"),
    };
    slot.store(2);
    assert_eq!(slot.newest(held), 2);
    assert!(matches!(slot.turn(), Turn::Wait));
}

#[test]
fn a_panicking_encoder_does_not_wedge_the_writer() {
    let mut slot = Slot::new();
    slot.store(1);
    let _ = slot.turn();
    slot.retire();
    // The writer is now gone: storing and flushing must still return.
    slot.store(2);
    assert!(slot.is_flushed());
}

#[test]
fn a_new_state_file_is_private() {
    assert_eq!(kept_mode(None), 0o600);
}

#[test]
fn a_rewrite_keeps_the_mode_of_the_file_it_replaces() {
    for kept in [0o600, 0o640, 0o644] {
        assert_eq!(kept_mode(Some(0o100000 | kept)), kept, "{kept:04o} was not kept");
    }
}

#[test]
fn a_temporary_stands_beside_the_file() {
    let name = temporary_name("/state/ancestor", "x1y2").expect("a name");
    assert_eq!(name, ".ancestor.tmp.x1y2");
    assert_ne!(name, temporary_name("/state/ancestor", "z3").expect("a name"));
    assert_eq!(temporary_name("/", "x1y2"), None);
}
