//! The pager's frames and keys.
use autobahn::pager::{keys, paint, scroll, truncate, window_rows, Key};

#[test]
fn truncation_counts_columns_and_not_escape_sequences() {
    // Colour occupies no columns, and survives the truncation: a line cut
    // mid-sequence would leak escapes into the rest of the screen.
    let coloured = "\x1b[1mabcdef\x1b[0m";
    assert_eq!(truncate(coloured, 10), coloured);
    let cut = truncate(coloured, 3);
    assert!(cut.starts_with("\x1b[1m"), "{cut:?}");
    assert!(cut.ends_with("\x1b[0m"), "{cut:?}");
    assert!(cut.contains("ab…"), "{cut:?}");

    // A line that fits is untouched.
    assert_eq!(truncate("short", 80), "short");
}

#[test]
fn a_sequence_at_the_cut_stays_whole() {
    let cut = truncate("a\x1b[31mb\x1b[32mcd", 2);
    assert!(!cut.contains("\x1b…"), "{cut:?}");
    assert!(cut.contains("a"), "{cut:?}");
    assert!(cut.contains('…'), "{cut:?}");
}

#[test]
fn the_footer_reports_the_window_onto_the_content() {
    let lines: Vec<String> = (0..100).map(|index| format!("line {index}")).collect();

    let frame = paint(&lines, 0, 10, 80, "watching");
    assert!(frame.contains("line 0"));
    assert!(frame.contains("line 9"));
    assert!(!frame.contains("line 10"));
    assert!(frame.contains("1–10 of 100"), "{frame:?}");

    // Scrolled, the window moves and the footer says where it is.
    let frame = paint(&lines, 40, 10, 80, "watching");
    assert!(frame.contains("line 40"));
    assert!(frame.contains("41–50 of 100"));

    // Content that fits offers no scrolling keys, only the way out.
    let frame = paint(&lines[..4], 0, 10, 80, "watching");
    assert!(frame.contains("4 lines"));
    assert!(frame.contains("q quit"));
    assert!(!frame.contains("PgUp"));
}

#[test]
fn a_short_window_is_padded_so_the_previous_frame_does_not_show_through() {
    // Four lines painted into a ten-line window must clear the other six, or
    // the frame before this one stays visible beneath it.
    let lines = ["a", "b", "c", "d"].map(str::to_owned);
    let frame = paint(&lines, 0, 10, 80, "watching");
    assert_eq!(frame.matches("\x1b[K").count(), 4 + 6 + 1);
}

#[test]
fn keys_are_read_from_the_sequences_terminals_actually_send() {
    fn parse(bytes: &[u8]) -> Vec<&'static str> {
        keys(bytes)
            .into_iter()
            .map(|key| match key {
                Key::Up => "up",
                Key::Down => "down",
                Key::PageUp => "pageup",
                Key::PageDown => "pagedown",
                Key::Top => "top",
                Key::Bottom => "bottom",
                Key::Quit => "quit",
            })
            .collect()
    }
    assert_eq!(parse(b"\x1b[A"), ["up"]);
    assert_eq!(parse(b"\x1b[B\x1b[B"), ["down", "down"]);
    assert_eq!(parse(b"\x1b[6~"), ["pagedown"]);
    assert_eq!(parse(b"jjq"), ["down", "down", "quit"]);
    // An unrecognized sequence is skipped whole, not read as its parts.
    assert_eq!(parse(b"\x1b[Zq"), ["quit"]);
    assert_eq!(parse(b"\x1b[5~gG"), ["pageup", "top", "bottom"]);
}

#[test]
fn scrolling_stays_within_the_content() {
    assert_eq!(window_rows(24), 23);
    assert_eq!(scroll(0, &[Key::Up], 10, 100), Some(0));
    assert_eq!(scroll(0, &[Key::Down, Key::Down], 10, 100), Some(2));
    assert_eq!(scroll(0, &[Key::Bottom, Key::Down], 10, 100), Some(90));
    assert_eq!(scroll(5, &[Key::Quit], 10, 100), None);
    assert_eq!(scroll(50, &[Key::Top], 10, 100), Some(0));
}

#[test]
fn a_sequence_with_parameters_is_skipped_to_its_end() {
    assert!(keys(b"\x1b[1;1f").is_empty());
    assert!(keys(b"\x1b[38;5;2m").is_empty());
    assert_eq!(keys(b"\x1b[1;5Aq").len(), 1);
    assert!(matches!(keys(b"\x1b[1;5Aq")[0], Key::Quit));
    assert!(matches!(keys(b"\x1b[1~")[..], [Key::Top]));
    assert!(matches!(keys(b"\x1b[4~j")[..], [Key::Bottom, Key::Down]));
    // One that breaks off is over where it does.
    assert!(keys(b"\x1b[1;").is_empty());
    assert!(matches!(keys(b"\x1b[\x03")[..], [Key::Quit]));
}
