use term_columns::item::Item;
use term_columns::measure::{is_control_code, term_printable_len};

#[test]
fn empty_line_has_no_width() {
    assert_eq!(term_printable_len(""), 0);
}

#[test]
fn plain_text_counts_every_character() {
    assert_eq!(term_printable_len("hello"), 5);
    assert_eq!(term_printable_len("hello world"), 11);
    assert_eq!(term_printable_len(" "), 1);
}

#[test]
fn every_character_counts_once_whatever_its_encoding() {
    assert_eq!(term_printable_len("héllo"), 5);
    assert_eq!(term_printable_len("日本語"), 3);
    assert_eq!(term_printable_len("a\u{1F600}b"), 3);
}

#[test]
fn tab_takes_no_column() {
    assert_eq!(term_printable_len("\t"), 0);
    assert_eq!(term_printable_len("a\tb"), 2);
}

#[test]
fn bell_takes_no_column() {
    assert_eq!(term_printable_len("\x07"), 0);
    assert_eq!(term_printable_len("ding\x07dong"), 8);
}

#[test]
fn control_codes_take_no_column() {
    assert_eq!(term_printable_len("\0"), 0);
    assert_eq!(term_printable_len("\x1F"), 0);
    assert_eq!(term_printable_len("\x7F"), 0);
    assert_eq!(term_printable_len("\u{80}"), 0);
    assert_eq!(term_printable_len("\u{9F}"), 0);
    assert_eq!(term_printable_len("a\rb\nc"), 3);
}

#[test]
fn neighbours_of_the_control_codes_are_counted() {
    assert_eq!(term_printable_len("\x20"), 1);
    assert_eq!(term_printable_len("\x7E"), 1);
    assert_eq!(term_printable_len("\u{A0}"), 1);
}

#[test]
fn escape_sequence_takes_no_column() {
    assert_eq!(term_printable_len("\x1B[31m"), 0);
    assert_eq!(term_printable_len("\x1B[0m"), 0);
    assert_eq!(term_printable_len("\x1B[1;38;5;200m"), 0);
}

#[test]
fn wrapped_text_is_as_wide_as_the_text() {
    for text in ["", "hello", "a b c", "日本語", "a\tb", "x\x1B[1my"] {
        let wrapped = format!("\x1B[31m{}\x1B[0m", text);
        assert_eq!(term_printable_len(&wrapped), term_printable_len(text));
    }
    assert_eq!(term_printable_len("\x1B[31mhello\x1B[0m"), 5);
}

#[test]
fn only_m_ends_an_escape_sequence() {
    assert_eq!(term_printable_len("\x1B[2Kabc"), 0);
    assert_eq!(term_printable_len("\x1B[2Kabcmde"), 2);
    assert_eq!(term_printable_len("ab\x1B[1;2"), 2);
}

#[test]
fn escape_inside_an_escape_sequence_keeps_it_open() {
    assert_eq!(term_printable_len("\x1B[\x1B[0mab"), 2);
    assert_eq!(term_printable_len("\x1B\x1B\x1Bmab"), 2);
}

#[test]
fn m_outside_an_escape_sequence_is_counted() {
    assert_eq!(term_printable_len("mm"), 2);
    assert_eq!(term_printable_len("\x1B[0mm"), 1);
}

#[test]
fn control_character_inside_an_escape_sequence_changes_nothing() {
    assert_eq!(term_printable_len("\x1B[\t1mab"), 2);
}

#[test]
fn width_stops_at_the_largest_u16() {
    let long = "a".repeat(70_000);
    assert_eq!(term_printable_len(&long), u16::MAX);
    let exact = "a".repeat(65_535);
    assert_eq!(term_printable_len(&exact), 65_535);
    let below = "a".repeat(65_534);
    assert_eq!(term_printable_len(&below), 65_534);
}

#[test]
fn measuring_twice_gives_the_same_width() {
    let line = "\x1B[1mbold\x1B[0m and\tplain";
    let first = term_printable_len(line);
    let second = term_printable_len(line);
    assert_eq!(first, second);
    assert_eq!(first, 13);
    let copy = String::from(line);
    assert_eq!(term_printable_len(&copy), first);
}

#[test]
fn item_records_text_and_width() {
    let item = Item::new("\x1B[32mok\x1B[0m");
    assert_eq!(item.content, "\x1B[32mok\x1B[0m");
    assert_eq!(item.len, 2);
}

#[test]
fn control_codes_are_those_of_the_standard_library() {
    for code in 0u32..=0x10FFFF {
        if let Some(c) = char::from_u32(code) {
            assert_eq!(is_control_code(c), c.is_control());
        }
    }
    assert!(is_control_code('\x1B'));
    assert!(is_control_code('\t'));
    assert!(!is_control_code(' '));
    assert!(!is_control_code('m'));
}
