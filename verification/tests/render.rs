use term_columns::arrange::{arrange, arrange_bytes, measure_lines};
use term_columns::item::Item;
use term_columns::layout::MAX_WIDTH;
use term_columns::measure::term_printable_len;
use term_columns::render::write_result;
use term_columns::text::{decode, split_lines, InputError};

fn sized<'a>(cells: &[(&'a str, u16)]) -> Vec<Item<'a>> {
    cells.iter().map(|(content, len)| Item { content: *content, len: *len }).collect()
}

#[test]
fn one_row_of_three_columns() {
    let input = measure_lines(&["a", "bb", "ccc"]);
    assert_eq!(write_result(3, &[1, 2, 3], &input), vec!["a  bb  ccc"]);
}

#[test]
fn three_items_within_ten_columns() {
    let out = arrange(10, &["a", "bb", "ccc"]);
    assert_eq!(out, vec!["a  bb  ccc"]);
    assert_eq!(out[0].len(), 10);
}

#[test]
fn items_are_padded_to_their_columns() {
    let input = measure_lines(&["a", "bb", "ccc", "dddd", "e", "f"]);
    let out = write_result(3, &[4, 2, 3], &input);
    assert_eq!(out, vec!["a     bb  ccc", "dddd  e   f"]);
}

#[test]
fn last_row_may_be_short_and_ends_without_blanks() {
    let input = measure_lines(&["a", "bb", "ccc", "dddd", "e"]);
    let out = write_result(3, &[4, 2, 3], &input);
    assert_eq!(out, vec!["a     bb  ccc", "dddd  e"]);
    let out = write_result(2, &[3, 4], &input);
    assert_eq!(out, vec!["a    bb", "ccc  dddd", "e"]);
}

#[test]
fn single_column_has_no_blanks() {
    let input = measure_lines(&["a", "bb"]);
    assert_eq!(write_result(1, &[2], &input), vec!["a", "bb"]);
}

#[test]
fn no_items_give_no_rows() {
    assert!(write_result(3, &[0, 0, 0], &[]).is_empty());
}

#[test]
fn blanks_go_by_the_recorded_width() {
    let input = sized(&[("\x1B[1mab\x1B[0m", 2), ("c", 1)]);
    assert_eq!(write_result(2, &[5, 1], &input), vec!["\x1B[1mab\x1B[0m     c"]);
}

#[test]
fn item_wider_than_its_column_eats_into_the_padding() {
    let input = sized(&[("abc", 3), ("d", 1)]);
    assert_eq!(write_result(2, &[2, 1], &input), vec!["abc d"]);
    let input = sized(&[("abcd", 4), ("d", 1)]);
    assert_eq!(write_result(2, &[2, 1], &input), vec!["abcdd"]);
}

#[test]
fn widest_columns_do_not_wrap_around() {
    let input = sized(&[("a", 65_535), ("b", 1)]);
    assert_eq!(write_result(2, &[u16::MAX, 1], &input), vec!["a  b"]);
}

#[test]
fn wide_line_is_passed_through() {
    let out = arrange(10, &["aaaaaaaaaaaa", "b"]);
    assert_eq!(out, vec!["aaaaaaaaaaaa", "b"]);
}

#[test]
fn no_lines_give_no_lines() {
    assert!(arrange(MAX_WIDTH, &[]).is_empty());
    assert_eq!(arrange_bytes(MAX_WIDTH, b""), Ok(vec![]));
}

#[test]
fn single_line_is_passed_through() {
    assert_eq!(arrange(MAX_WIDTH, &["only"]), vec!["only"]);
    assert_eq!(arrange(MAX_WIDTH, &[""]), vec![""]);
    assert_eq!(arrange_bytes(MAX_WIDTH, b"only\n"), Ok(vec![String::from("only")]));
}

#[test]
fn lines_fill_the_rows_from_left_to_right() {
    let out = arrange(12, &["1", "2", "3", "4", "5", "6", "7", "8", "9"]);
    assert_eq!(out, vec!["1  2  3  4", "5  6  7  8", "9"]);
}

#[test]
fn bell_does_not_widen_its_column() {
    assert_eq!(term_printable_len("a\x07"), 1);
    let out = arrange(5, &["a\x07", "bb", "c", "dd"]);
    assert_eq!(out, vec!["a\x07  bb", "c  dd"]);
}

#[test]
fn escape_sequences_do_not_widen_their_column() {
    let out = arrange(7, &["\x1B[31mred\x1B[0m", "x", "ab", "y"]);
    assert_eq!(out, vec!["\x1B[31mred\x1B[0m  x", "ab   y"]);
}

#[test]
fn rows_stay_within_the_budget() {
    let lines = [
        "alpha", "beta", "gamma", "delta", "epsilon", "zeta", "eta", "theta", "iota", "kappa",
        "lambda", "mu", "nu", "xi", "omicron", "pi", "rho", "sigma", "tau", "upsilon",
    ];
    for budget in [0u16, 1, 7, 8, 9, 10, 20, 33, 40, 80, MAX_WIDTH, 500] {
        let out = arrange(budget, &lines);
        if out.len() == lines.len() {
            assert_eq!(out, lines);
        } else {
            for row in &out {
                assert!(row.chars().count() <= usize::from(budget));
            }
            let words: Vec<&str> = out.iter().flat_map(|row| row.split_whitespace()).collect();
            assert_eq!(words, lines);
        }
    }
}

#[test]
fn default_budget_holds_a_row_of_120_columns() {
    let a = "a".repeat(59);
    let b = "b".repeat(59);
    let out = arrange(MAX_WIDTH, &[&a, &b]);
    assert_eq!(out, vec![format!("{}  {}", a, b)]);
    let c = "c".repeat(60);
    let out = arrange(MAX_WIDTH, &[&a, &c]);
    assert_eq!(out, vec![a.clone(), c.clone()]);
}

#[test]
fn input_is_split_into_lines() {
    assert_eq!(split_lines("a\nbb\nccc"), vec!["a", "bb", "ccc"]);
    assert_eq!(split_lines("a\nbb\nccc\n"), vec!["a", "bb", "ccc"]);
    assert_eq!(split_lines("a\r\nbb\r\n"), vec!["a", "bb"]);
    assert_eq!(split_lines("a\n\nb"), vec!["a", "", "b"]);
    assert_eq!(split_lines("\n"), vec![""]);
    assert_eq!(split_lines("\r\n"), vec![""]);
    assert!(split_lines("").is_empty());
}

#[test]
fn carriage_return_alone_ends_no_line() {
    assert_eq!(split_lines("a\rb"), vec!["a\rb"]);
    assert_eq!(split_lines("a\r"), vec!["a\r"]);
    assert_eq!(split_lines("a\r\r\nb"), vec!["a\r", "b"]);
    assert_eq!(split_lines("\r"), vec!["\r"]);
}

#[test]
fn lines_are_those_of_the_standard_library() {
    for text in [
        "",
        "\n",
        "\n\n",
        "a",
        "a\n",
        "a\r\n",
        "a\r",
        "a\r\r\n",
        "\r\n\r\n",
        "one\ntwo\r\nthree",
        "héllo\nwörld\n",
        "日本語\r\n語\n",
        "tab\there\n\x1B[1mbold\x1B[0m\n",
        "\n trailing \n\n",
    ] {
        let expected: Vec<&str> = text.lines().collect();
        assert_eq!(split_lines(text), expected);
    }
}

#[test]
fn valid_input_is_decoded() {
    assert_eq!(decode(b"plain"), Ok("plain"));
    assert_eq!(decode("h\u{e9}llo \u{65e5}\u{672c}".as_bytes()), Ok("héllo 日本"));
    assert_eq!(decode(&[0xF0, 0x9F, 0x98, 0x80]), Ok("\u{1F600}"));
    assert_eq!(decode(b""), Ok(""));
    assert_eq!(decode(&[0xE2, 0x82, 0xAC]), Ok("€"));
}

#[test]
fn invalid_input_is_refused() {
    assert_eq!(decode(&[0xFF]), Err(InputError::InvalidUtf8));
    assert_eq!(decode(&[b'a', 0x80]), Err(InputError::InvalidUtf8));
    assert_eq!(decode(&[0xE2, 0x82]), Err(InputError::InvalidUtf8));
    assert_eq!(decode(&[0xC0, 0xAF]), Err(InputError::InvalidUtf8));
    assert_eq!(decode(&[0xED, 0xA0, 0x80]), Err(InputError::InvalidUtf8));
    assert_eq!(decode(&[0xF4, 0x90, 0x80, 0x80]), Err(InputError::InvalidUtf8));
    assert_eq!(arrange_bytes(MAX_WIDTH, b"ok\n\xFFbad\n"), Err(InputError::InvalidUtf8));
}

#[test]
fn bytes_are_arranged_line_by_line() {
    assert_eq!(arrange_bytes(10, b"a\nbb\nccc\n"), Ok(vec![String::from("a  bb  ccc")]));
    assert_eq!(arrange_bytes(10, b"a\r\nbb\r\nccc"), Ok(vec![String::from("a  bb  ccc")]));
    assert_eq!(
        arrange_bytes(10, b"aaaaaaaaaaaa\nb\n"),
        Ok(vec![String::from("aaaaaaaaaaaa"), String::from("b")])
    );
    assert_eq!(
        arrange_bytes(8, "é\nüü\nß\n".as_bytes()),
        Ok(vec![String::from("é  üü  ß")])
    );
}

#[test]
fn lines_of_a_text_with_many_encodings_are_found_by_their_bytes() {
    let text = "a\u{85}b\n\u{2028}c\r\n\u{10A}\u{A}\u{D}\n\u{10D}";
    let expected: Vec<&str> = text.lines().collect();
    assert_eq!(split_lines(text), expected);
    assert_eq!(split_lines(text), vec!["a\u{85}b", "\u{2028}c", "\u{10A}", "", "\u{10D}"]);
}

#[test]
fn rows_of_a_grid_are_shown_within_the_budget() {
    let lines = ["\x1B[1mab\x1B[0m", "c\td", "\x1B[", "m\x1B", "efg", "\x07"];
    for budget in 0u16..30 {
        let out = arrange(budget, &lines);
        if out.len() < lines.len() {
            for row in &out {
                assert!(term_printable_len(row) <= budget);
            }
        } else {
            assert_eq!(out, lines);
        }
    }
}
