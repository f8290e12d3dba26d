use term_columns::item::Item;
use term_columns::layout::{solve, summarise_widths, LayoutResult, MAX_WIDTH, PADDING};

fn items<'a>(lines: &[&'a str]) -> Vec<Item<'a>> {
    lines.iter().map(|line| Item::new(line)).collect()
}

fn sized(lens: &[u16]) -> Vec<Item<'static>> {
    lens.iter().map(|len| Item { content: "", len: *len }).collect()
}

fn feasible(result: LayoutResult) -> Option<(u16, Vec<u16>)> {
    match result {
        LayoutResult::Feasible { num_cols, widths } => Some((num_cols, widths)),
        LayoutResult::Infeasible => None,
    }
}

#[test]
fn defaults() {
    assert_eq!(MAX_WIDTH, 120);
    assert_eq!(PADDING, 2);
}

#[test]
fn three_items_fit_in_three_columns() {
    let input = items(&["a", "bb", "ccc"]);
    let mut widths = Vec::new();
    assert!(summarise_widths(10, 3, &mut widths, &input));
    assert_eq!(widths, vec![1, 2, 3]);
}

#[test]
fn three_items_do_not_fit_in_three_columns_of_a_narrower_budget() {
    let input = items(&["a", "bb", "ccc"]);
    let mut widths = Vec::new();
    assert!(!summarise_widths(9, 3, &mut widths, &input));
}

#[test]
fn column_is_as_wide_as_its_widest_item() {
    let input = sized(&[1, 5, 3, 2, 4]);
    let mut widths = vec![7, 7, 7, 7];
    assert!(summarise_widths(120, 2, &mut widths, &input));
    assert_eq!(widths, vec![4, 5]);
    assert!(summarise_widths(120, 3, &mut widths, &input));
    assert_eq!(widths, vec![2, 5, 3]);
    assert!(summarise_widths(120, 1, &mut widths, &input));
    assert_eq!(widths, vec![5]);
}

#[test]
fn empty_column_has_width_zero() {
    let input = sized(&[4, 6]);
    let mut widths = Vec::new();
    assert!(summarise_widths(120, 4, &mut widths, &input));
    assert_eq!(widths, vec![4, 6, 0, 0]);
}

#[test]
fn no_items_fit_where_the_padding_fits() {
    let mut widths = vec![3];
    assert!(summarise_widths(2, 2, &mut widths, &[]));
    assert_eq!(widths, vec![0, 0]);
}

#[test]
fn padding_alone_can_exceed_the_budget() {
    let input = sized(&[0, 0, 0]);
    let mut widths = vec![9, 8, 7];
    assert!(!summarise_widths(3, 3, &mut widths, &input));
    assert_eq!(widths, vec![9, 8, 7]);
    assert!(summarise_widths(4, 3, &mut widths, &input));
    assert_eq!(widths, vec![0, 0, 0]);
}

#[test]
fn padding_of_the_most_columns_does_not_wrap_around() {
    let input = sized(&[0, 0]);
    let mut widths = Vec::new();
    assert!(!summarise_widths(u16::MAX, u16::MAX, &mut widths, &input));
    assert!(!summarise_widths(u16::MAX, 32_769, &mut widths, &input));
    assert!(summarise_widths(u16::MAX, 32_768, &mut widths, &input));
    assert_eq!(widths.len(), 32_768);
}

#[test]
fn scan_stops_at_the_first_row_that_does_not_fit() {
    let input = sized(&[1, 1, 9, 1, 1, 20]);
    let mut widths = Vec::new();
    assert!(!summarise_widths(10, 2, &mut widths, &input));
    assert_eq!(widths, vec![9, 1]);
}

#[test]
fn sum_of_the_widths_does_not_wrap_around() {
    let input = sized(&[u16::MAX, u16::MAX, 1]);
    let mut widths = Vec::new();
    assert!(!summarise_widths(u16::MAX, 2, &mut widths, &input));
    assert_eq!(widths, vec![u16::MAX, u16::MAX]);
}

#[test]
fn search_takes_the_most_columns_that_fit() {
    let input = sized(&[1; 10]);
    assert_eq!(feasible(solve(10, &input)), Some((4, vec![1, 1, 1, 1])));
    assert_eq!(feasible(solve(28, &input)), Some((10, vec![1; 10])));
    assert_eq!(feasible(solve(27, &input)), Some((9, vec![1; 9])));
}

#[test]
fn search_finds_three_columns_for_three_items() {
    let input = items(&["a", "bb", "ccc"]);
    assert_eq!(feasible(solve(10, &input)), Some((3, vec![1, 2, 3])));
    assert_eq!(feasible(solve(9, &input)), Some((2, vec![3, 2])));
}

#[test]
fn more_columns_than_fit_were_tried_and_failed() {
    let input = sized(&[1, 10, 1, 10]);
    let (num_cols, widths) = feasible(solve(14, &input)).unwrap();
    assert_eq!((num_cols, widths), (2, vec![1, 10]));
    let mut scratch = Vec::new();
    for more in (num_cols + 1)..=4 {
        assert!(!summarise_widths(14, more, &mut scratch, &input));
    }
    assert!(summarise_widths(14, num_cols, &mut scratch, &input));
}

#[test]
fn fewer_columns_need_not_fit_where_more_do() {
    let input = sized(&[6, 1, 1, 6]);
    let mut scratch = Vec::new();
    assert!(summarise_widths(15, 3, &mut scratch, &input));
    assert_eq!(scratch, vec![6, 1, 1]);
    assert!(!summarise_widths(13, 2, &mut scratch, &input));
    assert_eq!(feasible(solve(15, &input)), Some((3, vec![6, 1, 1])));
}

#[test]
fn wide_item_leaves_no_grid() {
    let input = items(&["aaaaaaaaaaaa", "b"]);
    assert_eq!(input[0].len, 12);
    assert_eq!(input[1].len, 1);
    assert!(feasible(solve(10, &input)).is_none());
}

#[test]
fn fewer_than_two_items_leave_no_grid() {
    assert!(feasible(solve(120, &[])).is_none());
    assert!(feasible(solve(120, &items(&["a"]))).is_none());
    assert!(feasible(solve(u16::MAX, &items(&[""]))).is_none());
}

#[test]
fn two_empty_items_fit_where_the_padding_fits() {
    let input = items(&["", ""]);
    assert_eq!(feasible(solve(2, &input)), Some((2, vec![0, 0])));
    assert!(feasible(solve(1, &input)).is_none());
}

#[test]
fn no_more_than_65535_columns_are_tried() {
    let input = sized(&[0; 70_000]);
    let (num_cols, widths) = feasible(solve(u16::MAX, &input)).unwrap();
    assert_eq!(num_cols, 32_768);
    assert_eq!(widths, vec![0; 32_768]);
}
