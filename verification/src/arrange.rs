//! From lines of text to the lines of the grid.

use vstd::prelude::*;
use vstd::utf8::{decode_utf8, valid_utf8};
use crate::item::{lens_of, texts_of, Item};
use crate::layout::{
    column_widths,
    lemma_column_widths_cover,
    lemma_column_widths_len,
    lemma_too_few_items,
    max_cols,
    solve,
    widest_fit,
    LayoutResult,
};
use crate::measure::{display_widths, visible_count};
use crate::render::{can_pad, row_count, row_text, write_result};
use crate::row_width::lemma_rows_within_budget;
use crate::text::{decode, split_lines, str_views, text_lines, InputError};

verus! {

/// The number of columns of the grid in which `texts` are arranged: the
/// largest, from 2 to the number of lines and to 65535, that fits `max_width`.
pub open spec fn grid_columns(max_width: u16, texts: Seq<Seq<char>>) -> Option<nat> {
    widest_fit(max_width, display_widths(texts), max_cols(texts.len()))
}

/// The lines that come out for the lines `texts`: the rows of the grid with
/// the most columns that fits `max_width`, or `texts` as they are where no
/// grid of two or more columns fits.
pub open spec fn arranged(max_width: u16, texts: Seq<Seq<char>>) -> Seq<Seq<char>> {
    let lens = display_widths(texts);
    match grid_columns(max_width, texts) {
        Some(k) => Seq::new(
            row_count(texts.len(), k),
            |row: int| row_text(column_widths(lens, k), texts, lens, k, row),
        ),
        None => texts,
    }
}

/// Fewer than two lines come out as they are, whatever the width.
pub proof fn lemma_few_lines_pass_through(max_width: u16, texts: Seq<Seq<char>>)
    requires
        texts.len() < 2,
    ensures
        grid_columns(max_width, texts) is None,
        arranged(max_width, texts) == texts,
{
    lemma_too_few_items(max_width, display_widths(texts));
}

/// The characters of each of `lines`, in order.
pub open spec fn string_views(lines: Seq<String>) -> Seq<Seq<char>> {
    Seq::new(lines.len(), |i: int| lines[i]@)
}

/// Measures every line.
pub fn measure_lines<'a>(lines: &[&'a str]) -> (items: Vec<Item<'a>>)
    ensures
        texts_of(items@) == str_views(lines@),
        lens_of(items@) == display_widths(str_views(lines@)),
        forall|i: int| 0 <= i < items@.len() ==> #[trigger] items@[i].content == lines@[i],
        items@.len() == lines@.len(),
{
    let mut items: Vec<Item<'a>> = Vec::new();
    let mut i: usize = 0;
    while i < lines.len()
        invariant
            i <= lines@.len(),
            items@.len() == i,
            forall|j: int|
                0 <= j < i ==> (#[trigger] items@[j]).content == lines@[j] && items@[j].measured(),
        decreases lines@.len() - i,
    {
        items.push(Item::new(lines[i]));
        i += 1;
    }
    proof {
        assert(texts_of(items@) == str_views(lines@));
        assert(lens_of(items@) == display_widths(str_views(lines@)));
    }
    items
}

/// Copies every line.
fn copy_lines(lines: &[&str]) -> (out: Vec<String>)
    ensures
        string_views(out@) == str_views(lines@),
{
    let mut out: Vec<String> = Vec::new();
    let mut i: usize = 0;
    while i < lines.len()
        invariant
            i <= lines@.len(),
            out@.len() == i,
            forall|j: int| 0 <= j < i ==> (#[trigger] out@[j])@ == lines@[j]@,
        decreases lines@.len() - i,
    {
        out.push(lines[i].to_owned());
        i += 1;
    }
    proof {
        assert(string_views(out@) == str_views(lines@));
    }
    out
}

/// Arranges `lines` in the grid with the most columns that fits
/// `max_width`. Where no grid of two or more columns fits, and so for fewer
/// than two lines, the lines come out as they are.
pub fn arrange(max_width: u16, lines: &[&str]) -> (out: Vec<String>)
    ensures
        string_views(out@) == arranged(max_width, str_views(lines@)),
        lines@.len() < 2 ==> out@.len() == lines@.len() && forall|i: int|
            0 <= i < out@.len() ==> (#[trigger] out@[i])@ == lines@[i]@,
        grid_columns(max_width, str_views(lines@)) is Some ==> forall|i: int|
            0 <= i < out@.len() ==> visible_count((#[trigger] out@[i])@) <= max_width,
{
    let items = measure_lines(lines);
    let ghost texts = str_views(lines@);
    let ghost lens = display_widths(texts);
    proof {
        if lines@.len() < 2 {
            lemma_few_lines_pass_through(max_width, texts);
        }
    }
    match solve(max_width, items.as_slice()) {
        LayoutResult::Feasible { num_cols, widths } => {
            proof {
                lemma_column_widths_cover(lens, num_cols as nat);
                lemma_column_widths_len(lens, num_cols as nat);
                assert(can_pad(widths@, lens, num_cols as nat));
            }
            let out = write_result(num_cols, widths.as_slice(), items.as_slice());
            proof {
                assert(string_views(out@) == arranged(max_width, texts));
                assert forall|i: int| 0 <= i < out@.len() implies visible_count(
                    (#[trigger] out@[i])@,
                ) <= max_width by {
                    lemma_rows_within_budget(max_width, texts, num_cols as nat, i);
                }
            }
            out
        },
        LayoutResult::Infeasible => {
            let out = copy_lines(lines);
            proof {
                assert forall|i: int| 0 <= i < out@.len() implies (#[trigger] out@[i])@
                    == lines@[i]@ by {
                    assert(string_views(out@)[i] == str_views(lines@)[i]);
                }
            }
            out
        },
    }
}

/// Reads `input` as UTF-8 text, splits it into lines and arranges them.
pub fn arrange_bytes(max_width: u16, input: &[u8]) -> (result: Result<Vec<String>, InputError>)
    ensures
        result is Ok <==> valid_utf8(input@),
        result matches Ok(out) ==> string_views(out@) == arranged(
            max_width,
            text_lines(decode_utf8(input@)),
        ),
        result matches Err(e) ==> e == InputError::InvalidUtf8,
{
    match decode(input) {
        Ok(text) => {
            let lines = split_lines(text);
            Ok(arrange(max_width, lines.as_slice()))
        },
        Err(e) => Err(e),
    }
}

} // verus!
