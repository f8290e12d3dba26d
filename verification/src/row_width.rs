//! How wide the rendered rows are.

use vstd::prelude::*;
use vstd::arithmetic::div_mod::{lemma_fundamental_div_mod, lemma_fundamental_div_mod_converse};
use crate::layout::{
    column_widths,
    fits,
    lemma_column_widths_cover,
    lemma_column_widths_len,
    padding_of,
    total,
    PADDING,
};
use crate::measure::{
    closed,
    display_widths,
    is_control_code,
    lemma_scan_concat,
    lemma_scan_concat_bound,
    lemma_scan_plain,
    plain,
    visible_count,
    ScanState,
};
use crate::render::{
    blanks,
    can_pad,
    cells_text,
    ends_row,
    gap_after,
    row_count,
    row_end,
    row_text,
};

verus! {

/// The columns that the items from number `from` up to, not including,
/// number `to` take up in their rows, the blanks after them included.
pub open spec fn cells_width(
    widths: Seq<u16>,
    lens: Seq<u16>,
    num_cols: nat,
    from: int,
    to: int,
) -> nat
    decreases to - from,
{
    if to <= from {
        0
    } else {
        cells_width(widths, lens, num_cols, from, to - 1) + lens[to - 1] as nat + gap_after(
            widths,
            lens,
            num_cols,
            to - 1,
        )
    }
}

/// Whether no item is wider than its column.
pub open spec fn covers(widths: Seq<u16>, lens: Seq<u16>, num_cols: nat) -> bool {
    forall|i: int| 0 <= i < lens.len() ==> lens[i] <= #[trigger] widths[i % (num_cols as int)]
}

/// The number of items in row number `row`.
pub open spec fn row_len(count: nat, num_cols: nat, row: int) -> int {
    row_end(count, num_cols, row) - row * num_cols
}

/// Blanks are shown, each in one column.
pub proof fn lemma_scan_blanks(n: nat)
    ensures
        closed(blanks(n)),
        visible_count(blanks(n)) == n,
        plain(blanks(n)),
    decreases n,
{
    assert(!is_control_code(' '));
    if n > 0 {
        assert(blanks(n).drop_last() == blanks((n - 1) as nat));
        lemma_scan_blanks((n - 1) as nat);
    }
}

/// The first sums of a sequence of widths are no larger than its sum.
pub proof fn lemma_total_take(widths: Seq<u16>, k: int)
    requires
        0 <= k <= widths.len(),
    ensures
        total(widths.take(k)) <= total(widths),
    decreases widths.len(),
{
    if k == widths.len() {
        assert(widths.take(k) == widths);
    } else {
        assert(widths.drop_last().take(k) == widths.take(k));
        lemma_total_take(widths.drop_last(), k);
    }
}

/// A sum of widths is no smaller than any one of them.
pub proof fn lemma_total_at_least(widths: Seq<u16>, c: int)
    requires
        0 <= c < widths.len(),
    ensures
        widths[c] <= total(widths),
    decreases widths.len(),
{
    if c < widths.len() - 1 {
        lemma_total_at_least(widths.drop_last(), c);
    }
}

/// Every row but the last is full, the last holds at least one item, and
/// the first item of row number `row` is item number `row * num_cols`.
pub proof fn lemma_row_len(count: nat, num_cols: nat, row: int)
    requires
        num_cols >= 1,
        0 <= row < row_count(count, num_cols),
    ensures
        1 <= row_len(count, num_cols, row) <= num_cols,
        0 <= row * num_cols < count,
        row_end(count, num_cols, row) <= count,
{
    let rows = row_count(count, num_cols) as int;
    lemma_fundamental_div_mod(count + num_cols - 1, num_cols as int);
    assert(row * num_cols <= (rows - 1) * num_cols) by (nonlinear_arith)
        requires
            0 <= row <= rows - 1,
            num_cols >= 1,
    ;
    assert((rows - 1) * num_cols == rows * num_cols - num_cols) by (nonlinear_arith);
    assert(num_cols * rows == rows * num_cols) by (nonlinear_arith);
    assert((row + 1) * num_cols == row * num_cols + num_cols) by (nonlinear_arith);
    assert(0 <= row * num_cols) by (nonlinear_arith)
        requires
            0 <= row,
            num_cols >= 1,
    ;
}

/// The columns taken up by the first items of a row, each of which is
/// followed by another: each fills its column and the padding.
proof fn lemma_cells_width_inner(widths: Seq<u16>, lens: Seq<u16>, num_cols: nat, row: int, to: int)
    requires
        num_cols >= 1,
        widths.len() == num_cols,
        0 <= row < row_count(lens.len(), num_cols),
        row * num_cols <= to < row_end(lens.len(), num_cols, row),
        can_pad(widths, lens, num_cols),
    ensures
        cells_width(widths, lens, num_cols, row * num_cols, to) == total(
            widths.take(to - row * num_cols),
        ) + (to - row * num_cols) * PADDING,
    decreases to - row * num_cols,
{
    let from = row * num_cols;
    lemma_row_len(lens.len(), num_cols, row);
    if to > from {
        let i = to - 1;
        lemma_cells_width_inner(widths, lens, num_cols, row, i);
        lemma_fundamental_div_mod_converse(i, num_cols as int, row, i - from);
        assert(!ends_row(i, lens.len(), num_cols));
        assert(widths.take(to - from).drop_last() == widths.take(i - from));
        assert((to - from) * PADDING == (i - from) * PADDING + PADDING) by (nonlinear_arith)
            requires
                to == i + 1,
        ;
    } else {
        assert(widths.take(0) == Seq::<u16>::empty());
        assert(0 * PADDING == 0) by (nonlinear_arith);
    }
}

/// The columns that a row takes up: each item but the last fills its column
/// and the padding, and the last takes up its own width.
pub proof fn lemma_row_width(widths: Seq<u16>, lens: Seq<u16>, num_cols: nat, row: int)
    requires
        num_cols >= 1,
        widths.len() == num_cols,
        0 <= row < row_count(lens.len(), num_cols),
        can_pad(widths, lens, num_cols),
    ensures
        cells_width(
            widths,
            lens,
            num_cols,
            row * num_cols,
            row_end(lens.len(), num_cols, row),
        ) == total(widths.take(row_len(lens.len(), num_cols, row) - 1)) + (row_len(
            lens.len(),
            num_cols,
            row,
        ) - 1) * PADDING + lens[row_end(lens.len(), num_cols, row) - 1],
{
    let from = row * num_cols;
    let end = row_end(lens.len(), num_cols, row);
    lemma_row_len(lens.len(), num_cols, row);
    lemma_cells_width_inner(widths, lens, num_cols, row, end - 1);
    lemma_fundamental_div_mod_converse(end - 1, num_cols as int, row, end - 1 - from);
    assert((row + 1) * num_cols == row * num_cols + num_cols) by (nonlinear_arith);
    assert(ends_row(end - 1, lens.len(), num_cols));
}

/// A row takes up no more than all the columns and the padding between them.
pub proof fn lemma_row_width_bound(widths: Seq<u16>, lens: Seq<u16>, num_cols: nat, row: int)
    requires
        num_cols >= 1,
        widths.len() == num_cols,
        0 <= row < row_count(lens.len(), num_cols),
        covers(widths, lens, num_cols),
    ensures
        cells_width(widths, lens, num_cols, row * num_cols, row_end(lens.len(), num_cols, row))
            <= total(widths) + padding_of(num_cols),
{
    let from = row * num_cols;
    let end = row_end(lens.len(), num_cols, row);
    let k = row_len(lens.len(), num_cols, row);
    lemma_row_len(lens.len(), num_cols, row);
    assert(can_pad(widths, lens, num_cols)) by {
        assert forall|i: int|
            0 <= i < lens.len() && !ends_row(i, lens.len(), num_cols) implies lens[i] <= PADDING
            + widths[i % (num_cols as int)] by {
            assert(lens[i] <= widths[i % (num_cols as int)]);
        }
    }
    lemma_row_width(widths, lens, num_cols, row);
    lemma_fundamental_div_mod_converse(end - 1, num_cols as int, row, k - 1);
    assert(lens[end - 1] <= widths[(end - 1) % (num_cols as int)]);
    assert(widths.take(k).drop_last() == widths.take(k - 1));
    lemma_total_take(widths, k);
    assert((k - 1) * PADDING <= (num_cols - 1) * PADDING) by (nonlinear_arith)
        requires
            k <= num_cols,
    ;
}

/// What is shown of the items of a row, one after the other, is what the
/// items and the blanks after them take up, where every escape sequence
/// ends within its item and `lens` holds what is shown of each item.
pub proof fn lemma_cells_visible(
    widths: Seq<u16>,
    texts: Seq<Seq<char>>,
    lens: Seq<u16>,
    num_cols: nat,
    from: int,
    to: int,
)
    requires
        texts.len() == lens.len(),
        0 <= from <= to <= texts.len(),
        forall|i: int|
            from <= i < to ==> closed(#[trigger] texts[i]) && visible_count(texts[i]) == lens[i],
    ensures
        closed(cells_text(widths, texts, lens, num_cols, from, to)),
        visible_count(cells_text(widths, texts, lens, num_cols, from, to)) == cells_width(
            widths,
            lens,
            num_cols,
            from,
            to,
        ),
    decreases to - from,
{
    if to > from {
        let i = to - 1;
        let before = cells_text(widths, texts, lens, num_cols, from, i);
        let gap = blanks(gap_after(widths, lens, num_cols, i));
        lemma_cells_visible(widths, texts, lens, num_cols, from, i);
        assert(closed(texts[i]));
        lemma_scan_blanks(gap_after(widths, lens, num_cols, i));
        lemma_scan_concat(ScanState::Normal, texts[i], gap);
        lemma_scan_concat(ScanState::Normal, before, texts[i] + gap);
    }
}

/// What is shown of the items of a row, one after the other, is no more
/// than what the items and the blanks after them take up, where `lens`
/// holds what is shown of each item as a line of its own.
pub proof fn lemma_cells_visible_bound(
    widths: Seq<u16>,
    texts: Seq<Seq<char>>,
    lens: Seq<u16>,
    num_cols: nat,
    from: int,
    to: int,
)
    requires
        texts.len() == lens.len(),
        0 <= from <= to <= texts.len(),
        forall|i: int| from <= i < to ==> visible_count(#[trigger] texts[i]) == lens[i],
    ensures
        visible_count(cells_text(widths, texts, lens, num_cols, from, to)) <= cells_width(
            widths,
            lens,
            num_cols,
            from,
            to,
        ),
    decreases to - from,
{
    if to > from {
        let i = to - 1;
        let before = cells_text(widths, texts, lens, num_cols, from, i);
        let gap = blanks(gap_after(widths, lens, num_cols, i));
        lemma_cells_visible_bound(widths, texts, lens, num_cols, from, i);
        assert(visible_count(texts[i]) == lens[i]);
        lemma_scan_blanks(gap_after(widths, lens, num_cols, i));
        lemma_scan_concat_bound(texts[i], gap);
        lemma_scan_concat_bound(before, texts[i] + gap);
    }
}

/// Items without control characters make rows without control characters.
proof fn lemma_cells_plain(
    widths: Seq<u16>,
    texts: Seq<Seq<char>>,
    lens: Seq<u16>,
    num_cols: nat,
    from: int,
    to: int,
)
    requires
        0 <= from <= to <= texts.len(),
        forall|i: int| from <= i < to ==> plain(#[trigger] texts[i]),
    ensures
        plain(cells_text(widths, texts, lens, num_cols, from, to)),
    decreases to - from,
{
    if to > from {
        lemma_cells_plain(widths, texts, lens, num_cols, from, to - 1);
        lemma_scan_blanks(gap_after(widths, lens, num_cols, to - 1));
        assert(plain(texts[to - 1]));
    }
}

/// In a grid of two or more columns that fits, every column is narrower
/// than the largest width that can be recorded.
pub proof fn lemma_widths_below_budget(max_width: u16, lens: Seq<u16>, num_cols: nat)
    requires
        num_cols >= 2,
        fits(max_width, num_cols, lens),
    ensures
        forall|c: int| 0 <= c < num_cols ==> #[trigger] column_widths(lens, num_cols)[c] < u16::MAX,
{
    let widths = column_widths(lens, num_cols);
    lemma_column_widths_len(lens, num_cols);
    assert((num_cols - 1) * PADDING >= 2) by (nonlinear_arith)
        requires
            num_cols >= 2,
            PADDING == 2,
    ;
    assert forall|c: int| 0 <= c < num_cols implies #[trigger] widths[c] < u16::MAX by {
        lemma_total_at_least(widths, c);
    }
}

/// In a grid of two or more columns that fits, no item is wider than its
/// column, and the width recorded for each item is what is shown of it.
pub proof fn lemma_grid_that_fits(max_width: u16, texts: Seq<Seq<char>>, num_cols: nat)
    requires
        num_cols >= 2,
        fits(max_width, num_cols, display_widths(texts)),
    ensures
        column_widths(display_widths(texts), num_cols).len() == num_cols,
        covers(column_widths(display_widths(texts), num_cols), display_widths(texts), num_cols),
        can_pad(column_widths(display_widths(texts), num_cols), display_widths(texts), num_cols),
        forall|i: int|
            0 <= i < texts.len() ==> visible_count(#[trigger] texts[i]) == display_widths(texts)[i],
{
    let lens = display_widths(texts);
    let widths = column_widths(lens, num_cols);
    lemma_column_widths_len(lens, num_cols);
    lemma_column_widths_cover(lens, num_cols);
    lemma_widths_below_budget(max_width, lens, num_cols);
    assert(covers(widths, lens, num_cols));
    assert(can_pad(widths, lens, num_cols)) by {
        assert forall|i: int|
            0 <= i < lens.len() && !ends_row(i, lens.len(), num_cols) implies lens[i] <= PADDING
            + widths[i % (num_cols as int)] by {
            assert(lens[i] <= widths[i % (num_cols as int)]);
        }
    }
    assert forall|i: int| 0 <= i < texts.len() implies visible_count(#[trigger] texts[i])
        == lens[i] by {
        assert(lens[i] <= widths[i % (num_cols as int)]);
    }
}

/// Every row of a grid that fits is shown in no more than `max_width`
/// columns, whatever the lines hold.
pub proof fn lemma_rows_within_budget(
    max_width: u16,
    texts: Seq<Seq<char>>,
    num_cols: nat,
    row: int,
)
    requires
        num_cols >= 2,
        fits(max_width, num_cols, display_widths(texts)),
        0 <= row < row_count(texts.len(), num_cols),
    ensures
        visible_count(
            row_text(
                column_widths(display_widths(texts), num_cols),
                texts,
                display_widths(texts),
                num_cols,
                row,
            ),
        ) <= max_width,
{
    let lens = display_widths(texts);
    let widths = column_widths(lens, num_cols);
    lemma_grid_that_fits(max_width, texts, num_cols);
    lemma_row_len(texts.len(), num_cols, row);
    lemma_cells_visible_bound(
        widths,
        texts,
        lens,
        num_cols,
        row * num_cols,
        row_end(texts.len(), num_cols, row),
    );
    lemma_row_width_bound(widths, lens, num_cols, row);
}

/// Every row of a grid that fits is shown in the widths of the columns
/// before its last item, the padding after each of them, and the width of
/// its last item, where every escape sequence ends within its line.
pub proof fn lemma_rows_fit(max_width: u16, texts: Seq<Seq<char>>, num_cols: nat, row: int)
    requires
        num_cols >= 2,
        fits(max_width, num_cols, display_widths(texts)),
        0 <= row < row_count(texts.len(), num_cols),
        forall|i: int| 0 <= i < texts.len() ==> closed(#[trigger] texts[i]),
    ensures
        ({
            let lens = display_widths(texts);
            let widths = column_widths(lens, num_cols);
            let shown = visible_count(row_text(widths, texts, lens, num_cols, row));
            let items = row_len(texts.len(), num_cols, row);
            &&& shown == total(widths.take(items - 1)) + (items - 1) * PADDING + lens[row_end(
                texts.len(),
                num_cols,
                row,
            ) - 1]
            &&& shown <= total(widths) + padding_of(num_cols)
            &&& shown <= max_width
        }),
{
    let lens = display_widths(texts);
    let widths = column_widths(lens, num_cols);
    lemma_grid_that_fits(max_width, texts, num_cols);
    lemma_row_len(texts.len(), num_cols, row);
    lemma_cells_visible(
        widths,
        texts,
        lens,
        num_cols,
        row * num_cols,
        row_end(texts.len(), num_cols, row),
    );
    lemma_row_width(widths, lens, num_cols, row);
    lemma_row_width_bound(widths, lens, num_cols, row);
}

/// Every row of a grid that fits has as many characters as the columns
/// before its last item are wide, the padding after each of them, and the
/// width of its last item, and so no more than `max_width`, where the lines
/// hold no control characters.
pub proof fn lemma_plain_rows_fit(max_width: u16, texts: Seq<Seq<char>>, num_cols: nat, row: int)
    requires
        num_cols >= 2,
        fits(max_width, num_cols, display_widths(texts)),
        0 <= row < row_count(texts.len(), num_cols),
        forall|i: int| 0 <= i < texts.len() ==> plain(#[trigger] texts[i]),
    ensures
        ({
            let lens = display_widths(texts);
            let widths = column_widths(lens, num_cols);
            let chars = row_text(widths, texts, lens, num_cols, row).len();
            let items = row_len(texts.len(), num_cols, row);
            &&& chars == total(widths.take(items - 1)) + (items - 1) * PADDING + lens[row_end(
                texts.len(),
                num_cols,
                row,
            ) - 1]
            &&& chars <= total(widths) + padding_of(num_cols)
            &&& chars <= max_width
        }),
{
    let lens = display_widths(texts);
    let widths = column_widths(lens, num_cols);
    lemma_row_len(texts.len(), num_cols, row);
    assert forall|i: int| 0 <= i < texts.len() implies closed(#[trigger] texts[i]) by {
        lemma_scan_plain(texts[i]);
    }
    lemma_rows_fit(max_width, texts, num_cols, row);
    lemma_cells_plain(
        widths,
        texts,
        lens,
        num_cols,
        row * num_cols,
        row_end(texts.len(), num_cols, row),
    );
    lemma_scan_plain(row_text(widths, texts, lens, num_cols, row));
}

} // verus!
