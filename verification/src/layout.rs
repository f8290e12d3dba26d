//! The search for the largest number of columns that fits the width budget.

use vstd::prelude::*;
use vstd::arithmetic::div_mod::lemma_fundamental_div_mod_converse;
use crate::item::{lens_of, Item};

verus! {

/// The default width budget of a rendered row.
pub const MAX_WIDTH: u16 = 120;

/// The number of blank columns between two neighbouring columns of the grid.
pub const PADDING: u16 = 2;

/// The widest item of each column, when items of the widths `lens` fill a
/// grid of `num_cols` columns from left to right and from top to bottom.
pub open spec fn column_widths(lens: Seq<u16>, num_cols: nat) -> Seq<u16>
    decreases lens.len(),
{
    if lens.len() == 0 {
        Seq::new(num_cols, |c: int| 0u16)
    } else {
        let before = column_widths(lens.drop_last(), num_cols);
        let col = (lens.len() - 1) % (num_cols as int);
        if before[col] < lens.last() {
            before.update(col, lens.last())
        } else {
            before
        }
    }
}

/// The sum of a sequence of widths.
pub open spec fn total(widths: Seq<u16>) -> nat
    decreases widths.len(),
{
    if widths.len() == 0 {
        0
    } else {
        total(widths.drop_last()) + widths.last() as nat
    }
}

/// The blank columns that a row of `num_cols` columns holds between them.
pub open spec fn padding_of(num_cols: nat) -> nat {
    ((num_cols - 1) * PADDING) as nat
}

/// Whether a grid of `num_cols` columns holds the items of widths `lens`
/// within `max_width`.
pub open spec fn fits(max_width: u16, num_cols: nat, lens: Seq<u16>) -> bool {
    total(column_widths(lens, num_cols)) + padding_of(num_cols) <= max_width
}

/// The widths of the items in the first `rows` rows of the grid.
pub open spec fn rows_prefix(lens: Seq<u16>, num_cols: nat, rows: nat) -> Seq<u16> {
    if rows * num_cols <= lens.len() {
        lens.take((rows * num_cols) as int)
    } else {
        lens
    }
}

/// Whether the rows of the grid, read from the top for as long as the rows
/// read so far fit, stop to fit with row number `rows`, the first being
/// number 1.
pub open spec fn stops_after(max_width: u16, num_cols: nat, lens: Seq<u16>, rows: nat) -> bool {
    &&& rows > 0
    &&& fits(max_width, num_cols, rows_prefix(lens, num_cols, (rows - 1) as nat))
    &&& !fits(max_width, num_cols, rows_prefix(lens, num_cols, rows))
}

/// A grid has as many column widths as it has columns.
pub proof fn lemma_column_widths_len(lens: Seq<u16>, num_cols: nat)
    requires
        num_cols > 0,
    ensures
        column_widths(lens, num_cols).len() == num_cols,
    decreases lens.len(),
{
    if lens.len() > 0 {
        lemma_column_widths_len(lens.drop_last(), num_cols);
    }
}

/// Items that are added to a grid make none of its columns narrower.
pub proof fn lemma_column_widths_grow(lens: Seq<u16>, num_cols: nat, k: int)
    requires
        num_cols > 0,
        0 <= k <= lens.len(),
    ensures
        forall|c: int|
            0 <= c < num_cols ==> column_widths(lens.take(k), num_cols)[c]
                <= #[trigger] column_widths(lens, num_cols)[c],
    decreases lens.len(),
{
    if k == lens.len() {
        assert(lens.take(k) == lens);
    } else {
        let shorter = lens.drop_last();
        lemma_column_widths_grow(shorter, num_cols, k);
        lemma_column_widths_len(shorter, num_cols);
        assert(shorter.take(k) == lens.take(k));
    }
}

/// No item is wider than its column.
pub proof fn lemma_column_widths_cover(lens: Seq<u16>, num_cols: nat)
    requires
        num_cols > 0,
    ensures
        forall|i: int|
            0 <= i < lens.len() ==> lens[i]
                <= #[trigger] column_widths(lens, num_cols)[i % (num_cols as int)],
    decreases lens.len(),
{
    if lens.len() > 0 {
        let shorter = lens.drop_last();
        lemma_column_widths_cover(shorter, num_cols);
        lemma_column_widths_len(shorter, num_cols);
        assert forall|i: int| 0 <= i < lens.len() implies lens[i] <= #[trigger] column_widths(
            lens,
            num_cols,
        )[i % (num_cols as int)] by {
            if i < lens.len() - 1 {
                assert(shorter[i] == lens[i]);
                assert(lens[i] <= column_widths(shorter, num_cols)[i % (num_cols as int)]);
            }
        }
    }
}

/// The width of a column is that of one of its items, or zero where the
/// column is empty.
pub proof fn lemma_column_widths_attained(lens: Seq<u16>, num_cols: nat, c: int)
    requires
        num_cols > 0,
        0 <= c < num_cols,
    ensures
        column_widths(lens, num_cols)[c] == 0 || exists|i: int|
            0 <= i < lens.len() && i % (num_cols as int) == c && #[trigger] lens[i]
                == column_widths(lens, num_cols)[c],
    decreases lens.len(),
{
    if lens.len() > 0 {
        let shorter = lens.drop_last();
        let last = lens.len() - 1;
        lemma_column_widths_attained(shorter, num_cols, c);
        lemma_column_widths_len(shorter, num_cols);
        let before = column_widths(shorter, num_cols);
        if column_widths(lens, num_cols)[c] != 0 {
            if last % (num_cols as int) == c && before[c] < lens.last() {
                assert(lens[last] == column_widths(lens, num_cols)[c]);
            } else {
                let i = choose|i: int|
                    0 <= i < shorter.len() && i % (num_cols as int) == c && #[trigger] shorter[i]
                        == before[c];
                assert(lens[i] == shorter[i]);
            }
        }
    }
}

/// A sequence of widths that is nowhere smaller has no smaller sum.
pub proof fn lemma_total_monotone(a: Seq<u16>, b: Seq<u16>)
    requires
        a.len() == b.len(),
        forall|c: int| 0 <= c < a.len() ==> a[c] <= b[c],
    ensures
        total(a) <= total(b),
    decreases a.len(),
{
    if a.len() > 0 {
        lemma_total_monotone(a.drop_last(), b.drop_last());
    }
}

/// A grid that fits still fits when items are taken off its end.
pub proof fn lemma_fits_prefix(max_width: u16, num_cols: nat, lens: Seq<u16>, k: int)
    requires
        num_cols > 0,
        0 <= k <= lens.len(),
        fits(max_width, num_cols, lens),
    ensures
        fits(max_width, num_cols, lens.take(k)),
{
    lemma_column_widths_grow(lens, num_cols, k);
    lemma_column_widths_len(lens, num_cols);
    lemma_column_widths_len(lens.take(k), num_cols);
    lemma_total_monotone(column_widths(lens.take(k), num_cols), column_widths(lens, num_cols));
}

/// A grid fits if and only if it fits after each of its rows: with every
/// row the columns grow or stay, so that the grid with all its rows is the
/// widest.
pub proof fn lemma_fits_row_by_row(max_width: u16, num_cols: nat, lens: Seq<u16>)
    requires
        num_cols > 0,
    ensures
        fits(max_width, num_cols, lens) <==> forall|rows: nat|
            fits(max_width, num_cols, #[trigger] rows_prefix(lens, num_cols, rows)),
{
    if fits(max_width, num_cols, lens) {
        assert forall|rows: nat|
            fits(max_width, num_cols, #[trigger] rows_prefix(lens, num_cols, rows)) by {
            if rows * num_cols <= lens.len() {
                lemma_fits_prefix(max_width, num_cols, lens, (rows * num_cols) as int);
            }
        }
    } else {
        let rows = lens.len();
        assert(rows * num_cols >= lens.len()) by (nonlinear_arith)
            requires
                rows == lens.len(),
                num_cols > 0,
        ;
        assert(lens.take(lens.len() as int) == lens);
        assert(rows_prefix(lens, num_cols, rows) == lens);
    }
}

/// A grid without items has columns of width zero.
pub proof fn lemma_total_of_empty_grid(num_cols: nat)
    ensures
        total(Seq::new(num_cols, |c: int| 0u16)) == 0,
    decreases num_cols,
{
    let zeros = Seq::new(num_cols, |c: int| 0u16);
    if num_cols > 0 {
        assert(zeros.drop_last() == Seq::new((num_cols - 1) as nat, |c: int| 0u16));
        lemma_total_of_empty_grid((num_cols - 1) as nat);
    }
}

/// Adds up the widths of the columns.
fn sum_widths(widths: &Vec<u16>) -> (sum: u64)
    requires
        widths.len() <= u16::MAX,
    ensures
        sum == total(widths@),
        sum <= widths.len() * u16::MAX,
{
    let mut sum: u64 = 0;
    let mut i: usize = 0;
    while i < widths.len()
        invariant
            i <= widths.len() <= u16::MAX,
            sum == total(widths@.take(i as int)),
            sum <= i * u16::MAX,
        decreases widths.len() - i,
    {
        proof {
            assert(widths@.take(i + 1).drop_last() == widths@.take(i as int));
        }
        sum = sum + widths[i] as u64;
        i += 1;
    }
    proof {
        assert(widths@.take(widths.len() as int) == widths@);
    }
    sum
}

/// Decides whether a grid of `num_cols` columns holds `input` within
/// `max_width`, and leaves the width of each column in `widths`.
///
/// The rows are read from the top, and the scan ends at the first row with
/// which the grid no longer fits: `widths` then holds the column widths of
/// the rows read so far. Where the padding alone exceeds `max_width`, no row
/// is read and `widths` is left as it was.
pub fn summarise_widths(
    max_width: u16,
    num_cols: u16,
    widths: &mut Vec<u16>,
    input: &[Item],
) -> (ok: bool)
    requires
        num_cols >= 1,
    ensures
        ok == fits(max_width, num_cols as nat, lens_of(input@)),
        ok ==> final(widths)@ == column_widths(lens_of(input@), num_cols as nat),
        !ok && padding_of(num_cols as nat) > max_width ==> final(widths)@ == old(widths)@,
        !ok && padding_of(num_cols as nat) <= max_width ==> exists|rows: nat|
            stops_after(max_width, num_cols as nat, lens_of(input@), rows)
                && final(widths)@ == column_widths(
                    rows_prefix(lens_of(input@), num_cols as nat, rows),
                    num_cols as nat,
                ),
{
    let ghost lens = lens_of(input@);
    let ghost cols = num_cols as nat;
    assert((num_cols - 1) * PADDING <= u32::MAX) by (nonlinear_arith)
        requires
            1 <= num_cols <= u16::MAX,
            PADDING == 2,
    ;
    let max_padding: u32 = (num_cols as u32 - 1) * (PADDING as u32);
    if max_padding > max_width as u32 {
        return false;
    }
    widths.clear();
    let mut filled: u16 = 0;
    while filled < num_cols
        invariant
            filled <= num_cols,
            widths@ == Seq::new(filled as nat, |c: int| 0u16),
        decreases num_cols - filled,
    {
        widths.push(0);
        filled += 1;
    }
    let n: usize = num_cols as usize;
    let mut start: usize = 0;
    let ghost mut rows: nat = 0;
    proof {
        assert(lens.take(0) == Seq::<u16>::empty());
        lemma_total_of_empty_grid(cols);
        assert(rows * cols == 0) by (nonlinear_arith)
            requires
                rows == 0,
        ;
    }
    while start < input.len()
        invariant
            n == num_cols,
            cols == num_cols,
            cols >= 1,
            lens == lens_of(input@),
            max_padding == padding_of(cols),
            max_padding <= max_width,
            start <= input.len(),
            start < input.len() ==> start == rows * cols,
            lens.take(start as int) == rows_prefix(lens, cols, rows),
            widths@ == column_widths(lens.take(start as int), cols),
            fits(max_width, cols, lens.take(start as int)),
        decreases input.len() - start,
    {
        let end: usize = if input.len() - start > n {
            start + n
        } else {
            input.len()
        };
        let mut i: usize = start;
        while i < end
            invariant
                n == num_cols,
                cols == num_cols,
                cols >= 1,
                lens == lens_of(input@),
                start == rows * cols,
                start <= i <= end <= input.len(),
                end - start <= n,
                widths@ == column_widths(lens.take(i as int), cols),
            decreases end - i,
        {
            let col: usize = i - start;
            proof {
                lemma_fundamental_div_mod_converse(i as int, cols as int, rows as int, col as int);
                lemma_column_widths_len(lens.take(i as int), cols);
                assert(lens.take(i + 1).drop_last() == lens.take(i as int));
            }
            let len: u16 = input[i].len;
            if widths[col] < len {
                widths.set(col, len);
            }
            i += 1;
        }
        proof {
            lemma_column_widths_len(lens.take(end as int), cols);
            assert((rows + 1) * cols == rows * cols + cols) by (nonlinear_arith);
            if (rows + 1) * cols > lens.len() {
                assert(lens.take(end as int) == lens);
            }
            assert(lens.take(end as int) == rows_prefix(lens, cols, rows + 1));
        }
        let sum: u64 = sum_widths(widths);
        if sum + max_padding as u64 > max_width as u64 {
            proof {
                if fits(max_width, cols, lens) {
                    lemma_fits_prefix(max_width, cols, lens, end as int);
                }
                assert(stops_after(max_width, cols, lens, rows + 1));
            }
            return false;
        }
        start = end;
        proof {
            rows = rows + 1;
        }
    }
    proof {
        assert(lens.take(start as int) == lens);
    }
    true
}

/// The largest number of columns that is tried for `count` items.
pub open spec fn max_cols(count: nat) -> nat {
    if count <= u16::MAX {
        count
    } else {
        u16::MAX as nat
    }
}

/// The largest number of columns, from 2 to `upto`, with which the grid fits.
pub open spec fn widest_fit(max_width: u16, lens: Seq<u16>, upto: nat) -> Option<nat>
    decreases upto,
{
    if upto < 2 {
        None
    } else if fits(max_width, upto, lens) {
        Some(upto)
    } else {
        widest_fit(max_width, lens, (upto - 1) as nat)
    }
}

/// The outcome of the search for a grid.
#[derive(Debug)]
pub enum LayoutResult {
    /// The grid with the most columns that fits, and the width of each.
    Feasible { num_cols: u16, widths: Vec<u16> },
    /// No grid of two or more columns fits.
    Infeasible,
}

/// The search settles on the largest number of columns that fits: every
/// larger number up to `upto` does not fit, and where the search finds
/// nothing, no number from 2 to `upto` fits.
pub proof fn lemma_widest_fit_is_largest(max_width: u16, lens: Seq<u16>, upto: nat)
    ensures
        match widest_fit(max_width, lens, upto) {
            Some(k) => {
                &&& 2 <= k <= upto
                &&& fits(max_width, k, lens)
                &&& forall|j: nat| k < j <= upto ==> !fits(max_width, j, lens)
            },
            None => forall|j: nat| 2 <= j <= upto ==> !fits(max_width, j, lens),
        },
    decreases upto,
{
    if upto >= 2 && !fits(max_width, upto, lens) {
        lemma_widest_fit_is_largest(max_width, lens, (upto - 1) as nat);
    }
}

/// Fewer than two items are never laid out in a grid.
pub proof fn lemma_too_few_items(max_width: u16, lens: Seq<u16>)
    requires
        lens.len() < 2,
    ensures
        widest_fit(max_width, lens, max_cols(lens.len())) is None,
{
}

/// Finds the largest number of columns, from the number of items (at most
/// 65535) down to 2, with which the grid fits `max_width`.
pub fn solve(max_width: u16, items: &[Item]) -> (result: LayoutResult)
    ensures
        match widest_fit(max_width, lens_of(items@), max_cols(items@.len())) {
            Some(k) => result matches LayoutResult::Feasible { num_cols, widths } && num_cols == k
                && widths@ == column_widths(lens_of(items@), k),
            None => result is Infeasible,
        },
        items@.len() < 2 ==> result is Infeasible,
        result matches LayoutResult::Feasible { num_cols, .. } ==> {
            &&& 2 <= num_cols <= max_cols(items@.len())
            &&& fits(max_width, num_cols as nat, lens_of(items@))
            &&& forall|k: nat|
                num_cols < k <= max_cols(items@.len()) ==> !fits(max_width, k, lens_of(items@))
        },
        result is Infeasible ==> forall|k: nat|
            2 <= k <= max_cols(items@.len()) ==> !fits(max_width, k, lens_of(items@)),
{
    let ghost lens = lens_of(items@);
    let most: u16 = if items.len() > u16::MAX as usize {
        u16::MAX
    } else {
        items.len() as u16
    };
    proof {
        lemma_widest_fit_is_largest(max_width, lens, most as nat);
    }
    let mut widths: Vec<u16> = Vec::new();
    let mut num_cols: u16 = most;
    while num_cols >= 2
        invariant
            num_cols <= most,
            most == max_cols(items@.len()),
            lens == lens_of(items@),
            widest_fit(max_width, lens, most as nat) == widest_fit(
                max_width,
                lens,
                num_cols as nat,
            ),
        decreases num_cols,
    {
        if summarise_widths(max_width, num_cols, &mut widths, items) {
            proof {
                lemma_widest_fit_is_largest(max_width, lens, most as nat);
            }
            return LayoutResult::Feasible { num_cols, widths };
        }
        num_cols -= 1;
    }
    LayoutResult::Infeasible
}

} // verus!
