//! The rows of the grid as lines of text.

use vstd::prelude::*;
use vstd::arithmetic::div_mod::{
    lemma_fundamental_div_mod_converse,
    lemma_fundamental_div_mod_converse_div,
};
use crate::item::{lens_of, texts_of, Item};
use crate::layout::PADDING;

verus! {

/// Whether item number `i` of `count` is the last one of its row.
pub open spec fn ends_row(i: int, count: nat, num_cols: nat) -> bool {
    i % (num_cols as int) == num_cols - 1 || i == count - 1
}

/// The number of blanks that follow item number `i`: none after the last
/// item of a row, else what fills its column and the padding.
pub open spec fn gap_after(widths: Seq<u16>, lens: Seq<u16>, num_cols: nat, i: int) -> nat {
    if ends_row(i, lens.len(), num_cols) {
        0
    } else {
        (PADDING + widths[i % (num_cols as int)] - lens[i]) as nat
    }
}

/// Whether every item that is followed by another in its row can be padded:
/// it is no wider than its column and the padding together.
pub open spec fn can_pad(widths: Seq<u16>, lens: Seq<u16>, num_cols: nat) -> bool {
    forall|i: int|
        0 <= i < lens.len() && !ends_row(i, lens.len(), num_cols) ==> lens[i] <= PADDING
            + widths[i % (num_cols as int)]
}

/// A run of `n` blanks.
pub open spec fn blanks(n: nat) -> Seq<char> {
    Seq::new(n, |i: int| ' ')
}

/// Item number `i` as it stands in its row: its text and the blanks after it.
pub open spec fn cell_text(
    widths: Seq<u16>,
    texts: Seq<Seq<char>>,
    lens: Seq<u16>,
    num_cols: nat,
    i: int,
) -> Seq<char> {
    texts[i] + blanks(gap_after(widths, lens, num_cols, i))
}

/// The items from number `from` up to, not including, number `to`, one
/// after the other as they stand in their rows.
pub open spec fn cells_text(
    widths: Seq<u16>,
    texts: Seq<Seq<char>>,
    lens: Seq<u16>,
    num_cols: nat,
    from: int,
    to: int,
) -> Seq<char>
    decreases to - from,
{
    if to <= from {
        Seq::empty()
    } else {
        cells_text(widths, texts, lens, num_cols, from, to - 1) + cell_text(
            widths,
            texts,
            lens,
            num_cols,
            to - 1,
        )
    }
}

/// The number of rows that `count` items fill.
pub open spec fn row_count(count: nat, num_cols: nat) -> nat {
    ((count + num_cols - 1) / (num_cols as int)) as nat
}

/// The number of the item after the last one of row number `row`.
pub open spec fn row_end(count: nat, num_cols: nat, row: int) -> int {
    if (row + 1) * num_cols <= count {
        (row + 1) * num_cols
    } else {
        count as int
    }
}

/// The text of row number `row`.
pub open spec fn row_text(
    widths: Seq<u16>,
    texts: Seq<Seq<char>>,
    lens: Seq<u16>,
    num_cols: nat,
    row: int,
) -> Seq<char> {
    cells_text(widths, texts, lens, num_cols, row * num_cols, row_end(lens.len(), num_cols, row))
}

/// Renders the grid: one line for each row of `num_cols` items, each item
/// but the last of its row followed by the blanks that fill its column and
/// by the padding.
pub fn write_result(num_cols: u16, widths: &[u16], input: &[Item]) -> (lines: Vec<String>)
    requires
        num_cols >= 1,
        widths@.len() == num_cols,
        can_pad(widths@, lens_of(input@), num_cols as nat),
    ensures
        lines@.len() == row_count(input@.len(), num_cols as nat),
        forall|row: int|
            0 <= row < lines@.len() ==> (#[trigger] lines@[row])@ == row_text(
                widths@,
                texts_of(input@),
                lens_of(input@),
                num_cols as nat,
                row,
            ),
{
    let ghost cols = num_cols as nat;
    let ghost texts = texts_of(input@);
    let ghost lens = lens_of(input@);
    let n: usize = num_cols as usize;
    let mut lines: Vec<String> = Vec::new();
    let mut start: usize = 0;
    proof {
        if input@.len() == 0 {
            lemma_fundamental_div_mod_converse_div(cols - 1, cols as int, 0, cols - 1);
        }
        assert(0 * cols == 0) by (nonlinear_arith);
    }
    while start < input.len()
        invariant
            n == num_cols,
            cols == num_cols,
            cols >= 1,
            widths@.len() == cols,
            texts == texts_of(input@),
            lens == lens_of(input@),
            can_pad(widths@, lens, cols),
            start <= input.len(),
            start < input.len() ==> start == lines@.len() * cols,
            start == input.len() ==> lines@.len() == row_count(input@.len(), cols),
            forall|row: int|
                0 <= row < lines@.len() ==> (#[trigger] lines@[row])@ == row_text(
                    widths@,
                    texts,
                    lens,
                    cols,
                    row,
                ),
        decreases input.len() - start,
    {
        let ghost row = lines@.len() as int;
        let end: usize = if input.len() - start > n {
            start + n
        } else {
            input.len()
        };
        proof {
            assert((row + 1) * cols == row * cols + cols) by (nonlinear_arith);
            assert(end == row_end(input@.len(), cols, row));
            if end == input.len() {
                lemma_fundamental_div_mod_converse_div(
                    input@.len() + cols - 1,
                    cols as int,
                    row + 1,
                    input@.len() + cols - 1 - (row + 1) * cols,
                );
            }
        }
        let mut line = String::new();
        let mut i: usize = start;
        while i < end
            invariant
                n == num_cols,
                cols == num_cols,
                cols >= 1,
                widths@.len() == cols,
                texts == texts_of(input@),
                lens == lens_of(input@),
                can_pad(widths@, lens, cols),
                start == row * cols,
                start <= i <= end <= input.len(),
                end - start <= n,
                end == input.len() || end == start + n,
                line@ == cells_text(widths@, texts, lens, cols, start as int, i as int),
            decreases end - i,
        {
            let col: usize = i - start;
            let ghost before = line@;
            proof {
                lemma_fundamental_div_mod_converse(i as int, cols as int, row, col as int);
            }
            line.append(input[i].content);
            if i + 1 < end {
                assert(!ends_row(i as int, input@.len(), cols));
                assert(lens[i as int] == input@[i as int].len);
                let gap: u32 = PADDING as u32 + widths[col] as u32 - input[i].len as u32;
                let mut k: u32 = 0;
                while k < gap
                    invariant
                        k <= gap,
                        line@ == before + input@[i as int].content@ + blanks(k as nat),
                    decreases gap - k,
                {
                    proof {
                        reveal_strlit(" ");
                        assert(blanks(k as nat) + " "@ == blanks((k + 1) as nat));
                    }
                    line.append(" ");
                    k += 1;
                }
                assert(gap == gap_after(widths@, lens, cols, i as int));
            } else {
                assert(ends_row(i as int, input@.len(), cols));
                assert(blanks(0) == Seq::<char>::empty());
            }
            proof {
                let cell = cell_text(widths@, texts, lens, cols, i as int);
                assert(texts[i as int] == input@[i as int].content@);
                assert(line@ == before + cell);
            }
            i += 1;
        }
        lines.push(line);
        start = end;
    }
    lines
}

} // verus!
