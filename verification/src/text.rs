//! From raw input to lines of text.

use vstd::prelude::*;
use vstd::string::StringSliceAdditionalSpecFns;
use vstd::utf8::{
    decode_utf8,
    encode_utf8_decode_utf8,
    encode_utf8_valid_utf8,
    is_char_boundary,
    is_char_boundary_iff_not_is_continuation_byte,
    is_continuation_byte,
    is_leading_byte_width_1,
    valid_utf8,
};
use crate::encoding::{lemma_lines_of_encoded, lemma_same_encoding};

verus! {

/// The byte that ends a line.
pub const NEWLINE: u8 = 0x0A;

/// The byte that is dropped where it stands right before the end of a line.
pub const CARRIAGE_RETURN: u8 = 0x0D;

/// Why input cannot be laid out.
#[derive(Clone, Copy, Debug, PartialEq, Eq, Structural)]
pub enum InputError {
    /// The input is not valid UTF-8.
    InvalidUtf8,
}

/// The error of `simdutf8::basic::from_utf8`, which carries no data.
#[verifier::external_type_specification]
#[verifier::external_body]
pub struct ExUtf8Error(simdutf8::basic::Utf8Error);

/// Unverified: `simdutf8::basic::from_utf8` accepts exactly the byte
/// sequences that are valid UTF-8, and hands back the same bytes as a string
/// slice.
pub assume_specification[ simdutf8::basic::from_utf8 ](input: &[u8]) -> (result: Result<
    &str,
    simdutf8::basic::Utf8Error,
>)
    ensures
        result is Ok <==> valid_utf8(input@),
        result matches Ok(text) ==> text.spec_bytes() == input@,
;

/// Reads `input` as UTF-8 text.
pub fn decode(input: &[u8]) -> (result: Result<&str, InputError>)
    ensures
        result is Ok <==> valid_utf8(input@),
        result matches Ok(text) ==> text.spec_bytes() == input@ && text@ == decode_utf8(input@),
        result matches Err(e) ==> e == InputError::InvalidUtf8,
{
    match simdutf8::basic::from_utf8(input) {
        Ok(text) => {
            proof {
                encode_utf8_decode_utf8(text@);
            }
            Ok(text)
        },
        Err(_) => Err(InputError::InvalidUtf8),
    }
}

/// The number of elements before the first `newline`, or the length of
/// `text` where it holds none.
pub open spec fn line_len<T>(text: Seq<T>, newline: T) -> nat
    decreases text.len(),
{
    if text.len() == 0 || text[0] == newline {
        0
    } else {
        1 + line_len(text.drop_first(), newline)
    }
}

/// `line` without the `cr` at its end, if it has one.
pub open spec fn without_last<T>(line: Seq<T>, cr: T) -> Seq<T> {
    if line.len() > 0 && line.last() == cr {
        line.drop_last()
    } else {
        line
    }
}

/// The lines of `text`. A line ends with a `newline`, or with a `cr` and a
/// `newline`, neither of which belongs to it; the last line may end with the
/// text instead, and then keeps a `cr` at its end.
pub open spec fn lines_of<T>(text: Seq<T>, newline: T, cr: T) -> Seq<Seq<T>>
    decreases text.len(),
{
    let k = line_len(text, newline) as int;
    if text.len() == 0 {
        Seq::empty()
    } else if k >= text.len() {
        seq![text]
    } else {
        seq![without_last(text.take(k), cr)] + lines_of(text.skip(k + 1), newline, cr)
    }
}

/// The lines of a text: they end with a line feed, or with a carriage return
/// and a line feed.
pub open spec fn text_lines(text: Seq<char>) -> Seq<Seq<char>> {
    lines_of(text, '\n', '\r')
}

/// The lines of a text that is given by its bytes.
pub open spec fn byte_lines(bytes: Seq<u8>) -> Seq<Seq<u8>> {
    lines_of(bytes, NEWLINE, CARRIAGE_RETURN)
}

/// `line_len` is the place of the first `newline`.
pub proof fn lemma_line_len<T>(text: Seq<T>, newline: T, k: int)
    requires
        0 <= k <= text.len(),
        forall|j: int| 0 <= j < k ==> text[j] != newline,
        k < text.len() ==> text[k] == newline,
    ensures
        line_len(text, newline) == k,
    decreases text.len(),
{
    if k > 0 {
        let rest = text.drop_first();
        assert forall|j: int| 0 <= j < k - 1 implies rest[j] != newline by {
            assert(rest[j] == text[j + 1]);
        }
        lemma_line_len(rest, newline, k - 1);
    }
}

/// No `newline` stands before place `line_len`, and one stands there unless
/// the text ends there.
pub proof fn lemma_line_len_is_first<T>(text: Seq<T>, newline: T)
    ensures
        line_len(text, newline) <= text.len(),
        forall|j: int| 0 <= j < line_len(text, newline) ==> text[j] != newline,
        line_len(text, newline) < text.len() ==> text[line_len(text, newline) as int] == newline,
    decreases text.len(),
{
    if !(text.len() == 0 || text[0] == newline) {
        let rest = text.drop_first();
        lemma_line_len_is_first(rest, newline);
        assert forall|j: int| 0 <= j < line_len(text, newline) implies text[j] != newline by {
            if j > 0 {
                assert(rest[j - 1] == text[j]);
            }
        }
    }
}

/// The characters of each of `lines`, in order.
pub open spec fn str_views(lines: Seq<&str>) -> Seq<Seq<char>> {
    Seq::new(lines.len(), |i: int| lines[i]@)
}

/// The bytes of each of `lines`, in order.
pub open spec fn bytes_of(lines: Seq<&str>) -> Seq<Seq<u8>> {
    Seq::new(lines.len(), |i: int| lines[i].spec_bytes())
}

/// Finds the first newline in `bytes`.
fn find_newline(bytes: &[u8]) -> (k: usize)
    ensures
        k == line_len(bytes@, NEWLINE),
        k <= bytes@.len(),
        k < bytes@.len() ==> bytes@[k as int] == NEWLINE,
{
    let mut k: usize = 0;
    while k < bytes.len() && bytes[k] != NEWLINE
        invariant
            k <= bytes@.len(),
            forall|j: int| 0 <= j < k ==> bytes@[j] != NEWLINE,
        decreases bytes@.len() - k,
    {
        k += 1;
    }
    proof {
        lemma_line_len(bytes@, NEWLINE, k as int);
    }
    k
}

/// Splits `text` into its lines.
pub fn split_lines<'a>(text: &'a str) -> (lines: Vec<&'a str>)
    ensures
        str_views(lines@) == text_lines(text@),
        bytes_of(lines@) == byte_lines(text.spec_bytes()),
{
    let mut lines: Vec<&'a str> = Vec::new();
    let mut rest: &'a str = text;
    proof {
        assert(bytes_of(lines@) + byte_lines(rest.spec_bytes()) == byte_lines(text.spec_bytes()));
    }
    loop
        invariant
            bytes_of(lines@) + byte_lines(rest.spec_bytes()) == byte_lines(text.spec_bytes()),
        decreases rest.spec_bytes().len(),
    {
        let bytes = rest.as_bytes();
        let ghost all = rest.spec_bytes();
        let ghost done = bytes_of(lines@);
        if bytes.len() == 0 {
            proof {
                assert(done + Seq::<Seq<u8>>::empty() == done);
                lemma_lines_of_encoded(text@);
                lemma_same_encoding(lines@, text_lines(text@));
            }
            return lines;
        }
        let k = find_newline(bytes);
        proof {
            encode_utf8_valid_utf8(rest@);
        }
        if k == bytes.len() {
            lines.push(rest);
            proof {
                assert(bytes_of(lines@) == done + seq![all]);
                lemma_lines_of_encoded(text@);
                lemma_same_encoding(lines@, text_lines(text@));
            }
            return lines;
        }
        proof {
            assert(!is_continuation_byte(NEWLINE)) by (bit_vector);
            is_char_boundary_iff_not_is_continuation_byte(all, k as int);
        }
        let (head, tail) = rest.split_at(k);
        proof {
            encode_utf8_valid_utf8(tail@);
            encode_utf8_valid_utf8(head@);
            assert(tail.spec_bytes()[0] == NEWLINE);
            assert(is_char_boundary(tail.spec_bytes(), 1)) by {
                reveal_with_fuel(is_char_boundary, 2);
                assert(is_leading_byte_width_1(NEWLINE)) by (bit_vector);
            }
        }
        let (_, after) = tail.split_at(1);
        let line = if k > 0 && bytes[k - 1] == CARRIAGE_RETURN {
            proof {
                assert(!is_continuation_byte(CARRIAGE_RETURN)) by (bit_vector);
                is_char_boundary_iff_not_is_continuation_byte(head.spec_bytes(), k - 1);
            }
            let (stripped, _) = head.split_at(k - 1);
            stripped
        } else {
            head
        };
        proof {
            assert(head.spec_bytes() == all.take(k as int));
            assert(after.spec_bytes() == all.skip(k + 1));
            assert(line.spec_bytes() == without_last(all.take(k as int), CARRIAGE_RETURN));
        }
        lines.push(line);
        proof {
            assert(bytes_of(lines@) == done + seq![line.spec_bytes()]);
        }
        rest = after;
    }
}

} // verus!
