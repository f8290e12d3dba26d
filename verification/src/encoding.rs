//! Lines of text and their UTF-8 encoding.

use vstd::prelude::*;
use vstd::utf8::{encode_scalar, encode_utf8, encode_utf8_decode_utf8};
use crate::text::{
    byte_lines,
    bytes_of,
    lemma_line_len,
    lemma_line_len_is_first,
    line_len,
    str_views,
    text_lines,
    without_last,
    CARRIAGE_RETURN,
    NEWLINE,
};

verus! {

/// The UTF-8 encoding of each of `lines`, in order.
pub open spec fn encoded(lines: Seq<Seq<char>>) -> Seq<Seq<u8>> {
    Seq::new(lines.len(), |i: int| encode_utf8(lines[i]))
}

/// The encoding of a character: the character itself where it is below
/// U+0080, else bytes from 0x80 on.
pub proof fn lemma_encode_scalar(c: char)
    ensures
        encode_scalar(c as u32).len() >= 1,
        c as u32 <= 0x7F ==> encode_scalar(c as u32) == seq![c as u8],
        c as u32 > 0x7F ==> ({
            let bytes = encode_scalar(c as u32);
            forall|j: int| 0 <= j < bytes.len() ==> #[trigger] bytes[j] >= 0x80
        }),
{
    let v = c as u32;
    if v <= 0x7F {
        assert((v & 0x7F) as u8 == v as u8) by (bit_vector)
            requires
                v <= 0x7F,
        ;
    } else {
        assert(0xC0u8 | ((v >> 6) & 0x1F) as u8 >= 0x80) by (bit_vector);
        assert(0xE0u8 | ((v >> 12) & 0x0F) as u8 >= 0x80) by (bit_vector);
        assert(0xF0u8 | ((v >> 18) & 0x7) as u8 >= 0x80) by (bit_vector);
        assert(0x80u8 | (v & 0x3F) as u8 >= 0x80) by (bit_vector);
        assert(0x80u8 | ((v >> 6) & 0x3F) as u8 >= 0x80) by (bit_vector);
        assert(0x80u8 | ((v >> 12) & 0x3F) as u8 >= 0x80) by (bit_vector);
    }
}

/// The encoding of two texts, one after the other, is the encoding of the
/// one and then that of the other.
pub proof fn lemma_encode_concat(a: Seq<char>, b: Seq<char>)
    ensures
        encode_utf8(a + b) == encode_utf8(a) + encode_utf8(b),
    decreases a.len(),
{
    if a.len() == 0 {
        assert(a + b == b);
    } else {
        assert((a + b).drop_first() == a.drop_first() + b);
        lemma_encode_concat(a.drop_first(), b);
    }
}

/// The encoding of a single character.
proof fn lemma_encode_one(c: char)
    ensures
        encode_utf8(seq![c]) == encode_scalar(c as u32),
{
    assert(seq![c].drop_first() == Seq::<char>::empty());
    assert(encode_utf8(Seq::<char>::empty()) == Seq::<u8>::empty());
}

/// A byte below 0x80 stands in the encoding of a text only where the text
/// holds that character.
pub proof fn lemma_encode_without(text: Seq<char>, c: char)
    requires
        c as u32 <= 0x7F,
        forall|j: int| 0 <= j < text.len() ==> text[j] != c,
    ensures
        ({
            let bytes = encode_utf8(text);
            forall|j: int| 0 <= j < bytes.len() ==> #[trigger] bytes[j] != c as u8
        }),
    decreases text.len(),
{
    if text.len() > 0 {
        let rest = text.drop_first();
        assert forall|j: int| 0 <= j < rest.len() implies rest[j] != c by {
            assert(rest[j] == text[j + 1]);
        }
        lemma_encode_without(rest, c);
        lemma_encode_scalar(text[0]);
        let first = encode_scalar(text[0] as u32);
        let bytes = encode_utf8(text);
        assert(bytes == first + encode_utf8(rest));
        assert forall|j: int| 0 <= j < bytes.len() implies #[trigger] bytes[j] != c as u8 by {
            if j < first.len() {
                assert(bytes[j] == first[j]);
                if text[0] as u32 <= 0x7F && first[j] == c as u8 {
                    lemma_same_byte(text[0], c);
                }
            } else {
                assert(bytes[j] == encode_utf8(rest)[j - first.len()]);
            }
        }
    }
}

/// Characters below U+0080 of the same byte are the same character.
proof fn lemma_same_byte(a: char, b: char)
    requires
        a as u32 <= 0x7F,
        b as u32 <= 0x7F,
        a as u8 == b as u8,
    ensures
        a == b,
{
}

/// A line without its carriage return, encoded, is the encoded line without
/// its carriage return.
proof fn lemma_encode_without_last(line: Seq<char>)
    ensures
        without_last(encode_utf8(line), CARRIAGE_RETURN) == encode_utf8(without_last(line, '\r')),
{
    if line.len() > 0 {
        let init = line.drop_last();
        let last = line.last();
        assert(line == init + seq![last]);
        lemma_encode_concat(init, seq![last]);
        lemma_encode_one(last);
        lemma_encode_scalar(last);
        let tail = encode_scalar(last as u32);
        assert(encode_utf8(line) == encode_utf8(init) + tail);
        assert(encode_utf8(line).last() == tail[tail.len() - 1]);
        if last == '\r' {
            assert(tail == seq![CARRIAGE_RETURN]);
            assert(encode_utf8(line).drop_last() == encode_utf8(init));
        } else if last as u32 <= 0x7F && tail[0] == CARRIAGE_RETURN {
            lemma_same_byte(last, '\r');
        }
    }
}

/// The lines of an encoded text are the encoded lines of the text.
pub proof fn lemma_lines_of_encoded(text: Seq<char>)
    ensures
        byte_lines(encode_utf8(text)) == encoded(text_lines(text)),
    decreases text.len(),
{
    let bytes = encode_utf8(text);
    if text.len() == 0 {
        assert(encoded(text_lines(text)) == Seq::<Seq<u8>>::empty());
    } else {
        let k = line_len(text, '\n') as int;
        lemma_line_len_is_first(text, '\n');
        let head = text.take(k);
        let from_k = text.skip(k);
        assert(text == head + from_k);
        lemma_encode_concat(head, from_k);
        lemma_encode_without(head, '\n');
        lemma_encode_scalar(text[0]);
        let p = encode_utf8(head).len() as int;
        if k >= text.len() {
            assert(head == text);
            lemma_line_len(bytes, NEWLINE, p);
            assert(encoded(seq![text]) == seq![bytes]);
        } else {
            let tail = text.skip(k + 1);
            assert(from_k == seq!['\n'] + tail);
            lemma_encode_concat(seq!['\n'], tail);
            lemma_encode_one('\n');
            lemma_encode_scalar('\n');
            assert(bytes[p] == NEWLINE);
            lemma_line_len(bytes, NEWLINE, p);
            assert(bytes.take(p) == encode_utf8(head));
            assert(bytes.skip(p + 1) == encode_utf8(tail));
            lemma_encode_without_last(head);
            lemma_lines_of_encoded(tail);
            assert(encoded(seq![without_last(head, '\r')] + text_lines(tail)) == seq![
                encode_utf8(without_last(head, '\r')),
            ] + encoded(text_lines(tail)));
        }
    }
}

/// Lines of the same encoding are the same lines.
pub proof fn lemma_same_encoding(lines: Seq<&str>, texts: Seq<Seq<char>>)
    requires
        bytes_of(lines) == encoded(texts),
    ensures
        str_views(lines) == texts,
{
    assert(lines.len() == bytes_of(lines).len());
    assert(texts.len() == encoded(texts).len());
    assert forall|i: int| 0 <= i < lines.len() implies lines[i]@ == texts[i] by {
        assert(bytes_of(lines)[i] == encoded(texts)[i]);
        encode_utf8_decode_utf8(lines[i]@);
        encode_utf8_decode_utf8(texts[i]);
    }
}

} // verus!
