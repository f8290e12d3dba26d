//! Display width of a line of terminal text.

use vstd::prelude::*;

verus! {

/// The character that opens an escape sequence.
pub const ESCAPE: char = '\x1B';

/// Where the scanner stands in a line: in ordinary text, or inside an escape
/// sequence that has not seen its terminating `m` yet.
#[derive(Clone, Copy, PartialEq, Eq, Structural, Debug)]
pub enum ScanState {
    Normal,
    InEscape,
}

/// The control characters: the code points of the general category Cc, which
/// are those up to U+001F and those from U+007F to U+009F.
pub open spec fn spec_is_control_code(c: char) -> bool {
    c as u32 <= 0x1F || 0x7F <= c as u32 <= 0x9F
}

/// Tells whether `c` is a control character.
#[verifier::when_used_as_spec(spec_is_control_code)]
pub fn is_control_code(c: char) -> (b: bool)
    ensures
        b == spec_is_control_code(c),
{
    let code: u32 = c as u32;
    code <= 0x1F || (0x7F <= code && code <= 0x9F)
}

impl ScanState {
    /// The state after reading `c` in state `self`.
    pub open spec fn step(self, c: char) -> ScanState {
        if c == ESCAPE {
            ScanState::InEscape
        } else if self == ScanState::InEscape && c != 'm' {
            ScanState::InEscape
        } else {
            ScanState::Normal
        }
    }

    /// Whether `c`, read in state `self`, takes up a terminal column.
    pub open spec fn shows(self, c: char) -> bool {
        self == ScanState::Normal && c != ESCAPE && !is_control_code(c)
    }
}

/// The state of the scanner after it has read `text`, having begun in `start`.
pub open spec fn state_after(start: ScanState, text: Seq<char>) -> ScanState
    decreases text.len(),
{
    if text.len() == 0 {
        start
    } else {
        state_after(start, text.drop_last()).step(text.last())
    }
}

/// The number of characters of `text` that take up a terminal column, when
/// the scanner begins in `start`.
pub open spec fn visible_from(start: ScanState, text: Seq<char>) -> nat
    decreases text.len(),
{
    if text.len() == 0 {
        0
    } else {
        let before = text.drop_last();
        let shown: nat = if state_after(start, before).shows(text.last()) { 1 } else { 0 };
        visible_from(start, before) + shown
    }
}

/// The number of characters of a whole line that take up a terminal column.
pub open spec fn visible_count(text: Seq<char>) -> nat {
    visible_from(ScanState::Normal, text)
}

/// The display width of a line: its visible characters, counted up to the
/// largest `u16`.
pub open spec fn display_width(text: Seq<char>) -> u16 {
    if visible_count(text) <= u16::MAX {
        visible_count(text) as u16
    } else {
        u16::MAX
    }
}

/// Measures the display width of `input`.
pub fn term_printable_len(input: &str) -> (width: u16)
    ensures
        width == display_width(input@),
{
    let mut state = ScanState::Normal;
    let mut count: u16 = 0;
    for c in it: input.chars()
        invariant
            it.seq() == input@,
            state == state_after(ScanState::Normal, input@.take(it.index())),
            count == display_width(input@.take(it.index())),
    {
        proof {
            assert(input@.take(it.index() + 1).drop_last() == input@.take(it.index()));
        }
        if c == ESCAPE {
            state = ScanState::InEscape;
        } else {
            match state {
                ScanState::InEscape => {
                    if c == 'm' {
                        state = ScanState::Normal;
                    }
                },
                ScanState::Normal => {
                    if !is_control_code(c) && count < u16::MAX {
                        count += 1;
                    }
                },
            }
        }
    }
    proof {
        assert(input@.take(input@.len() as int) == input@);
    }
    count
}

/// The display width of each of `texts`, in order.
pub open spec fn display_widths(texts: Seq<Seq<char>>) -> Seq<u16> {
    Seq::new(texts.len(), |i: int| display_width(texts[i]))
}

/// Whether every escape sequence of `text` ends within it.
pub open spec fn closed(text: Seq<char>) -> bool {
    state_after(ScanState::Normal, text) == ScanState::Normal
}

/// Whether `text` holds no control character, and so no escape sequence.
pub open spec fn plain(text: Seq<char>) -> bool {
    forall|i: int| 0 <= i < text.len() ==> !is_control_code(#[trigger] text[i])
}

/// Every character of a plain text is shown.
pub proof fn lemma_scan_plain(text: Seq<char>)
    requires
        plain(text),
    ensures
        closed(text),
        visible_count(text) == text.len(),
    decreases text.len(),
{
    if text.len() > 0 {
        let before = text.drop_last();
        assert forall|i: int| 0 <= i < before.len() implies !is_control_code(
            #[trigger] before[i],
        ) by {
            assert(before[i] == text[i]);
        }
        lemma_scan_plain(before);
        assert(!is_control_code(text[text.len() - 1]));
    }
}

/// An escape sequence with a single terminator: the escape character, then
/// `params`, then `m`.
pub open spec fn sgr(params: Seq<char>) -> Seq<char> {
    seq![ESCAPE] + params + seq!['m']
}

/// Reading a single character is one step of the scanner.
pub proof fn lemma_scan_one(start: ScanState, c: char)
    ensures
        state_after(start, seq![c]) == start.step(c),
        visible_from(start, seq![c]) == if start.shows(c) {
            1nat
        } else {
            0nat
        },
{
    assert(seq![c].drop_last() == Seq::<char>::empty());
    assert(state_after(start, Seq::<char>::empty()) == start);
    assert(visible_from(start, Seq::<char>::empty()) == 0);
}

/// Reading `a` and then `b` is reading `a + b`.
pub proof fn lemma_scan_concat(start: ScanState, a: Seq<char>, b: Seq<char>)
    ensures
        state_after(start, a + b) == state_after(state_after(start, a), b),
        visible_from(start, a + b) == visible_from(start, a) + visible_from(
            state_after(start, a),
            b,
        ),
    decreases b.len(),
{
    if b.len() == 0 {
        assert(a + b == a);
    } else {
        assert((a + b).drop_last() == a + b.drop_last());
        lemma_scan_concat(start, a, b.drop_last());
    }
}

/// A text that is read from inside an escape sequence shows no more than
/// when it is read as a line of its own, and the scanner ends in the same
/// state, unless it never left the escape sequence.
pub proof fn lemma_scan_from_escape(text: Seq<char>)
    ensures
        visible_from(ScanState::InEscape, text) <= visible_count(text),
        state_after(ScanState::InEscape, text) == state_after(ScanState::Normal, text) || (
        state_after(ScanState::InEscape, text) == ScanState::InEscape && closed(text)),
    decreases text.len(),
{
    if text.len() > 0 {
        lemma_scan_from_escape(text.drop_last());
    }
}

/// What is shown of `a + b` is no more than what is shown of `a` and of `b`,
/// each as a line of its own.
pub proof fn lemma_scan_concat_bound(a: Seq<char>, b: Seq<char>)
    ensures
        visible_count(a + b) <= visible_count(a) + visible_count(b),
{
    lemma_scan_concat(ScanState::Normal, a, b);
    lemma_scan_from_escape(b);
}

/// Inside an escape sequence nothing is shown, and the sequence goes on until
/// an `m` comes.
pub proof fn lemma_scan_params(params: Seq<char>)
    requires
        !params.contains('m'),
    ensures
        state_after(ScanState::InEscape, params) == ScanState::InEscape,
        visible_from(ScanState::InEscape, params) == 0,
    decreases params.len(),
{
    if params.len() > 0 {
        let before = params.drop_last();
        assert(params.contains(params.last()));
        assert forall|c: char| before.contains(c) implies params.contains(c) by {
            let i = choose|i: int| 0 <= i < before.len() && before[i] == c;
            assert(params[i] == c);
        }
        lemma_scan_params(before);
    }
}

/// A whole escape sequence shows nothing and leaves the scanner in ordinary
/// text, wherever it began.
pub proof fn lemma_scan_sgr(start: ScanState, params: Seq<char>)
    requires
        !params.contains('m'),
    ensures
        state_after(start, sgr(params)) == ScanState::Normal,
        visible_from(start, sgr(params)) == 0,
{
    let opened = seq![ESCAPE] + params;
    lemma_scan_one(start, ESCAPE);
    lemma_scan_params(params);
    lemma_scan_concat(start, seq![ESCAPE], params);
    assert(sgr(params).drop_last() == opened);
}

/// A line between two escape sequences is as wide as the line alone: for
/// every text `text`, wrapped as the escape character, `open`, `m`, `text`,
/// the escape character, `close`, `m`, where neither `open` nor `close`
/// holds an `m`.
pub proof fn lemma_sgr_wrap_keeps_width(open: Seq<char>, text: Seq<char>, close: Seq<char>)
    requires
        !open.contains('m'),
        !close.contains('m'),
    ensures
        visible_count(sgr(open) + text + sgr(close)) == visible_count(text),
        display_width(sgr(open) + text + sgr(close)) == display_width(text),
{
    lemma_scan_sgr(ScanState::Normal, open);
    lemma_scan_concat(ScanState::Normal, sgr(open), text);
    lemma_scan_sgr(state_after(ScanState::Normal, sgr(open) + text), close);
    lemma_scan_concat(ScanState::Normal, sgr(open) + text, sgr(close));
}

/// The display width depends on the characters of a line and on nothing
/// else: lines of the same characters have the same width.
pub proof fn lemma_width_of_equal_lines(a: &str, b: &str)
    requires
        a@ == b@,
    ensures
        display_width(a@) == display_width(b@),
{
}

} // verus!
