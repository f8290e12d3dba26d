//! A line of input together with its display width.

use vstd::prelude::*;
use crate::measure::{display_width, term_printable_len};

verus! {

/// One line of input and the number of terminal columns it takes up.
#[derive(Clone, Copy, Debug)]
pub struct Item<'a> {
    pub content: &'a str,
    pub len: u16,
}

impl<'a> Item<'a> {
    /// Whether the recorded width is the display width of the content.
    pub open spec fn measured(&self) -> bool {
        self.len == display_width(self.content@)
    }

    /// Pairs a line with its display width.
    pub fn new(content: &'a str) -> (item: Item<'a>)
        ensures
            item.content == content,
            item.measured(),
    {
        Item { content, len: term_printable_len(content) }
    }
}

/// The widths of a sequence of items, in order.
pub open spec fn lens_of(items: Seq<Item<'_>>) -> Seq<u16> {
    Seq::new(items.len(), |i: int| items[i].len)
}

/// The texts of a sequence of items, in order.
pub open spec fn texts_of(items: Seq<Item<'_>>) -> Seq<Seq<char>> {
    Seq::new(items.len(), |i: int| items[i].content@)
}

} // verus!
