//! Arranges lines of text in a grid of columns that fits a terminal width.
//!
//! Each line is measured in terminal columns: escape sequences and control
//! characters take up none. The lines then fill a grid from left to right and
//! from top to bottom, with as many columns as fit the width; where not even
//! two columns fit, the lines are left as they are.

pub mod arrange;
pub mod encoding;
pub mod item;
pub mod layout;
pub mod measure;
pub mod render;
pub mod row_width;
pub mod text;
