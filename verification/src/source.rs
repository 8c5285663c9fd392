//! The byte alphabet of the source language: eight instruction characters
//! plus the optional comment-block delimiters.

use vstd::prelude::*;

verus! {

/// `+` — increment the current cell.
pub const OP_ADD: u8 = 43;

/// `-` — decrement the current cell.
pub const OP_SUB: u8 = 45;

/// `>` — move the cell pointer right.
pub const OP_RIGHT: u8 = 62;

/// `<` — move the cell pointer left.
pub const OP_LEFT: u8 = 60;

/// `.` — emit the current cell.
pub const OP_OUT: u8 = 46;

/// `,` — consume one input byte into the current cell.
pub const OP_IN: u8 = 44;

/// `[` — jump past the matching `]` when the current cell is zero.
pub const OP_OPEN: u8 = 91;

/// `]` — jump back to the matching `[` when the current cell is non-zero.
pub const OP_CLOSE: u8 = 93;

/// `{` — start of a comment block, skipped to its matching `}`.
pub const OP_COMMENT_OPEN: u8 = 123;

/// `}` — end of a comment block.
pub const OP_COMMENT_CLOSE: u8 = 125;

} // verus!
