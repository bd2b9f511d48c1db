//! Byte classification: every byte of the input belongs to exactly one class,
//! decided by the delimiter mode, the delimiter byte and the comment byte.

use vstd::prelude::*;

verus! {

/// The class of a byte under a given delimiter mode and comment byte.
#[derive(Clone, Copy, Debug, PartialEq, Eq, Structural)]
pub enum ByteClass {
    Delimiter,
    Whitespace,
    Newline,
    Comment,
    Content,
}

/// The space character.
pub const SPACE: u8 = 0x20;

/// The horizontal tab.
pub const TAB: u8 = 0x09;

/// The line feed.
pub const LF: u8 = 0x0a;

/// The carriage return.
pub const CR: u8 = 0x0d;

/// Space or horizontal tab.
pub open spec fn is_blank(b: u8) -> bool {
    b == SPACE || b == TAB
}

/// Line feed or carriage return.
pub open spec fn is_eol(b: u8) -> bool {
    b == LF || b == CR
}

/// The class of `b`. The tests are made in a fixed order: explicit delimiter,
/// then blank, then line terminator, then comment. A comment byte that equals
/// a line terminator therefore never yields `Comment`.
pub open spec fn class_of(b: u8, delim_ws: bool, delim: u8, cmt: u8) -> ByteClass {
    if b == delim && !delim_ws {
        ByteClass::Delimiter
    } else if is_blank(b) {
        ByteClass::Whitespace
    } else if is_eol(b) {
        ByteClass::Newline
    } else if b == cmt {
        ByteClass::Comment
    } else {
        ByteClass::Content
    }
}

/// Classifies one byte.
pub fn classify(b: u8, delim_ws: bool, delim: u8, cmt: u8) -> (c: ByteClass)
    ensures
        c == class_of(b, delim_ws, delim, cmt),
{
    if b == delim && !delim_ws {
        ByteClass::Delimiter
    } else if b == SPACE || b == TAB {
        ByteClass::Whitespace
    } else if b == LF || b == CR {
        ByteClass::Newline
    } else if b == cmt {
        ByteClass::Comment
    } else {
        ByteClass::Content
    }
}

} // verus!
