//! The ASCII bytes that the grammars here are written in.
use vstd::prelude::*;

verus! {

pub const TAB: u8 = 0x09;

pub const NEWLINE: u8 = 0x0a;

pub const RETURN: u8 = 0x0d;

pub const SPACE: u8 = 0x20;

pub const BANG: u8 = 0x21;

pub const HASH: u8 = 0x23;

pub const OPEN_PAREN: u8 = 0x28;

pub const CLOSE_PAREN: u8 = 0x29;

pub const STAR: u8 = 0x2a;

pub const HYPHEN: u8 = 0x2d;

pub const DOT: u8 = 0x2e;

pub const SLASH: u8 = 0x2f;

pub const COLON: u8 = 0x3a;

pub const LESS: u8 = 0x3c;

pub const GREATER: u8 = 0x3e;

pub const QUESTION: u8 = 0x3f;

pub const OPEN_BRACKET: u8 = 0x5b;

pub const BACKSLASH: u8 = 0x5c;

pub const CLOSE_BRACKET: u8 = 0x5d;

pub const CARET: u8 = 0x5e;

pub const UNDERSCORE: u8 = 0x5f;

pub const BACKTICK: u8 = 0x60;

pub const LOWER_D: u8 = 0x64;

pub const LOWER_H: u8 = 0x68;

pub const LOWER_M: u8 = 0x6d;

pub const LOWER_P: u8 = 0x70;

pub const LOWER_T: u8 = 0x74;

pub const OPEN_BRACE: u8 = 0x7b;

pub const PIPE: u8 = 0x7c;

pub const CLOSE_BRACE: u8 = 0x7d;

/// A digit or a letter.
pub open spec fn alphanumeric(b: u8) -> bool {
    0x30 <= b <= 0x39 || 0x41 <= b <= 0x5a || 0x61 <= b <= 0x7a
}

/// Whether `b` is a digit or a letter.
pub fn is_alphanumeric(b: u8) -> (r: bool)
    ensures
        r == alphanumeric(b),
{
    (0x30 <= b && b <= 0x39) || (0x41 <= b && b <= 0x5a) || (0x61 <= b && b <= 0x7a)
}

} // verus!
