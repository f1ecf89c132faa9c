//! The ASCII bytes that the formats are made of.

use vstd::prelude::*;

verus! {

pub const TAB: u8 = 0x09;

pub const NEWLINE: u8 = 0x0a;

pub const SPACE: u8 = 0x20;

pub const BANG: u8 = 0x21;

pub const QUOTE: u8 = 0x22;

pub const HASH: u8 = 0x23;

pub const APOSTROPHE: u8 = 0x27;

pub const OPEN_PAREN: u8 = 0x28;

pub const CLOSE_PAREN: u8 = 0x29;

pub const STAR: u8 = 0x2a;

pub const PLUS: u8 = 0x2b;

pub const COMMA: u8 = 0x2c;

pub const DASH: u8 = 0x2d;

pub const DOT: u8 = 0x2e;

pub const SLASH: u8 = 0x2f;

pub const ZERO: u8 = 0x30;

pub const NINE: u8 = 0x39;

pub const COLON: u8 = 0x3a;

pub const SEMICOLON: u8 = 0x3b;

pub const LESS: u8 = 0x3c;

pub const GREATER: u8 = 0x3e;

pub const QUESTION: u8 = 0x3f;

pub const UPPER_X: u8 = 0x58;

pub const OPEN_BRACKET: u8 = 0x5b;

pub const CLOSE_BRACKET: u8 = 0x5d;

pub const UNDERSCORE: u8 = 0x5f;

pub const BACKTICK: u8 = 0x60;

pub const LOWER_H: u8 = 0x68;

pub const LOWER_P: u8 = 0x70;

pub const LOWER_S: u8 = 0x73;

pub const LOWER_T: u8 = 0x74;

pub const LOWER_X: u8 = 0x78;

pub const CLOSE_BRACE: u8 = 0x7d;

pub const TILDE: u8 = 0x7e;

} // verus!
