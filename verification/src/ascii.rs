//! The ASCII characters that the grammar names, as bytes.
use vstd::prelude::*;

verus! {

/// A tab
pub const TAB: u8 = 0x09;

/// A line feed
pub const LINE_FEED: u8 = 0x0A;

/// A form feed
pub const FORM_FEED: u8 = 0x0C;

/// A carriage return
pub const CARRIAGE_RETURN: u8 = 0x0D;

/// A space
pub const SPACE: u8 = 0x20;

/// `"`
pub const QUOTE: u8 = 0x22;

/// `#`
pub const HASH: u8 = 0x23;

/// `(`
pub const PAREN_OPEN: u8 = 0x28;

/// `)`
pub const PAREN_CLOSE: u8 = 0x29;

/// `*`
pub const STAR: u8 = 0x2A;

/// `+`
pub const PLUS: u8 = 0x2B;

/// `,`
pub const COMMA: u8 = 0x2C;

/// `-`
pub const MINUS: u8 = 0x2D;

/// `.`
pub const POINT: u8 = 0x2E;

/// `/`
pub const SLASH: u8 = 0x2F;

/// `0`
pub const DIGIT_0: u8 = 0x30;

/// `1`
pub const DIGIT_1: u8 = 0x31;

/// `7`
pub const DIGIT_7: u8 = 0x37;

/// `9`
pub const DIGIT_9: u8 = 0x39;

/// `;`
pub const SEMICOLON: u8 = 0x3B;

/// `<`
pub const LESS: u8 = 0x3C;

/// `=`
pub const EQUALS: u8 = 0x3D;

/// `>`
pub const GREATER: u8 = 0x3E;

/// `A`
pub const UPPER_A: u8 = 0x41;

/// `E`
pub const UPPER_E: u8 = 0x45;

/// `F`
pub const UPPER_F: u8 = 0x46;

/// `X`
pub const UPPER_X: u8 = 0x58;

/// `[`
pub const BRACKET_OPEN: u8 = 0x5B;

/// `\`
pub const BACKSLASH: u8 = 0x5C;

/// `]`
pub const BRACKET_CLOSE: u8 = 0x5D;

/// `_`
pub const UNDERSCORE: u8 = 0x5F;

/// `a`
pub const LOWER_A: u8 = 0x61;

/// `b`
pub const LOWER_B: u8 = 0x62;

/// `e`
pub const LOWER_E: u8 = 0x65;

/// `f`
pub const LOWER_F: u8 = 0x66;

/// `l`
pub const LOWER_L: u8 = 0x6C;

/// `n`
pub const LOWER_N: u8 = 0x6E;

/// `o`
pub const LOWER_O: u8 = 0x6F;

/// `r`
pub const LOWER_R: u8 = 0x72;

/// `s`
pub const LOWER_S: u8 = 0x73;

/// `t`
pub const LOWER_T: u8 = 0x74;

/// `u`
pub const LOWER_U: u8 = 0x75;

/// `x`
pub const LOWER_X: u8 = 0x78;

/// `{`
pub const BRACE_OPEN: u8 = 0x7B;

/// `}`
pub const BRACE_CLOSE: u8 = 0x7D;

} // verus!
