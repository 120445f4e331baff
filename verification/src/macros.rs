//! Character classes over optional characters, where `None` stands for a
//! position past the end of the input, and a stricter printable class.

use crate::char_traits::{alpha_char, blank_char, break_char};
use vstd::prelude::*;

verus! {

/// Printable characters without the carriage return and the next-line
/// character: the class that must appear as-is in output.
pub open spec fn plainly_printable_char(c: char) -> bool {
    if c == '\u{feff}' || c == '\u{fffe}' || c == '\u{ffff}' {
        false
    } else {
        c == '\x0a' || ('\x20' <= c && c <= '\x7e') || ('\u{00a0}' <= c && c <= '\u{d7ff}') || (
        '\u{e000}' <= c && c <= '\u{fffd}') || ('\u{10000}' <= c && c <= '\u{10ffff}')
    }
}

/// Check whether there is a character and it is ASCII alphanumeric, `_` or `-`.
pub fn is_alpha(ch: Option<char>) -> (r: bool)
    ensures
        r == (ch matches Some(c) && alpha_char(c)),
{
    let ch = match ch {
        Some(ch) => ch,
        None => return false,
    };
    ch >= '0' && ch <= '9' || ch >= 'A' && ch <= 'Z' || ch >= 'a' && ch <= 'z' || ch == '_' || ch
        == '-'
}

/// Check whether the character is ASCII.
pub fn is_ascii(ch: char) -> (r: bool)
    ensures
        r == ((ch as u32) < 0x80),
{
    (ch as u32) < 0x80
}

/// Check whether the character is printable without escaping.
pub fn is_printable(ch: char) -> (r: bool)
    ensures
        r == plainly_printable_char(ch),
{
    match ch {
        '\u{feff}' | '\u{fffe}' | '\u{ffff}' => false,
        '\x0a' | '\x20'..='\x7e' | '\u{00a0}'..='\u{00bf}' | '\u{00c0}'..='\u{cfff}'
        | '\u{d000}'..='\u{d7ff}' | '\u{e000}'..='\u{efff}' | '\u{f000}'..='\u{fffd}'
        | '\u{10000}'..='\u{10ffff}' => true,
        _ => false,
    }
}

/// Check whether the character is the byte order mark.
pub fn is_bom(ch: char) -> (r: bool)
    ensures
        r == (ch == '\u{feff}'),
{
    ch == '\u{feff}'
}

/// Check whether there is a character and it is a space.
pub fn is_space(ch: Option<char>) -> (r: bool)
    ensures
        r == (ch == Some(' ')),
{
    match ch {
        Some(' ') => true,
        _ => false,
    }
}

/// Check whether there is a character and it is a space or a tab.
pub fn is_blank(ch: Option<char>) -> (r: bool)
    ensures
        r == (ch matches Some(c) && blank_char(c)),
{
    is_space(ch) || match ch {
        Some('\t') => true,
        _ => false,
    }
}

/// Check whether there is a character and it is a line break.
pub fn is_break(ch: Option<char>) -> (r: bool)
    ensures
        r == (ch matches Some(c) && break_char(c)),
{
    matches!(ch, Some('\r' | '\n' | '\u{0085}' | '\u{2028}' | '\u{2029}'))
}

/// Check whether the input has ended or the character is a line break.
pub fn is_breakz(ch: Option<char>) -> (r: bool)
    ensures
        r == (ch is None || (ch matches Some(c) && break_char(c))),
{
    ch.is_none() || is_break(ch)
}

/// Check whether the input has ended or the character is a space, a tab or
/// a line break.
pub fn is_blankz(ch: Option<char>) -> (r: bool)
    ensures
        r == (ch is None || (ch matches Some(c) && (blank_char(c) || break_char(c)))),
{
    is_blank(ch) || is_breakz(ch)
}

/// A plainly printable character is printable in the wider stream sense.
pub proof fn law_plainly_printable_is_printable(c: char)
    requires
        plainly_printable_char(c),
    ensures
        crate::char_traits::printable_char(c),
{
}

} // verus!
