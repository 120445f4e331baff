//! Character classification functions for YAML scanning.
//!
//! These functions classify characters according to the YAML specification,
//! including YAML 1.1 Unicode line break characters.

use vstd::prelude::*;

verus! {

/// The nil character (`\0`).
pub open spec fn nil_char(c: char) -> bool {
    c == '\0'
}

/// Line break characters, including the YAML 1.1 Unicode ones.
pub open spec fn break_char(c: char) -> bool {
    c == '\r' || c == '\n' || c == '\u{0085}' || c == '\u{2028}' || c == '\u{2029}'
}

/// YAML whitespace: space or tab.
pub open spec fn blank_char(c: char) -> bool {
    c == ' ' || c == '\t'
}

/// ASCII alphanumeric characters, `_` and `-`.
pub open spec fn alpha_char(c: char) -> bool {
    ('0' <= c && c <= '9') || ('a' <= c && c <= 'z') || ('A' <= c && c <= 'Z') || c == '_' || c
        == '-'
}

/// ASCII decimal digits.
pub open spec fn digit_char(c: char) -> bool {
    '0' <= c && c <= '9'
}

/// ASCII hexadecimal digits, either case.
pub open spec fn hex_char(c: char) -> bool {
    ('0' <= c && c <= '9') || ('a' <= c && c <= 'f') || ('A' <= c && c <= 'F')
}

/// The value of a hexadecimal digit.
pub open spec fn hex_value(c: char) -> u32
    recommends
        hex_char(c),
{
    if '0' <= c && c <= '9' {
        (c as u32 - '0' as u32) as u32
    } else if 'a' <= c && c <= 'f' {
        (c as u32 - 'a' as u32 + 10) as u32
    } else {
        (c as u32 - 'A' as u32 + 10) as u32
    }
}

/// YAML flow indicators: `,[]{}`.
pub open spec fn flow_char(c: char) -> bool {
    c == ',' || c == '[' || c == ']' || c == '{' || c == '}'
}

/// Characters that YAML allows in a stream (the printable set of the YAML spec).
pub open spec fn printable_char(c: char) -> bool {
    if c == '\u{feff}' || c == '\u{fffe}' || c == '\u{ffff}' {
        false
    } else {
        c == '\x0a' || c == '\x0d' || ('\x20' <= c && c <= '\x7e') || c == '\u{0085}' || (
        '\u{00a0}' <= c && c <= '\u{d7ff}') || ('\u{e000}' <= c && c <= '\u{fffd}') || (
        '\u{10000}' <= c && c <= '\u{10ffff}')
    }
}

/// Check whether the character is nil (`\0`).
#[must_use]
pub fn is_z(c: char) -> (r: bool)
    ensures
        r == nil_char(c),
{
    c == '\0'
}

/// Check whether the character is a line break.
///
/// Includes YAML 1.1 Unicode line breaks: NEL (`\u{0085}`), LS (`\u{2028}`), PS (`\u{2029}`).
#[must_use]
pub fn is_break(c: char) -> (r: bool)
    ensures
        r == break_char(c),
{
    matches!(c, '\r' | '\n' | '\u{0085}' | '\u{2028}' | '\u{2029}')
}

/// Check whether the character is nil or a line break.
#[must_use]
pub fn is_breakz(c: char) -> (r: bool)
    ensures
        r == (break_char(c) || nil_char(c)),
{
    is_break(c) || is_z(c)
}

/// Check whether the character is a YAML whitespace (` ` or `\t`).
#[must_use]
pub fn is_blank(c: char) -> (r: bool)
    ensures
        r == blank_char(c),
{
    c == ' ' || c == '\t'
}

/// Check whether the character is nil, a line break, or a whitespace.
#[must_use]
pub fn is_blank_or_breakz(c: char) -> (r: bool)
    ensures
        r == (blank_char(c) || break_char(c) || nil_char(c)),
{
    is_blank(c) || is_breakz(c)
}

/// Check whether the character is ASCII alphanumeric, `_`, or `-`.
#[must_use]
pub fn is_alpha(c: char) -> (r: bool)
    ensures
        r == alpha_char(c),
{
    matches!(c, '0'..='9' | 'a'..='z' | 'A'..='Z' | '_' | '-')
}

/// Check whether the character is an ASCII digit.
#[must_use]
pub fn is_digit(c: char) -> (r: bool)
    ensures
        r == digit_char(c),
{
    '0' <= c && c <= '9'
}

/// Check whether the character is a hexadecimal digit (case insensitive).
#[must_use]
pub fn is_hex(c: char) -> (r: bool)
    ensures
        r == hex_char(c),
{
    ('0' <= c && c <= '9') || ('a' <= c && c <= 'f') || ('A' <= c && c <= 'F')
}

/// Convert a hexadecimal digit to its integer value.
///
/// The character must be a hex digit.
#[must_use]
pub fn as_hex(c: char) -> (r: u32)
    requires
        hex_char(c),
    ensures
        r == hex_value(c),
        r < 16,
{
    if '0' <= c && c <= '9' {
        c as u32 - '0' as u32
    } else if 'a' <= c && c <= 'f' {
        c as u32 - 'a' as u32 + 10
    } else {
        c as u32 - 'A' as u32 + 10
    }
}

/// Check whether the character is a YAML flow indicator (one of `,[]{}`).
#[must_use]
pub fn is_flow(c: char) -> (r: bool)
    ensures
        r == flow_char(c),
{
    matches!(c, ',' | '[' | ']' | '{' | '}')
}

/// Check whether the character is the BOM character (`\u{FEFF}`).
#[must_use]
pub fn is_bom(c: char) -> (r: bool)
    ensures
        r == (c == '\u{feff}'),
{
    c == '\u{FEFF}'
}

/// Check whether the character is a printable YAML character.
#[must_use]
pub fn is_printable(c: char) -> (r: bool)
    ensures
        r == printable_char(c),
{
    match c {
        '\u{feff}' | '\u{fffe}' | '\u{ffff}' => false,
        '\x0a' | '\x0d' | '\x20'..='\x7e' | '\u{0085}' | '\u{00a0}'..='\u{d7ff}'
        | '\u{e000}'..='\u{fffd}' | '\u{10000}'..='\u{10ffff}' => true,
        _ => false,
    }
}

/// Check whether the character is ASCII.
#[must_use]
pub fn is_ascii(c: char) -> (r: bool)
    ensures
        r == ((c as u32) < 0x80),
{
    (c as u32) < 0x80
}

/// No character is both a whitespace and a line break, and neither is nil.
pub proof fn law_blank_break_nil_disjoint(c: char)
    ensures
        !(blank_char(c) && break_char(c)),
        !(blank_char(c) && nil_char(c)),
        !(break_char(c) && nil_char(c)),
{
}

/// Every decimal digit is a hex digit and an alphanumeric character, and its
/// hex value is its decimal value.
pub proof fn law_digit_is_hex_and_alpha(c: char)
    requires
        digit_char(c),
    ensures
        hex_char(c),
        alpha_char(c),
        hex_value(c) == c as u32 - '0' as u32,
{
}

/// Whitespace, line breaks, nil and flow indicators are never alphanumeric.
pub proof fn law_separators_are_not_alpha(c: char)
    requires
        blank_char(c) || break_char(c) || nil_char(c) || flow_char(c),
    ensures
        !alpha_char(c),
{
}

/// The byte order mark is not printable, and neither is nil.
pub proof fn law_bom_and_nil_not_printable()
    ensures
        !printable_char('\u{feff}'),
        !printable_char('\0'),
{
}

} // verus!
