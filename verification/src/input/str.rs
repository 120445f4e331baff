use crate::char_traits;
use crate::input::text::{lemma_leading_bytes, nth_or_nul, skip_chars, str_first, str_rest};
use crate::input::{input_at_end, Input};
use vstd::prelude::*;
use vstd::string::StringSliceAdditionalSpecFns;

verus! {

/// A parser input backed by a `&str`.
///
/// This is the most efficient input source: the entire string is available,
/// so `lookahead()` is a no-op, and `peek()`/`skip()` use ASCII fast-paths
/// that operate directly on bytes when possible.
pub struct StrInput<'a> {
    /// The remaining input (a moving window into the input string).
    buffer: &'a str,
    /// Tracks the requested lookahead count (for `buflen()`).
    lookahead: usize,
}

impl<'a> StrInput<'a> {
    /// Create a new [`StrInput`] from a string slice.
    #[must_use]
    pub fn new(input: &'a str) -> (r: Self)
        ensures
            r.well_formed(),
            r.chars() == input@,
            r.nul_ends_input(),
            r.buffered() == 0,
    {
        Self { buffer: input, lookahead: 0 }
    }
}

/// The `n`-th character of `s` (`\0` past the end), walking the string.
fn str_nth(s: &str, n: usize) -> (c: char)
    ensures
        c == nth_or_nul(s@, n as int),
{
    let mut rest = s;
    let mut i: usize = 0;
    while i < n && !rest.is_empty()
        invariant
            i <= n,
            rest@ == skip_chars(s@, i as int),
        decreases n - i,
    {
        rest = str_rest(rest);
        proof {
            if i + 1 < s@.len() {
                assert(s@.skip(i as int).skip(1) =~= s@.skip(i + 1));
            }
        }
        i += 1;
    }
    str_first(rest)
}

/// `s` without its first `count` characters (empty when it has fewer).
fn str_skip_n<'a>(s: &'a str, count: usize) -> (r: &'a str)
    ensures
        r@ == skip_chars(s@, count as int),
{
    let mut rest = s;
    let mut i: usize = 0;
    while i < count && !rest.is_empty()
        invariant
            i <= count,
            rest@ == skip_chars(s@, i as int),
        decreases count - i,
    {
        rest = str_rest(rest);
        proof {
            if i + 1 < s@.len() {
                assert(s@.skip(i as int).skip(1) =~= s@.skip(i + 1));
            }
        }
        i += 1;
    }
    proof {
        if i < count && i < s@.len() {
            assert(s@.skip(i as int).len() > 0);
        }
    }
    rest
}

/// Whether the first character of `s` is a line break, checked on the bytes
/// when the first character is ASCII.
pub(crate) fn str_next_is_break(s: &str) -> (r: bool)
    ensures
        r == char_traits::break_char(nth_or_nul(s@, 0)),
{
    if s.is_empty() {
        return false;
    }
    proof {
        lemma_leading_bytes(s@);
    }
    let b = s.as_bytes()[0];
    if b < 0x80 {
        b == ('\n' as u8) || b == ('\r' as u8)
    } else {
        // Check for Unicode line breaks: NEL (U+0085), LS (U+2028), PS (U+2029).
        let c = str_first(s);
        c == '\u{0085}' || c == '\u{2028}' || c == '\u{2029}'
    }
}

/// Whether `s` is empty or starts with a whitespace or a line break.
pub(crate) fn str_next_is_blank_or_breakz(s: &str) -> (r: bool)
    ensures
        r == (nth_or_nul(s@, 0) == '\0' || char_traits::blank_char(nth_or_nul(s@, 0))
            || char_traits::break_char(nth_or_nul(s@, 0))),
{
    if s.is_empty() {
        return true;
    }
    proof {
        lemma_leading_bytes(s@);
    }
    let b = s.as_bytes()[0];
    if b < 0x80 {
        b == 0 || b == (' ' as u8) || b == ('\t' as u8) || b == ('\n' as u8) || b == ('\r' as u8)
    } else {
        char_traits::is_break(str_first(s))
    }
}

/// Whether `s` starts with a whitespace.
pub(crate) fn str_next_is_blank(s: &str) -> (r: bool)
    ensures
        r == char_traits::blank_char(nth_or_nul(s@, 0)),
{
    if s.is_empty() {
        return false;
    }
    proof {
        lemma_leading_bytes(s@);
    }
    let b = s.as_bytes()[0];
    b == (' ' as u8) || b == ('\t' as u8)
}

/// Whether `s` starts with an ASCII alphanumeric character, `_` or `-`.
pub(crate) fn str_next_is_alpha(s: &str) -> (r: bool)
    ensures
        r == char_traits::alpha_char(nth_or_nul(s@, 0)),
{
    if s.is_empty() {
        return false;
    }
    proof {
        lemma_leading_bytes(s@);
    }
    let b = s.as_bytes()[0];
    (('0' as u8) <= b && b <= ('9' as u8)) || (('a' as u8) <= b && b <= ('z' as u8)) || (('A' as u8) <= b && b <= ('Z' as u8)) || b == ('_' as u8)
        || b == ('-' as u8)
}

/// Whether `s` starts with an ASCII digit.
pub(crate) fn str_next_is_digit(s: &str) -> (r: bool)
    ensures
        r == char_traits::digit_char(nth_or_nul(s@, 0)),
{
    if s.is_empty() {
        return false;
    }
    proof {
        lemma_leading_bytes(s@);
    }
    let b = s.as_bytes()[0];
    ('0' as u8) <= b && b <= ('9' as u8)
}

/// The `n`-th character of `s`, with a byte-level fast path for the second
/// character when the first two are ASCII.
pub(crate) fn str_peek_nth(s: &str, n: usize) -> (c: char)
    ensures
        c == nth_or_nul(s@, n as int),
{
    if n == 0 {
        return str_first(s);
    }
    let bytes = s.as_bytes();
    // Fast path: both the first `n` characters and the target are ASCII.
    if n == 1 && bytes.len() >= 2 && bytes[0] < 0x80 && bytes[1] < 0x80 {
        proof {
            assert(s@.len() > 0) by {
                if s@.len() == 0 {
                    assert(s.spec_bytes() =~= Seq::<u8>::empty());
                }
            }
            lemma_leading_bytes(s@);
            vstd::utf8::char_u32_cast(s@[1], bytes[1] as u32);
        }
        return bytes[1] as char;
    }
    str_nth(s, n)
}

impl<'a> Input for StrInput<'a> {
    closed spec fn chars(&self) -> Seq<char> {
        self.buffer@
    }

    open spec fn nul_ends_input(&self) -> bool {
        true
    }

    open spec fn well_formed(&self) -> bool {
        true
    }

    closed spec fn buffered(&self) -> nat {
        self.lookahead as nat
    }

    fn lookahead(&mut self, count: usize)
        ensures
            final(self).buffered() == if old(self).buffered() < count {
                count as nat
            } else {
                old(self).buffered()
            },
    {
        // The entire string is already available; just track the request.
        self.lookahead = if self.lookahead < count {
            count
        } else {
            self.lookahead
        };
    }

    fn buflen(&self) -> usize {
        self.lookahead
    }

    fn peek(&self) -> char {
        str_first(self.buffer)
    }

    fn peek_nth(&self, n: usize) -> char {
        str_peek_nth(self.buffer, n)
    }

    fn skip(&mut self)
        ensures
            final(self).buffered() == old(self).buffered(),
    {
        if !self.buffer.is_empty() {
            self.buffer = str_rest(self.buffer);
        }
    }

    fn skip_n(&mut self, count: usize)
        ensures
            final(self).buffered() == old(self).buffered(),
    {
        self.buffer = str_skip_n(self.buffer, count);
    }

    fn next_is_z(&self) -> bool {
        str_first(self.buffer) == '\0'
    }

    fn next_is_break(&self) -> bool {
        str_next_is_break(self.buffer)
    }

    fn next_is_breakz(&self) -> bool {
        self.next_is_z() || self.next_is_break()
    }

    fn next_is_blank(&self) -> bool {
        str_next_is_blank(self.buffer)
    }

    fn next_is_blank_or_breakz(&self) -> bool {
        str_next_is_blank_or_breakz(self.buffer)
    }

    fn next_is_alpha(&self) -> bool {
        str_next_is_alpha(self.buffer)
    }

    fn next_is_digit(&self) -> bool {
        str_next_is_digit(self.buffer)
    }

    fn next_is_bom(&self) -> bool {
        // BOM is U+FEFF, which is 0xEF 0xBB 0xBF in UTF-8.
        str_first(self.buffer) == '\u{FEFF}'
    }
}

impl<'a> From<&'a str> for StrInput<'a> {
    fn from(value: &'a str) -> (r: Self)
        ensures
            r.chars() == value@,
            r.buffered() == 0,
    {
        StrInput { buffer: value, lookahead: 0 }
    }
}

impl<'a> vstd::std_specs::convert::FromSpecImpl<&'a str> for StrInput<'a> {
    open spec fn obeys_from_spec() -> bool {
        true
    }

    closed spec fn from_spec(v: &'a str) -> Self {
        StrInput { buffer: v, lookahead: 0 }
    }
}

} // verus!
