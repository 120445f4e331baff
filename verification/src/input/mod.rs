//! Input abstraction for the YAML scanner.
//!
//! The [`Input`] trait provides a character-level interface for the scanner,
//! abstracting over different input sources. Two implementations are provided
//! here:
//!
//! - [`StrInput`]: Optimized for `&str` inputs with ASCII fast-paths.
//! - [`OwnedStrInput`]: The same, over an owned `String`.
//!
//! An input is described by the sequence of characters it still holds
//! ([`Input::chars`]); every operation is specified over that sequence.

mod owned_str;
mod str;
pub mod text;

pub use self::owned_str::OwnedStrInput;
pub use self::str::StrInput;

use crate::char_traits;
use crate::char_traits::{alpha_char, blank_char, break_char, digit_char};
use self::text::{nth_or_nul, skip_chars};
use vstd::prelude::*;

verus! {

/// Whether the input has nothing more to give: it is exhausted, or, for an
/// input that treats a nil character as its end, the next character is nil.
pub open spec fn input_at_end<I: Input + ?Sized>(input: &I) -> bool {
    input.chars().len() == 0 || (input.nul_ends_input() && input.chars()[0] == '\0')
}

/// The characters left of `s` after `n` single-character skips.
pub open spec fn skipped_one_by_one(s: Seq<char>, n: nat) -> Seq<char>
    decreases n,
{
    if n == 0 {
        s
    } else {
        skip_chars(skipped_one_by_one(s, (n - 1) as nat), 1)
    }
}

/// Skipping `n` characters at once leaves what `n` single skips leave.
pub proof fn lemma_skip_n_is_repeated_skip(s: Seq<char>, n: nat)
    ensures
        skip_chars(s, n as int) == skipped_one_by_one(s, n),
    decreases n,
{
    if n > 0 {
        lemma_skip_n_is_repeated_skip(s, (n - 1) as nat);
        let t = skip_chars(s, n - 1);
        if n < s.len() {
            assert(t.skip(1) =~= s.skip(n as int));
        } else if n - 1 < s.len() {
            assert(t.len() == 1);
        }
    }
}

/// Interface for a source of characters to the YAML scanner.
///
/// The scanner operates on characters through this trait, which allows
/// input-specific optimizations (e.g., direct byte-level checks for `&str`).
///
/// The specification functions describe an input as the characters it still
/// holds. An implementation that keeps their defaults describes nothing: it
/// is never well formed, and no contract of this crate speaks of it.
pub trait Input {
    /// The characters not yet consumed.
    open spec fn chars(&self) -> Seq<char> {
        Seq::empty()
    }

    /// Whether a nil character counts as the end of the input.
    open spec fn nul_ends_input(&self) -> bool {
        true
    }

    /// The internal consistency of the input source.
    open spec fn well_formed(&self) -> bool {
        false
    }

    /// The number of characters that `buflen` reports.
    open spec fn buffered(&self) -> nat {
        0
    }

    /// Ensure at least `count` characters are available for peeking.
    ///
    /// If the input is exhausted, subsequent `peek()` calls return `\0`.
    fn lookahead(&mut self, count: usize)
        requires
            old(self).well_formed(),
        ensures
            final(self).well_formed(),
            final(self).chars() == old(self).chars(),
            final(self).nul_ends_input() == old(self).nul_ends_input(),
            final(self).buffered() >= count,
            final(self).buffered() >= old(self).buffered(),
    ;

    /// Return the number of characters available in the buffer.
    fn buflen(&self) -> (n: usize)
        requires
            self.well_formed(),
        ensures
            n == self.buffered(),
    ;

    /// Return the next character without consuming it.
    ///
    /// Returns `\0` if the input is exhausted.
    fn peek(&self) -> (c: char)
        requires
            self.well_formed(),
        ensures
            c == nth_or_nul(self.chars(), 0),
    ;

    /// Return the `n`-th character without consuming it.
    ///
    /// Returns `\0` if `n` is past the end of input.
    fn peek_nth(&self, n: usize) -> (c: char)
        requires
            self.well_formed(),
        ensures
            c == nth_or_nul(self.chars(), n as int),
    ;

    /// Consume the next character.
    fn skip(&mut self)
        requires
            old(self).well_formed(),
        ensures
            final(self).well_formed(),
            final(self).chars() == skip_chars(old(self).chars(), 1),
            final(self).nul_ends_input() == old(self).nul_ends_input(),
    ;

    /// Consume the next `count` characters.
    fn skip_n(&mut self, count: usize)
        requires
            old(self).well_formed(),
        ensures
            final(self).well_formed(),
            final(self).chars() == skip_chars(old(self).chars(), count as int),
            final(self).nul_ends_input() == old(self).nul_ends_input(),
    {
        for i in 0..count
            invariant
                self.well_formed(),
                self.chars() == skip_chars(old(self).chars(), i as int),
                self.nul_ends_input() == old(self).nul_ends_input(),
        {
            self.skip();
            proof {
                let s = old(self).chars();
                if i + 1 < s.len() {
                    assert(s.skip(i as int).skip(1) =~= s.skip(i + 1));
                }
            }
        }
    }

    /// Ensure at least one character is buffered, then return it.
    fn look_ch(&mut self) -> (c: char)
        requires
            old(self).well_formed(),
        ensures
            final(self).well_formed(),
            final(self).chars() == old(self).chars(),
            final(self).nul_ends_input() == old(self).nul_ends_input(),
            final(self).buffered() >= 1,
            c == nth_or_nul(old(self).chars(), 0),
    {
        self.lookahead(1);
        self.peek()
    }

    /// Check whether the next character equals `c`.
    fn next_char_is(&self, c: char) -> (r: bool)
        requires
            self.well_formed(),
        ensures
            r == (nth_or_nul(self.chars(), 0) == c),
    {
        self.peek() == c
    }

    /// Check whether the `n`-th character equals `c`.
    fn nth_char_is(&self, n: usize, c: char) -> (r: bool)
        requires
            self.well_formed(),
        ensures
            r == (nth_or_nul(self.chars(), n as int) == c),
    {
        self.peek_nth(n) == c
    }

    /// Check whether the next character is nil (`\0` / end of input).
    fn next_is_z(&self) -> (r: bool)
        requires
            self.well_formed(),
        ensures
            r == (self.chars().len() == 0 || (self.nul_ends_input() && self.chars()[0] == '\0')),
    ;

    /// Check whether the next character is a line break.
    fn next_is_break(&self) -> (r: bool)
        requires
            self.well_formed(),
        ensures
            r == break_char(nth_or_nul(self.chars(), 0)),
    {
        char_traits::is_break(self.peek())
    }

    /// Check whether the input is at its end or the next character is a line break.
    fn next_is_breakz(&self) -> (r: bool)
        requires
            self.well_formed(),
        ensures
            r == ((self.chars().len() == 0 || (self.nul_ends_input() && self.chars()[0] == '\0')) || break_char(nth_or_nul(self.chars(), 0))),
    ;

    /// Check whether the next character is a YAML whitespace.
    fn next_is_blank(&self) -> (r: bool)
        requires
            self.well_formed(),
        ensures
            r == blank_char(nth_or_nul(self.chars(), 0)),
    {
        char_traits::is_blank(self.peek())
    }

    /// Check whether the input is at its end, or the next character is a line
    /// break or a whitespace.
    fn next_is_blank_or_breakz(&self) -> (r: bool)
        requires
            self.well_formed(),
        ensures
            r == ((self.chars().len() == 0 || (self.nul_ends_input() && self.chars()[0] == '\0')) || blank_char(nth_or_nul(self.chars(), 0)) || break_char(
                nth_or_nul(self.chars(), 0),
            )),
    ;

    /// Check whether the next character is ASCII alphanumeric, `_`, or `-`.
    fn next_is_alpha(&self) -> (r: bool)
        requires
            self.well_formed(),
        ensures
            r == alpha_char(nth_or_nul(self.chars(), 0)),
    {
        char_traits::is_alpha(self.peek())
    }

    /// Check whether the next character is an ASCII digit.
    fn next_is_digit(&self) -> (r: bool)
        requires
            self.well_formed(),
        ensures
            r == digit_char(nth_or_nul(self.chars(), 0)),
    {
        char_traits::is_digit(self.peek())
    }

    /// Check whether the next character is a BOM.
    fn next_is_bom(&self) -> (r: bool)
        requires
            self.well_formed(),
        ensures
            r == (nth_or_nul(self.chars(), 0) == '\u{feff}'),
    {
        char_traits::is_bom(self.peek())
    }
}

} // verus!
