//! Contracts for the `String` and `char` operations the scanner uses, and
//! small verified helpers on strings.

use crate::input::text::{nth_or_nul, skip_chars, str_first, str_rest};
use vstd::prelude::*;

verus! {

/// `String::push`: appends the character.
pub assume_specification[ String::push ](s: &mut String, ch: char)
    ensures
        final(s)@ == old(s)@.push(ch),
;

/// `String::push_str`: appends the characters of the slice.
pub assume_specification[ String::push_str ](s: &mut String, string: &str)
    ensures
        final(s)@ == old(s)@ + string@,
;

/// `String::clear`: removes every character.
pub assume_specification[ String::clear ](s: &mut String)
    ensures
        final(s)@ == Seq::<char>::empty(),
;

/// `String::is_empty`: whether there are no characters.
pub assume_specification[ String::is_empty ](s: &String) -> (r: bool)
    ensures
        r == (s@.len() == 0),
;

/// Whether a value is a Unicode scalar value, i.e. a valid `char`.
pub open spec fn is_char_value(v: u32) -> bool {
    v <= 0x10FFFF && !(0xD800 <= v && v <= 0xDFFF)
}

/// `char::from_u32`: the character with that code, when it is a valid `char`.
pub assume_specification[ core::char::from_u32 ](i: u32) -> (r: Option<char>)
    ensures
        r is Some <==> is_char_value(i),
        r matches Some(c) ==> c as u32 == i,
;

/// Whether two string slices hold the same characters.
pub fn str_eq(a: &str, b: &str) -> (r: bool)
    ensures
        r == (a@ == b@),
{
    let mut x = a;
    let mut y = b;
    let ghost mut i: int = 0;
    while !x.is_empty() && !y.is_empty()
        invariant
            0 <= i <= a@.len(),
            i <= b@.len(),
            x@ == a@.skip(i),
            y@ == b@.skip(i),
            a@.take(i) == b@.take(i),
        decreases x@.len(),
    {
        let cx = str_first(x);
        let cy = str_first(y);
        if cx != cy {
            proof {
                assert(a@[i] == cx && b@[i] == cy);
            }
            return false;
        }
        x = str_rest(x);
        y = str_rest(y);
        proof {
            assert(a@.skip(i).skip(1) =~= a@.skip(i + 1));
            assert(b@.skip(i).skip(1) =~= b@.skip(i + 1));
            assert(a@.take(i + 1) =~= a@.take(i).push(a@[i]));
            assert(b@.take(i + 1) =~= b@.take(i).push(b@[i]));
            i = i + 1;
        }
    }
    proof {
        if x.is_empty() && y.is_empty() {
            assert(a@ =~= a@.take(i));
            assert(b@ =~= b@.take(i));
        } else {
            assert(a@.len() != b@.len());
        }
    }
    x.is_empty() && y.is_empty()
}

/// The last character of a string slice (`\0` when empty).
pub fn str_last(s: &str) -> (c: char)
    ensures
        c == nth_or_nul(s@, s@.len() - 1),
{
    if s.is_empty() {
        return '\0';
    }
    let mut x = s;
    let ghost mut i: int = 0;
    while !str_rest(x).is_empty()
        invariant
            0 <= i < s@.len(),
            x@ == s@.skip(i),
        decreases x@.len(),
    {
        x = str_rest(x);
        proof {
            assert(s@.skip(i).skip(1) =~= s@.skip(i + 1));
            i = i + 1;
        }
    }
    proof {
        assert(skip_chars(x@, 1).len() == 0);
    }
    str_first(x)
}

} // verus!
