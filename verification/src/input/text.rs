//! Character-level views of UTF-8 text: reading and dropping the first
//! character of a `&str`, and the facts about UTF-8 encodings they rest on.

use vstd::prelude::*;
use vstd::string::StringSliceAdditionalSpecFns;
use vstd::utf8::*;

verus! {

broadcast use vstd::string::group_string_axioms;

/// The `n`-th character of `s`, or `\0` when `n` is past its end.
pub open spec fn nth_or_nul(s: Seq<char>, n: int) -> char {
    if 0 <= n < s.len() {
        s[n]
    } else {
        '\0'
    }
}

/// `s` without its first `n` characters (empty when `n` exceeds its length).
pub open spec fn skip_chars(s: Seq<char>, n: int) -> Seq<char> {
    if n <= 0 {
        s
    } else if n < s.len() {
        s.skip(n)
    } else {
        Seq::empty()
    }
}

/// Number of bytes of the UTF-8 encoding of a character.
pub open spec fn utf8_width(c: char) -> nat {
    encode_scalar(c as u32).len()
}

/// `char::len_utf8`: the number of bytes the character takes in UTF-8.
pub assume_specification[ char::len_utf8 ](c: char) -> (r: usize)
    ensures
        r == encode_scalar(c as u32).len(),
;

/// The encoding of a concatenation is the concatenation of the encodings.
pub proof fn lemma_encode_concat(a: Seq<char>, b: Seq<char>)
    ensures
        encode_utf8(a + b) == encode_utf8(a) + encode_utf8(b),
    decreases a.len(),
{
    if a.len() == 0 {
        assert(a + b =~= b);
        assert(encode_utf8(a) =~= Seq::<u8>::empty());
        assert(encode_utf8(a + b) =~= encode_utf8(a) + encode_utf8(b));
    } else {
        lemma_encode_concat(a.drop_first(), b);
        assert((a + b).drop_first() =~= a.drop_first() + b);
        assert((a + b)[0] == a[0]);
        assert(encode_utf8(a + b) =~= encode_utf8(a) + encode_utf8(b));
    }
}

/// Every character takes between one and four bytes.
pub proof fn lemma_width_bounds(c: char)
    ensures
        1 <= utf8_width(c) <= 4,
        utf8_width(c) == 1 <==> (c as u32) < 0x80,
{
    char_is_scalar(c);
}

/// The encoding of a character sequence is at least as long as the sequence
/// and at most four times as long.
pub proof fn lemma_encode_len(a: Seq<char>)
    ensures
        a.len() <= encode_utf8(a).len() <= 4 * a.len(),
    decreases a.len(),
{
    if a.len() > 0 {
        lemma_width_bounds(a[0]);
        lemma_encode_len(a.drop_first());
    }
}

/// The end of the encoding of a prefix is a character boundary of the whole.
pub proof fn lemma_boundary_after_prefix(a: Seq<char>, b: Seq<char>)
    ensures
        valid_utf8(encode_utf8(a + b)),
        is_char_boundary(encode_utf8(a + b), encode_utf8(a).len() as int),
    decreases a.len(),
{
    encode_utf8_valid_utf8(a + b);
    if a.len() == 0 {
        assert(encode_utf8(a) =~= Seq::<u8>::empty());
    } else {
        let ab = a + b;
        let bytes = encode_utf8(ab);
        encode_utf8_first_scalar(ab);
        assert(ab[0] == a[0]);
        assert(ab.drop_first() =~= a.drop_first() + b);
        assert(pop_first_scalar(bytes) =~= encode_utf8(ab.drop_first()));
        lemma_boundary_after_prefix(a.drop_first(), b);
        lemma_encode_concat(a.drop_first(), b);
        lemma_encode_concat(a, b);
        lemma_width_bounds(a[0]);
    }
}

/// A string slice whose bytes are the encoding of `x` has `x` as its characters.
pub proof fn lemma_view_from_bytes(s: &str, x: Seq<char>)
    requires
        s.spec_bytes() == encode_utf8(x),
    ensures
        s@ == x,
{
    encode_utf8_decode_utf8(s@);
    encode_utf8_decode_utf8(x);
}

/// The first byte of an encoding tells whether the first character is ASCII,
/// and for an ASCII character it is that character.
pub proof fn lemma_first_byte(chars: Seq<char>)
    requires
        chars.len() > 0,
    ensures
        encode_utf8(chars).len() >= utf8_width(chars[0]),
        encode_utf8(chars).len() > 0,
        (encode_utf8(chars)[0] < 0x80) == ((chars[0] as u32) < 0x80),
        (chars[0] as u32) < 0x80 ==> encode_utf8(chars)[0] as u32 == chars[0] as u32,
{
    let c = chars[0] as u32;
    char_is_scalar(chars[0]);
    lemma_encode_concat(seq![chars[0]], chars.drop_first());
    assert(seq![chars[0]] + chars.drop_first() =~= chars);
    assert(encode_utf8(seq![chars[0]]) =~= encode_scalar(c)) by {
        assert(seq![chars[0]].drop_first() =~= Seq::<char>::empty());
        assert(encode_utf8(Seq::<char>::empty()) =~= Seq::<u8>::empty());
    }
    if has_width_1_encoding(c) {
        assert(((c & 0x7F) as u8) as u32 == c && ((c & 0x7F) as u8) < 0x80) by (bit_vector)
            requires
                c <= 0x7F,
        ;
    } else if has_width_2_encoding(c) {
        assert(0xC0 | ((c >> 6) & 0x1F) as u8 >= 0x80u8) by (bit_vector);
    } else if has_width_3_encoding(c) {
        assert(0xE0 | ((c >> 12) & 0x0F) as u8 >= 0x80u8) by (bit_vector);
    } else {
        assert(0xF0 | ((c >> 18) & 0x7) as u8 >= 0x80u8) by (bit_vector);
    }
}

/// The first two bytes of an encoding: an ASCII byte is exactly the ASCII
/// character at that position.
pub proof fn lemma_leading_bytes(s: Seq<char>)
    requires
        s.len() > 0,
    ensures
        encode_utf8(s).len() > 0,
        (encode_utf8(s)[0] < 0x80) == ((s[0] as u32) < 0x80),
        encode_utf8(s)[0] < 0x80 ==> s[0] as u32 == encode_utf8(s)[0] as u32,
        (encode_utf8(s)[0] < 0x80 && encode_utf8(s).len() >= 2) ==> {
            &&& s.len() >= 2
            &&& (encode_utf8(s)[1] < 0x80) == ((s[1] as u32) < 0x80)
            &&& encode_utf8(s)[1] < 0x80 ==> s[1] as u32 == encode_utf8(s)[1] as u32
        },
{
    lemma_first_byte(s);
    let bytes = encode_utf8(s);
    if bytes[0] < 0x80 && bytes.len() >= 2 {
        let rest = s.drop_first();
        assert(seq![s[0]] + rest =~= s);
        lemma_encode_concat(seq![s[0]], rest);
        assert(seq![s[0]].drop_first() =~= Seq::<char>::empty());
        assert(encode_utf8(Seq::<char>::empty()) =~= Seq::<u8>::empty());
        assert(encode_utf8(seq![s[0]]) =~= encode_scalar(s[0] as u32));
        lemma_width_bounds(s[0]);
        assert(encode_utf8(rest).len() >= 1);
        if rest.len() == 0 {
            assert(encode_utf8(rest) =~= Seq::<u8>::empty());
        }
        lemma_first_byte(rest);
        assert(bytes[1] == encode_utf8(rest)[0]);
    }
}

/// The first character of a string slice, or `\0` when it is empty.
pub fn str_first(s: &str) -> (c: char)
    ensures
        c == nth_or_nul(s@, 0),
{
    if s.is_empty() {
        return '\0';
    }
    proof {
        lemma_first_byte(s@);
    }
    let b = s.as_bytes()[0];
    if b < 0x80 {
        proof {
            vstd::utf8::char_u32_cast(s@[0], b as u32);
        }
        b as char
    } else {
        let mut chars = s.chars();
        chars.next().unwrap()
    }
}

/// The string slice without its first character (unchanged when empty).
pub fn str_rest<'a>(s: &'a str) -> (r: &'a str)
    ensures
        r@ == skip_chars(s@, 1),
{
    if s.is_empty() {
        return s;
    }
    proof {
        lemma_first_byte(s@);
    }
    let b = s.as_bytes()[0];
    let width: usize = if b < 0x80 {
        1
    } else {
        str_first(s).len_utf8()
    };
    let ghost first = s@.take(1);
    let ghost rest = s@.skip(1);
    proof {
        assert(first + rest =~= s@);
        lemma_boundary_after_prefix(first, rest);
        lemma_encode_concat(first, rest);
        assert(first.drop_first() =~= Seq::<char>::empty());
        assert(encode_utf8(Seq::<char>::empty()) =~= Seq::<u8>::empty());
        assert(encode_utf8(first) =~= encode_scalar(s@[0] as u32));
        lemma_width_bounds(s@[0]);
        assert(width == encode_utf8(first).len());
    }
    let (_, tail) = s.split_at(width);
    proof {
        assert(tail.spec_bytes() =~= encode_utf8(rest));
        lemma_view_from_bytes(tail, rest);
    }
    tail
}

} // verus!
