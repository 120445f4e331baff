use crate::char_traits;
use crate::input::str::{
    str_next_is_alpha, str_next_is_blank, str_next_is_blank_or_breakz, str_next_is_break,
    str_next_is_digit, str_peek_nth,
};
use crate::input::text::{
    lemma_boundary_after_prefix, lemma_encode_concat, lemma_first_byte, lemma_view_from_bytes,
    lemma_width_bounds, nth_or_nul, skip_chars, str_first,
};
use crate::input::{input_at_end, Input};
use vstd::prelude::*;
use vstd::string::StringSliceAdditionalSpecFns;
use vstd::utf8::encode_utf8;

verus! {

/// A parser input backed by an owned `String`.
///
/// This is identical to [`super::StrInput`] in performance characteristics
/// (ASCII fast-paths, no-op `lookahead()`), but owns its data so there is no
/// lifetime parameter. Use this when the caller wants to move a `String` into
/// the parser without worrying about borrow lifetimes.
pub struct OwnedStrInput {
    /// The full input string.
    data: String,
    /// Byte offset into `data` marking the start of unconsumed input.
    offset: usize,
    /// Tracks the requested lookahead count (for `buflen()`).
    lookahead: usize,
    /// The number of characters consumed so far.
    consumed: Ghost<nat>,
}

impl OwnedStrInput {
    /// Create a new [`OwnedStrInput`] from an owned `String`.
    #[must_use]
    pub fn new(data: String) -> (r: Self)
        ensures
            r.well_formed(),
            r.chars() == data@,
            r.nul_ends_input(),
            r.buffered() == 0,
    {
        proof {
            assert(data@.take(0) =~= Seq::<char>::empty());
            assert(encode_utf8(Seq::<char>::empty()) =~= Seq::<u8>::empty());
            assert(data@.skip(0) =~= data@);
        }
        Self { data, offset: 0, lookahead: 0, consumed: Ghost(0) }
    }

    /// Return the remaining (unconsumed) portion of the input.
    fn remaining(&self) -> (r: &str)
        requires
            self.well_formed(),
        ensures
            r@ == self.chars(),
    {
        let ghost done = self.data@.take(self.consumed@ as int);
        let ghost rest = self.data@.skip(self.consumed@ as int);
        let all = self.data.as_str();
        proof {
            assert(done + rest =~= self.data@);
            lemma_boundary_after_prefix(done, rest);
            lemma_encode_concat(done, rest);
        }
        let (_, tail) = all.split_at(self.offset);
        proof {
            assert(tail.spec_bytes() =~= encode_utf8(rest));
            lemma_view_from_bytes(tail, rest);
        }
        tail
    }
}

impl Input for OwnedStrInput {
    closed spec fn chars(&self) -> Seq<char> {
        self.data@.skip(self.consumed@ as int)
    }

    open spec fn nul_ends_input(&self) -> bool {
        true
    }

    closed spec fn well_formed(&self) -> bool {
        &&& self.consumed@ <= self.data@.len()
        &&& self.offset == encode_utf8(self.data@.take(self.consumed@ as int)).len()
    }

    closed spec fn buffered(&self) -> nat {
        self.lookahead as nat
    }

    fn lookahead(&mut self, count: usize)
        ensures
            final(self).buffered() == if old(self).buffered() < count {
                count as nat
            } else {
                old(self).buffered()
            },
    {
        // The entire string is already available; just track the request.
        self.lookahead = if self.lookahead < count {
            count
        } else {
            self.lookahead
        };
    }

    fn buflen(&self) -> usize {
        self.lookahead
    }

    fn peek(&self) -> char {
        str_first(self.remaining())
    }

    fn peek_nth(&self, n: usize) -> char {
        str_peek_nth(self.remaining(), n)
    }

    fn skip(&mut self)
        ensures
            final(self).buffered() == old(self).buffered(),
    {
        let buf = self.remaining();
        if !buf.is_empty() {
            let ghost k = self.consumed@ as int;
            let ghost s = self.data@;
            let total = self.data.as_str().as_bytes().len();
            proof {
                assert(buf@ == s.skip(k));
                assert(s.skip(k).len() > 0);
                lemma_first_byte(buf@);
                lemma_width_bounds(s[k]);
                assert(s.take(k + 1) =~= s.take(k) + seq![s[k]]);
                lemma_encode_concat(s.take(k), seq![s[k]]);
                assert(seq![s[k]].drop_first() =~= Seq::<char>::empty());
                assert(encode_utf8(Seq::<char>::empty()) =~= Seq::<u8>::empty());
                assert(s.take(k + 1) + s.skip(k + 1) =~= s);
                lemma_encode_concat(s.take(k + 1), s.skip(k + 1));
            }
            let b = buf.as_bytes()[0];
            let width = if b < 0x80 {
                1
            } else {
                let c = str_first(buf);
                c.len_utf8()
            };
            proof {
                assert(buf@ == s.skip(k));
                assert(width == encode_utf8(seq![s[k]]).len());
                assert(total == encode_utf8(s).len());
            }
            self.offset = self.offset + width;
            self.consumed = Ghost(self.consumed@ + 1);
            proof {
                assert(s.skip(k).skip(1) =~= s.skip(k + 1));
            }
        }
    }

    fn skip_n(&mut self, count: usize)
        ensures
            final(self).buffered() == old(self).buffered(),
    {
        let mut i: usize = 0;
        while i < count && !self.remaining().is_empty()
            invariant
                i <= count,
                self.well_formed(),
                self.buffered() == old(self).buffered(),
                self.chars() == skip_chars(old(self).chars(), i as int),
                self.nul_ends_input() == old(self).nul_ends_input(),
            decreases count - i,
        {
            self.skip();
            proof {
                let s = old(self).chars();
                if i + 1 < s.len() {
                    assert(s.skip(i as int).skip(1) =~= s.skip(i + 1));
                }
            }
            i += 1;
        }
        proof {
            let s = old(self).chars();
            if i < count && i < s.len() {
                assert(s.skip(i as int).len() > 0);
            }
        }
    }

    fn next_is_z(&self) -> bool {
        str_first(self.remaining()) == '\0'
    }

    fn next_is_break(&self) -> bool {
        str_next_is_break(self.remaining())
    }

    fn next_is_breakz(&self) -> bool {
        self.next_is_z() || self.next_is_break()
    }

    fn next_is_blank(&self) -> bool {
        str_next_is_blank(self.remaining())
    }

    fn next_is_blank_or_breakz(&self) -> bool {
        str_next_is_blank_or_breakz(self.remaining())
    }

    fn next_is_alpha(&self) -> bool {
        str_next_is_alpha(self.remaining())
    }

    fn next_is_digit(&self) -> bool {
        str_next_is_digit(self.remaining())
    }

    fn next_is_bom(&self) -> bool {
        // BOM is U+FEFF, which is 0xEF 0xBB 0xBF in UTF-8.
        str_first(self.remaining()) == '\u{FEFF}'
    }
}

impl From<String> for OwnedStrInput {
    fn from(value: String) -> (r: Self)
        ensures
            r.well_formed(),
            r.chars() == value@,
            r.buffered() == 0,
    {
        proof {
            assert(value@.take(0) =~= Seq::<char>::empty());
            assert(encode_utf8(Seq::<char>::empty()) =~= Seq::<u8>::empty());
            assert(value@.skip(0) =~= value@);
        }
        OwnedStrInput { data: value, offset: 0, lookahead: 0, consumed: Ghost(0) }
    }
}

impl vstd::std_specs::convert::FromSpecImpl<String> for OwnedStrInput {
    open spec fn obeys_from_spec() -> bool {
        true
    }

    closed spec fn from_spec(v: String) -> Self {
        OwnedStrInput { data: v, offset: 0, lookahead: 0, consumed: Ghost(0) }
    }
}

} // verus!
