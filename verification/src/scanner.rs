use std::collections::VecDeque;

use crate::char_traits::{
    alpha_char, as_hex, blank_char, break_char, digit_char, flow_char, hex_char, hex_value, is_blank,
    is_blank_or_breakz, is_break, is_hex,
};
use crate::input::text::{nth_or_nul, skip_chars, str_first, utf8_width};
use crate::input::{input_at_end, Input};
use crate::string_ops::{is_char_value, str_eq, str_last};
use crate::token::{Encoding, Error, Mark, Result, ScalarStyle, SimpleKey, Token, TokenData};
use vstd::prelude::*;
use vstd::string::StringSliceAdditionalSpecFns;
use vstd::utf8::encode_utf8;

verus! {

const MAX_NUMBER_LENGTH: u64 = 9_u64;

/// The longest input, in characters, that a scanner accepts. Columns,
/// indentations and flow depths are counted in `i32` and must not overflow;
/// bounding the whole input bounds each of them.
pub const MAX_INPUT_CHARS: usize = 2_000_000_000;

/// Whether position `a` comes strictly before position `b` (by line, then column).
pub open spec fn mark_before(a: Mark, b: Mark) -> bool {
    a.line < b.line || (a.line == b.line && a.column < b.column)
}

/// Whether position `a` comes no later than position `b`.
pub open spec fn mark_not_after(a: Mark, b: Mark) -> bool {
    &&& a.line < b.line || (a.line == b.line && a.column <= b.column)
    &&& a.index <= b.index
}

/// Whether a plain scalar ends before place `p` of `s`: at a colon before a
/// blank, a line break or the end; in a flow collection at `,`, `[`, `]`,
/// `{` or `}`; or at a `#` right after a blank or a line break.
pub open spec fn plain_stop_at(s: Seq<char>, p: int, in_flow: bool) -> bool {
    let c = s[p];
    ||| c == ':' && blankz_char(nth_or_nul(s, p + 1))
    ||| in_flow && (c == ',' || c == '[' || c == ']' || c == '{' || c == '}')
    ||| c == '#' && p > 0 && ws_char(s[p - 1])
}

/// Whether place `p` of `s` starts a line: the first place when the text
/// itself starts a line (`starts_line`), any other place when a line break
/// comes right before it.
pub open spec fn line_start_at(s: Seq<char>, p: int, starts_line: bool) -> bool {
    if p == 0 {
        starts_line
    } else {
        break_char(s[p - 1])
    }
}

/// Whether a document marker (`---` or `...`, then a blank, a line break or
/// the end) begins at place `p` of `s`.
pub open spec fn marker_at(s: Seq<char>, p: int) -> bool {
    indicator_at(s.skip(p), '-') || indicator_at(s.skip(p), '.')
}

/// No document marker begins at a blank or a line break.
proof fn lemma_ws_no_marker(s: Seq<char>, p: int)
    requires
        0 <= p < s.len(),
        ws_char(s[p]),
    ensures
        !marker_at(s, p),
{
    assert(s.skip(p)[0] == s[p]);
}

/// Whether `c` is a blank or a line break.
pub open spec fn ws_char(c: char) -> bool {
    blank_char(c) || break_char(c)
}

/// The character a line break stands for in a scalar's value: a line
/// separator or paragraph separator stays itself, any other break is a line
/// feed.
pub open spec fn break_value(c: char) -> char {
    if utf8_width(c) == 3 {
        c
    } else {
        '\n'
    }
}

/// The line breaks in the whitespace `w`, each as the character it stands
/// for (a carriage return and line feed together are one break).
pub open spec fn breaks_in(w: Seq<char>) -> Seq<char>
    decreases w.len(),
{
    if w.len() == 0 {
        Seq::empty()
    } else if w.len() >= 2 && w.last() == '\n' && w[w.len() - 2] == '\r' {
        breaks_in(w.take(w.len() - 2)).push('\n')
    } else if break_char(w.last()) {
        breaks_in(w.drop_last()).push(break_value(w.last()))
    } else {
        breaks_in(w.drop_last())
    }
}

/// What the whitespace `w` between two stretches of a scalar's text becomes:
/// without a line break it stays; one line feed becomes a space; after a
/// first line feed the further breaks stay; a first line separator or
/// paragraph separator stays with all that follow.
pub open spec fn folded_gap(w: Seq<char>) -> Seq<char> {
    let b = breaks_in(w);
    if b.len() == 0 {
        w
    } else if b[0] == '\n' {
        if b.len() == 1 {
            seq![' ']
        } else {
            b.drop_first()
        }
    } else {
        b
    }
}

/// The number of blanks and line breaks that `t` ends with.
pub open spec fn ws_suffix_len(t: Seq<char>) -> nat
    decreases t.len(),
{
    if t.len() > 0 && ws_char(t.last()) {
        1 + ws_suffix_len(t.drop_last())
    } else {
        0
    }
}

/// A text ends with no more blanks and line breaks than it has characters.
pub proof fn lemma_ws_suffix_bound(t: Seq<char>)
    ensures
        ws_suffix_len(t) <= t.len(),
    decreases t.len(),
{
    if t.len() > 0 {
        lemma_ws_suffix_bound(t.drop_last());
    }
}

/// The value of a plain scalar whose text is `t`: its stretches of
/// non-blank characters, with the whitespace between them folded as
/// [`folded_gap`] says, and the whitespace at its end dropped.
pub open spec fn plain_value(t: Seq<char>) -> Seq<char>
    decreases t.len(),
{
    if t.len() == 0 {
        Seq::empty()
    } else if ws_char(t.last()) {
        proof {
            lemma_ws_suffix_bound(t);
        }
        plain_value(t.take(t.len() - ws_suffix_len(t)))
    } else {
        let p = t.drop_last();
        let k = ws_suffix_len(p);
        proof {
            lemma_ws_suffix_bound(p);
        }
        plain_value(p.take(p.len() - k)) + folded_gap(p.skip(p.len() - k)) + seq![t.last()]
    }
}

/// Whitespace after text that ends with a non-blank character is exactly the
/// whitespace at the end.
proof fn lemma_ws_suffix_concat(c: Seq<char>, w: Seq<char>)
    requires
        c.len() == 0 || !ws_char(c.last()),
        forall|i: int| 0 <= i < w.len() ==> ws_char(#[trigger] w[i]),
    ensures
        ws_suffix_len(c + w) == w.len(),
    decreases w.len(),
{
    if w.len() == 0 {
        assert(c + w =~= c);
    } else {
        assert((c + w).drop_last() =~= c + w.drop_last());
        assert((c + w).last() == w[w.len() - 1]);
        lemma_ws_suffix_concat(c, w.drop_last());
    }
}

/// A non-blank character after whitespace adds the folded whitespace and
/// the character to the value.
proof fn lemma_plain_value_step(c: Seq<char>, w: Seq<char>, x: char)
    requires
        c.len() == 0 || !ws_char(c.last()),
        forall|i: int| 0 <= i < w.len() ==> ws_char(#[trigger] w[i]),
        !ws_char(x),
    ensures
        plain_value(c + w + seq![x]) == plain_value(c) + folded_gap(w) + seq![x],
{
    let t = c + w + seq![x];
    assert(t.drop_last() =~= c + w);
    lemma_ws_suffix_concat(c, w);
    assert((c + w).take((c + w).len() - w.len()) =~= c);
    assert((c + w).skip((c + w).len() - w.len()) =~= w);
}

/// Whitespace at the end leaves the value as it is.
proof fn lemma_plain_value_tail(c: Seq<char>, w: Seq<char>)
    requires
        c.len() == 0 || !ws_char(c.last()),
        forall|i: int| 0 <= i < w.len() ==> ws_char(#[trigger] w[i]),
    ensures
        plain_value(c + w) == plain_value(c),
{
    if w.len() == 0 {
        assert(c + w =~= c);
    } else {
        lemma_ws_suffix_concat(c, w);
        assert((c + w).last() == w[w.len() - 1]);
        assert((c + w).take((c + w).len() - w.len()) =~= c);
    }
}

/// The value of a flow scalar from its decoded text `t`, where no escape
/// stands for a blank or a line break: every run of blanks and line breaks
/// folded as [`folded_gap`] says, every other character kept.
pub open spec fn quoted_folded(t: Seq<char>) -> Seq<char>
    decreases t.len(),
{
    if t.len() == 0 {
        Seq::empty()
    } else if ws_char(t.last()) {
        proof {
            lemma_ws_suffix_bound(t);
        }
        quoted_folded(t.take(t.len() - ws_suffix_len(t))) + folded_gap(
            t.skip(t.len() - ws_suffix_len(t)),
        )
    } else {
        quoted_folded(t.drop_last()).push(t.last())
    }
}

/// Whether the text between the quotes of a flow scalar holds no escape
/// that can stand for whitespace: in double quotes, no backslash. (In single
/// quotes the only escape, two quotes, stands for one quote.)
pub open spec fn escape_free(t: Seq<char>, single: bool) -> bool {
    single || forall|i: int| 0 <= i < t.len() ==> #[trigger] t[i] != '\\'
}

/// Text holds no backslash exactly when both of its parts hold none.
proof fn lemma_escape_free_split(a: Seq<char>, b: Seq<char>, single: bool)
    ensures
        escape_free(a + b, single) == (escape_free(a, single) && escape_free(b, single)),
{
    if !single {
        if escape_free(a + b, single) {
            assert forall|i: int| 0 <= i < a.len() implies #[trigger] a[i] != '\\' by {
                assert((a + b)[i] == a[i]);
            }
            assert forall|i: int| 0 <= i < b.len() implies #[trigger] b[i] != '\\' by {
                assert((a + b)[a.len() + i] == b[i]);
            }
        }
        if escape_free(a, single) && escape_free(b, single) {
            assert forall|i: int| 0 <= i < (a + b).len() implies #[trigger] (a + b)[i] != '\\' by {
                if i < a.len() {
                    assert((a + b)[i] == a[i]);
                } else {
                    assert((a + b)[i] == b[i - a.len()]);
                }
            }
        }
    }
}

/// A character that is neither blank nor a line break is kept as it is.
proof fn lemma_folded_char(t: Seq<char>, c: char)
    requires
        !ws_char(c),
    ensures
        quoted_folded(t.push(c)) == quoted_folded(t).push(c),
{
    assert(t.push(c).drop_last() =~= t);
}

/// A whole run of whitespace after text is folded on its own.
proof fn lemma_folded_run(c: Seq<char>, w: Seq<char>)
    requires
        c.len() == 0 || !ws_char(c.last()),
        forall|i: int| 0 <= i < w.len() ==> ws_char(#[trigger] w[i]),
    ensures
        quoted_folded(c + w) == quoted_folded(c) + folded_gap(w),
{
    if w.len() == 0 {
        assert(c + w =~= c);
        assert(breaks_in(w).len() == 0);
        assert(quoted_folded(c) + folded_gap(w) =~= quoted_folded(c));
    } else {
        lemma_ws_suffix_concat(c, w);
        assert((c + w).last() == w[w.len() - 1]);
        assert((c + w).take((c + w).len() - w.len()) =~= c);
        assert((c + w).skip((c + w).len() - w.len()) =~= w);
    }
}

/// A blank adds no line break.
proof fn lemma_breaks_blank(w: Seq<char>, x: char)
    requires
        blank_char(x),
    ensures
        breaks_in(w.push(x)) == breaks_in(w),
{
    assert(w.push(x).drop_last() =~= w);
}

/// A line break read as one adds the character it stands for.
proof fn lemma_breaks_taken(w: Seq<char>, taken: Seq<char>)
    requires
        taken == seq!['\r', '\n'] || (taken.len() == 1 && break_char(taken[0]) && !(w.len() > 0
            && w.last() == '\r' && taken[0] == '\n')),
    ensures
        breaks_in(w + taken) == breaks_in(w).push(
            if taken.len() == 2 {
                '\n'
            } else {
                break_value(taken[0])
            },
        ),
{
    let t = w + taken;
    if taken.len() == 2 {
        assert(t.take(t.len() - 2) =~= w);
    } else {
        assert(t.drop_last() =~= w);
        if t.len() >= 2 {
            assert(t[t.len() - 2] == w.last());
        }
    }
}

/// Whether `s` starts a document indicator: three times `c`, then a blank,
/// a line break or the end.
pub open spec fn indicator_at(s: Seq<char>, c: char) -> bool {
    &&& nth_or_nul(s, 0) == c
    &&& nth_or_nul(s, 1) == c
    &&& nth_or_nul(s, 2) == c
    &&& blankz_char(nth_or_nul(s, 3))
}

/// Whether a plain scalar may start at `s` (past the blanks and line breaks
/// that come before a token), in a flow collection or not.
pub open spec fn plain_first(s: Seq<char>, in_flow: bool) -> bool {
    let c = nth_or_nul(s, 0);
    let c1 = nth_or_nul(s, 1);
    ||| !(blank_char(c) || break_char(c) || c == '-' || c == '?' || c == ':' || c == ','
        || c == '[' || c == ']' || c == '{' || c == '}' || c == '#' || c == '&' || c == '*'
        || c == '!' || c == '|' || c == '>' || c == '\'' || c == '"' || c == '%' || c == '@'
        || c == '`')
    ||| c == '-' && !blank_char(c1)
    ||| !in_flow && (c == '?' || c == ':') && !blankz_char(c1)
}

/// Whether `d` is the kind of token that the characters `s` start, where `s`
/// lies past the blanks, comments and line breaks before a token, at the
/// start of a line or not (`col0`), in a flow collection or not. The first
/// rule that applies decides.
pub open spec fn token_kind_at(d: TokenData, s: Seq<char>, col0: bool, in_flow: bool, nul_ends: bool) -> bool {
    let c = nth_or_nul(s, 0);
    let c1 = nth_or_nul(s, 1);
    if s.len() == 0 || (nul_ends && c == '\0') {
        d is StreamEnd
    } else if col0 && c == '%' {
        d is VersionDirective || d is TagDirective
    } else if col0 && indicator_at(s, '-') {
        d is DocumentStart
    } else if col0 && indicator_at(s, '.') {
        d is DocumentEnd
    } else if c == '[' {
        d is FlowSequenceStart
    } else if c == '{' {
        d is FlowMappingStart
    } else if c == ']' {
        d is FlowSequenceEnd
    } else if c == '}' {
        d is FlowMappingEnd
    } else if c == ',' {
        d is FlowEntry
    } else if c == '-' && blankz_char(c1) {
        d is BlockEntry
    } else if c == '?' && (in_flow || blankz_char(c1)) {
        d is Key
    } else if c == ':' && (in_flow || blankz_char(c1)) {
        d is Value
    } else if c == '*' {
        d is Alias
    } else if c == '&' {
        d is Anchor
    } else if c == '!' {
        d is Tag
    } else if c == '|' && !in_flow {
        d is Scalar && d->style == ScalarStyle::Literal
    } else if c == '>' && !in_flow {
        d is Scalar && d->style == ScalarStyle::Folded
    } else if c == '\'' {
        d is Scalar && d->style == ScalarStyle::SingleQuoted
    } else if c == '"' {
        d is Scalar && d->style == ScalarStyle::DoubleQuoted
    } else if plain_first(s, in_flow) {
        d is Scalar && d->style == ScalarStyle::Plain
    } else {
        false
    }
}

/// Whether the token that `s` starts (placed as for [`token_kind_at`]) saves
/// a simple key when simple keys are allowed: a flow collection start, an
/// alias, an anchor, a tag or a scalar that is not a block scalar.
pub open spec fn saves_key_at(s: Seq<char>, col0: bool, in_flow: bool, nul_ends: bool) -> bool {
    let c = nth_or_nul(s, 0);
    let c1 = nth_or_nul(s, 1);
    &&& !(s.len() == 0 || (nul_ends && c == '\0'))
    &&& !(col0 && (c == '%' || indicator_at(s, '-') || indicator_at(s, '.')))
    &&& (c == '[' || c == '{' || c == '*' || c == '&' || c == '!' || c == '\'' || c == '"'
        || (plain_first(s, in_flow) && !(c == '-' && blankz_char(c1)) && !((c == '?' || c
        == ':') && (in_flow || blankz_char(c1)))))
}

/// Whether the scanner owes success when it fetches the token that `s`
/// starts (placed as for [`token_kind_at`]): simple keys allowed or not, the
/// innermost saved key possible and required (`key_due`) or possible at all
/// (`top_possible`). Where a token's own text decides, this asks the
/// acceptance predicates of that token.
pub closed spec fn token_owed(
    s: Seq<char>,
    col0: bool,
    in_flow: bool,
    nul_ends: bool,
    allowed: bool,
    key_due: bool,
    top_possible: bool,
) -> bool {
    let c = nth_or_nul(s, 0);
    let c1 = nth_or_nul(s, 1);
    if s.len() == 0 || (nul_ends && c == '\0') {
        !key_due
    } else if col0 && c == '%' {
        !key_due && directive_ok(s.skip(1), nul_ends)
    } else if col0 && (indicator_at(s, '-') || indicator_at(s, '.')) {
        !key_due
    } else if c == '[' || c == '{' {
        !(allowed && key_due)
    } else if c == ']' || c == '}' || c == ',' {
        !key_due
    } else if c == '-' && blankz_char(c1) {
        (in_flow || allowed) && !key_due
    } else if c == '?' && (in_flow || blankz_char(c1)) {
        (in_flow || allowed) && !key_due
    } else if c == ':' && (in_flow || blankz_char(c1)) {
        top_possible || in_flow || allowed
    } else if c == '*' || c == '&' {
        !(allowed && key_due) && anchor_ok(s, nul_ends)
    } else if c == '!' {
        !(allowed && key_due) && tag_ok(s, nul_ends, in_flow)
    } else if (c == '|' || c == '>') && !in_flow {
        !key_due && block_header_ok(s, nul_ends) && !s.contains('\t')
    } else if c == '\'' || c == '"' {
        !(allowed && key_due) && quoted_clear(s.drop_first(), c == '\'')
    } else if plain_first(s, in_flow) {
        !(allowed && key_due) && plain_clear(s, in_flow)
    } else {
        false
    }
}

/// Whether `d` may come first when the scanner fetches the token that `s`
/// starts (placed as for [`token_kind_at`]) into an empty queue: the ends of
/// blocks closed before it, the start of a block it opens, or that token.
pub open spec fn front_kind_at(d: TokenData, s: Seq<char>, col0: bool, in_flow: bool, nul_ends: bool) -> bool {
    ||| d is BlockEnd
    ||| d is BlockSequenceStart
    ||| d is BlockMappingStart
    ||| token_kind_at(d, s, col0, in_flow, nul_ends)
}

/// Whether no token can start at `s` (placed as for [`token_kind_at`]).
pub open spec fn no_token_at(s: Seq<char>, col0: bool, in_flow: bool, nul_ends: bool) -> bool {
    let c = nth_or_nul(s, 0);
    let c1 = nth_or_nul(s, 1);
    &&& !(s.len() == 0 || (nul_ends && c == '\0'))
    &&& !(col0 && (c == '%' || indicator_at(s, '-') || indicator_at(s, '.')))
    &&& !(c == '[' || c == '{' || c == ']' || c == '}' || c == ',' || c == '*' || c == '&'
        || c == '!' || c == '\'' || c == '"')
    &&& !(c == '-' && blankz_char(c1))
    &&& !((c == '?' || c == ':') && (in_flow || blankz_char(c1)))
    &&& !((c == '|' || c == '>') && !in_flow)
    &&& !plain_first(s, in_flow)
}

/// Whether `t` is what is left of `s` once some of its first characters are taken.
pub open spec fn suffix_of(t: Seq<char>, s: Seq<char>) -> bool {
    &&& t.len() <= s.len()
    &&& t == s.skip(s.len() - t.len())
}

/// A suffix of a suffix is a suffix.
proof fn lemma_suffix_trans(s: Seq<char>, t: Seq<char>, u: Seq<char>)
    requires
        suffix_of(t, s),
        suffix_of(u, t),
    ensures
        suffix_of(u, s),
{
    assert(u =~= s.skip(s.len() - u.len()));
}

/// Dropping the first character keeps a suffix a suffix.
proof fn lemma_suffix_drop(s: Seq<char>, t: Seq<char>)
    requires
        suffix_of(t, s),
        t.len() > 0,
    ensures
        suffix_of(t.drop_first(), s),
{
    assert(t.drop_first() =~= s.skip(s.len() - t.len() + 1));
}

/// Whether a token starts right at `s`, with no blank, line break, comment
/// or byte order mark to skip first.
pub open spec fn starts_clean(s: Seq<char>) -> bool {
    let c = nth_or_nul(s, 0);
    !blank_char(c) && !break_char(c) && c != '#' && c != '\u{feff}'
}

/// The number of bytes that the UTF-8 encoding of `s` takes.
pub open spec fn width_of(s: Seq<char>) -> nat
    decreases s.len(),
{
    if s.len() == 0 {
        0
    } else {
        width_of(s.drop_last()) + utf8_width(s.last())
    }
}

/// The position reached from `m` over `s`, a stretch without line breaks.
pub open spec fn mark_along(m: Mark, s: Seq<char>) -> Mark {
    Mark {
        index: (m.index + width_of(s)) as u64,
        line: m.line,
        column: (m.column + s.len()) as u64,
    }
}

/// One more character adds its UTF-8 width.
proof fn lemma_width_step(s: Seq<char>, k: int)
    requires
        0 <= k < s.len(),
    ensures
        width_of(s.take(k + 1)) == width_of(s.take(k)) + utf8_width(s[k]),
{
    assert(s.take(k + 1).drop_last() =~= s.take(k));
}

/// A saved simple key lies no later than the position `at`, and a possible
/// one designates a token in a queue of `queued` tokens of which `parsed`
/// have been handed out before.
pub open spec fn key_ok_weak_at(k: SimpleKey, at: Mark, parsed: usize, queued: nat) -> bool {
    &&& mark_not_after(k.mark, at)
    &&& k.mark.column <= MAX_INPUT_CHARS
    &&& k.possible ==> k.token_number.wrapping_sub(parsed) <= queued
}

/// As [`key_ok_weak_at`], with a possible key strictly before `at`.
pub open spec fn key_ok_at(k: SimpleKey, at: Mark, parsed: usize, queued: nat) -> bool {
    &&& key_ok_weak_at(k, at, parsed, queued)
    &&& k.possible ==> mark_before(k.mark, at)
}

/// Whether a token closes every open block collection before it: the
/// stream end, a document marker or a directive.
pub open spec fn closes_all(d: TokenData) -> bool {
    d is StreamEnd || d is DocumentStart || d is DocumentEnd || d is VersionDirective
        || d is TagDirective
}

/// The STREAM-START token at a position.
pub open spec fn stream_start_token(m: Mark) -> Token {
    Token { data: TokenData::StreamStart { encoding: Encoding::Utf8 }, start_mark: m, end_mark: m }
}

/// A token runs forward, its start not after its end, and ends no later
/// than the position `at`.
pub open spec fn token_within(t: Token, at: Mark) -> bool {
    mark_not_after(t.start_mark, t.end_mark) && mark_not_after(t.end_mark, at)
}

/// Whether no STREAM-END token is among these tokens.
pub open spec fn without_stream_end(tokens: Seq<Token>) -> bool {
    forall|i: int| 0 <= i < tokens.len() ==> !((#[trigger] tokens[i]).data is StreamEnd)
}

/// The STREAM-END token that a scanner answers with once the stream has ended.
pub open spec fn final_stream_end() -> Token {
    Token {
        data: TokenData::StreamEnd,
        start_mark: Mark { index: 0, line: 0, column: 0 },
        end_mark: Mark { index: 0, line: 0, column: 0 },
    }
}

/// The characters of `s` that are neither whitespace nor line breaks, in order.
pub open spec fn visible(s: Seq<char>) -> Seq<char>
    decreases s.len(),
{
    if s.len() == 0 {
        s
    } else if blank_char(s.last()) || break_char(s.last()) {
        visible(s.drop_last())
    } else {
        visible(s.drop_last()).push(s.last())
    }
}

/// Text with no visible character is all blanks and line breaks.
proof fn lemma_visible_none(t: Seq<char>)
    requires
        visible(t).len() == 0,
    ensures
        forall|i: int| 0 <= i < t.len() ==> ws_char(#[trigger] t[i]),
    decreases t.len(),
{
    if t.len() > 0 {
        if !ws_char(t.last()) {
            assert(visible(t) == visible(t.drop_last()).push(t.last()));
        }
        lemma_visible_none(t.drop_last());
        assert forall|i: int| 0 <= i < t.len() implies ws_char(#[trigger] t[i]) by {
            if i < t.len() - 1 {
                assert(t.drop_last()[i] == t[i]);
            }
        }
    }
}

/// The visible characters after one more character.
proof fn lemma_visible_push(s: Seq<char>, c: char)
    ensures
        visible(s.push(c)) == if blank_char(c) || break_char(c) {
            visible(s)
        } else {
            visible(s).push(c)
        },
{
    assert(s.push(c).drop_last() =~= s);
}

/// The visible characters of a concatenation are those of each part.
proof fn lemma_visible_add(a: Seq<char>, b: Seq<char>)
    ensures
        visible(a + b) == visible(a) + visible(b),
    decreases b.len(),
{
    if b.len() == 0 {
        assert(a + b =~= a);
        assert(visible(a) + visible(b) =~= visible(a));
    } else {
        lemma_visible_add(a, b.drop_last());
        assert((a + b).drop_last() =~= a + b.drop_last());
        assert((a + b).last() == b.last());
        if blank_char(b.last()) || break_char(b.last()) {
        } else {
            assert(visible(a) + visible(b.drop_last()).push(b.last()) =~= (visible(a) + visible(
                b.drop_last(),
            )).push(b.last()));
        }
    }
}

/// Appending text without visible characters keeps the visible ones.
proof fn lemma_visible_add_invisible(a: Seq<char>, b: Seq<char>)
    requires
        visible(b).len() == 0,
    ensures
        visible(a + b) == visible(a),
{
    lemma_visible_add(a, b);
    assert(visible(a) + visible(b) =~= visible(a));
}

/// What `read_line_break` consumed when the next character was a line break:
/// only line-break characters, and what it appended to its string is
/// invisible too.
proof fn lemma_break_taken(s: Seq<char>, t: Seq<char>, x: Seq<char>, x2: Seq<char>) -> (taken: Seq<
    char,
>)
    requires
        break_char(nth_or_nul(s, 0)),
        nth_or_nul(s, 0) == '\r' && nth_or_nul(s, 1) == '\n' ==> t == s.skip(2) && x2 == x.push(
            '\n',
        ),
        !(nth_or_nul(s, 0) == '\r' && nth_or_nul(s, 1) == '\n') ==> t == s.drop_first() && (x2
            == x.push('\n') || x2 == x.push(s[0])),
    ensures
        s == taken + t,
        visible(taken).len() == 0,
        visible(x2) == visible(x),
{
    if nth_or_nul(s, 0) == '\r' && nth_or_nul(s, 1) == '\n' {
        let taken = s.take(2);
        assert(s =~= taken + t);
        lemma_visible_push(seq!['\r'], '\n');
        lemma_visible_push(Seq::<char>::empty(), '\r');
        assert(taken =~= seq!['\r'].push('\n'));
        assert(seq!['\r'] =~= Seq::<char>::empty().push('\r'));
        lemma_visible_push(x, '\n');
        taken
    } else {
        let taken = s.take(1);
        assert(s =~= taken + t);
        assert(taken =~= Seq::<char>::empty().push(s[0]));
        lemma_visible_push(Seq::<char>::empty(), s[0]);
        lemma_visible_push(x, '\n');
        lemma_visible_push(x, s[0]);
        taken
    }
}

/// Whether the characters from `3 * k` on begin with an escaped octet: `%`
/// and two hexadecimal digits.
pub open spec fn escape_at(s: Seq<char>, k: int) -> bool {
    nth_or_nul(s, 3 * k) == '%' && hex_char(nth_or_nul(s, 3 * k + 1)) && hex_char(
        nth_or_nul(s, 3 * k + 2),
    )
}

/// The octet that the escape beginning at `3 * k` spells.
pub open spec fn escaped_octet(s: Seq<char>, k: int) -> u8 {
    (hex_value(nth_or_nul(s, 3 * k + 1)) * 16 + hex_value(nth_or_nul(s, 3 * k + 2))) as u8
}

/// The length of the UTF-8 sequence that an octet begins (zero when it
/// cannot begin one).
pub open spec fn utf8_lead_width(o: u8) -> int {
    if o & 0x80 == 0 {
        1
    } else if o & 0xE0 == 0xC0 {
        2
    } else if o & 0xF0 == 0xE0 {
        3
    } else if o & 0xF8 == 0xF0 {
        4
    } else {
        0
    }
}

/// Whether the escapes from the start form one UTF-8 octet group: a leading
/// octet and as many continuation octets as it announces.
pub open spec fn escape_group_ok(s: Seq<char>) -> bool {
    let w = utf8_lead_width(escaped_octet(s, 0));
    &&& escape_at(s, 0)
    &&& w != 0
    &&& forall|k: int|
        1 <= k < w ==> #[trigger] escape_at(s, k) && escaped_octet(s, k) & 0xC0 == 0x80
}

/// The characters that the octets of an escape group stand for, one per octet.
pub open spec fn escape_group_chars(s: Seq<char>, w: int) -> Seq<char> {
    Seq::new(w as nat, |k: int| escaped_octet(s, k) as char)
}

/// The number of characters an escape group takes: three per octet.
pub open spec fn escape_group_len(s: Seq<char>) -> int {
    3 * utf8_lead_width(escaped_octet(s, 0))
}

/// Characters that may stand in a tag URI; `,[]` only where `flow` allows.
pub open spec fn tag_uri_char(c: char, flow: bool) -> bool {
    alpha_char(c) || c == ';' || c == '/' || c == '?' || c == ':' || c == '@' || c == '&' || c
        == '=' || c == '+' || c == '$' || c == '.' || c == '%' || c == '!' || c == '~' || c == '*'
        || c == '\'' || c == '(' || c == ')' || (flow && (c == ',' || c == '[' || c == ']'))
}

/// The characters a tag URI spells: an escape group gives one character per
/// octet, every other character stands for itself.
pub open spec fn uri_decoded(s: Seq<char>) -> Seq<char>
    decreases s.len(),
{
    if s.len() == 0 {
        Seq::empty()
    } else if s[0] == '%' && escape_group_ok(s) && escape_group_len(s) <= s.len() {
        escape_group_chars(s, utf8_lead_width(escaped_octet(s, 0))) + uri_decoded(
            s.skip(escape_group_len(s)),
        )
    } else {
        seq![s[0]] + uri_decoded(s.drop_first())
    }
}

/// Whether `s` is a run of tag URI pieces: characters allowed in a URI, and
/// complete escape groups for every `%`.
pub open spec fn uri_aligned(s: Seq<char>, flow: bool) -> bool
    decreases s.len(),
{
    if s.len() == 0 {
        true
    } else if s[0] == '%' {
        escape_group_ok(s) && escape_group_len(s) <= s.len() && uri_aligned(
            s.skip(escape_group_len(s)),
            flow,
        )
    } else {
        tag_uri_char(s[0], flow) && uri_aligned(s.drop_first(), flow)
    }
}

/// Two texts that agree on their first `m` characters, enough for the escape
/// group that begins them, agree on that group.
proof fn lemma_group_agree(a: Seq<char>, b: Seq<char>, m: int)
    requires
        3 <= m <= a.len(),
        m <= b.len(),
        forall|j: int| 0 <= j < m ==> a[j] == b[j],
        escape_group_len(a) <= m,
    ensures
        escaped_octet(a, 0) == escaped_octet(b, 0),
        escape_group_len(a) == escape_group_len(b),
        escape_group_ok(a) == escape_group_ok(b),
        escape_group_chars(a, utf8_lead_width(escaped_octet(a, 0))) == escape_group_chars(
            b,
            utf8_lead_width(escaped_octet(b, 0)),
        ),
{
    let w = utf8_lead_width(escaped_octet(a, 0));
    assert(nth_or_nul(a, 1) == nth_or_nul(b, 1));
    assert(nth_or_nul(a, 2) == nth_or_nul(b, 2));
    assert(nth_or_nul(a, 0) == nth_or_nul(b, 0));
    assert forall|k: int| 0 <= k < w implies escape_at(a, k) == escape_at(b, k) && escaped_octet(
        a,
        k,
    ) == escaped_octet(b, k) by {
        assert(nth_or_nul(a, 3 * k) == nth_or_nul(b, 3 * k));
        assert(nth_or_nul(a, 3 * k + 1) == nth_or_nul(b, 3 * k + 1));
        assert(nth_or_nul(a, 3 * k + 2) == nth_or_nul(b, 3 * k + 2));
    }
    assert(escape_group_chars(a, w) =~= escape_group_chars(b, w));
}

/// Decoding a run of whole URI pieces and then more text is decoding each.
proof fn lemma_uri_append(c: Seq<char>, r: Seq<char>, flow: bool)
    requires
        uri_aligned(c, flow),
    ensures
        uri_decoded(c + r) == uri_decoded(c) + uri_decoded(r),
        uri_aligned(c + r, flow) == uri_aligned(r, flow),
    decreases c.len(),
{
    if c.len() == 0 {
        assert(c + r =~= r);
        assert(uri_decoded(c) + uri_decoded(r) =~= uri_decoded(r));
    } else if c[0] == '%' {
        let g = escape_group_len(c);
        lemma_group_agree(c, c + r, g);
        assert((c + r)[0] == c[0]);
        assert((c + r).skip(g) =~= c.skip(g) + r);
        lemma_uri_append(c.skip(g), r, flow);
        let w = utf8_lead_width(escaped_octet(c, 0));
        assert(escape_group_chars(c, w) + (uri_decoded(c.skip(g)) + uri_decoded(r))
            =~= (escape_group_chars(c, w) + uri_decoded(c.skip(g))) + uri_decoded(r));
    } else {
        assert((c + r)[0] == c[0]);
        assert((c + r).drop_first() =~= c.drop_first() + r);
        lemma_uri_append(c.drop_first(), r, flow);
        assert(seq![c[0]] + (uri_decoded(c.drop_first()) + uri_decoded(r)) =~= (seq![c[0]]
            + uri_decoded(c.drop_first())) + uri_decoded(r));
    }
}

/// Whether scanning a tag URI from the start of `s` meets no bad escape: the
/// scan runs over the characters that may stand in a URI, and each `%` on the
/// way begins a whole escape group.
pub open spec fn uri_scan_ok(s: Seq<char>, flow: bool) -> bool
    decreases s.len(),
{
    if s.len() == 0 || !tag_uri_char(s[0], flow) {
        true
    } else if s[0] == '%' {
        if escape_group_ok(s) && 3 <= escape_group_len(s) <= s.len() {
            uri_scan_ok(s.skip(escape_group_len(s)), flow)
        } else {
            false
        }
    } else {
        uri_scan_ok(s.drop_first(), flow)
    }
}

/// The length in bytes of the tag handle a tag URI continues (zero for none),
/// as `str::len` reports it.
pub open spec fn uri_head_len(head: Option<&str>) -> usize {
    match head {
        Some(h) => h.spec_bytes().len() as usize,
        None => 0,
    }
}

/// The text a tag URI starts with when it continues a tag handle: the
/// handle without its leading `!`, when the handle is longer than that.
pub open spec fn uri_head_rest(head: Option<&str>) -> Seq<char> {
    match head {
        Some(h) => if uri_head_len(head) > 1 {
            skip_chars(h@, 1)
        } else {
            Seq::empty()
        },
        None => Seq::empty(),
    }
}

/// A single URI character other than `%` decodes to itself.
proof fn lemma_uri_single(c: char, flow: bool)
    requires
        c != '%',
    ensures
        uri_decoded(seq![c]) == seq![c],
        uri_aligned(seq![c], flow) == tag_uri_char(c, flow),
{
    let e = Seq::<char>::empty();
    assert(seq![c].drop_first() =~= e);
    assert(uri_decoded(e) == e);
    assert(uri_aligned(e, flow));
    assert(seq![c][0] == c);
    assert(seq![c] + e =~= seq![c]);
}

/// A well-formed escape group is a whole URI piece and decodes to its octets.
proof fn lemma_uri_group(s: Seq<char>, flow: bool)
    requires
        escape_group_ok(s),
    ensures
        escape_group_len(s) <= s.len(),
        uri_decoded(s.take(escape_group_len(s))) == escape_group_chars(
            s,
            utf8_lead_width(escaped_octet(s, 0)),
        ),
        uri_aligned(s.take(escape_group_len(s)), flow),
{
    let w = utf8_lead_width(escaped_octet(s, 0));
    let g = escape_group_len(s);
    if w > 1 {
        assert(escape_at(s, w - 1));
    }
    assert(hex_char(nth_or_nul(s, 3 * (w - 1) + 2)));
    assert(g <= s.len());
    let t = s.take(g);
    let e = Seq::<char>::empty();
    lemma_group_agree(s, t, g);
    assert(nth_or_nul(s, 0) == '%');
    assert(t[0] == '%');
    assert(t.skip(g) =~= e);
    assert(uri_decoded(e) == e);
    assert(uri_aligned(e, flow));
    assert(escape_group_chars(t, w) + e =~= escape_group_chars(t, w));
}

/// The character a one-letter escape of a double-quoted scalar stands for.
pub open spec fn simple_escape(c: char) -> Option<char> {
    if c == '0' {
        Some('\0')
    } else if c == 'a' {
        Some('\x07')
    } else if c == 'b' {
        Some('\x08')
    } else if c == 't' || c == '\t' {
        Some('\t')
    } else if c == 'n' {
        Some('\n')
    } else if c == 'v' {
        Some('\x0B')
    } else if c == 'f' {
        Some('\x0C')
    } else if c == 'r' {
        Some('\r')
    } else if c == 'e' {
        Some('\x1B')
    } else if c == ' ' {
        Some(' ')
    } else if c == '"' {
        Some('"')
    } else if c == '/' {
        Some('/')
    } else if c == '\\' {
        Some('\\')
    } else if c == 'N' {
        Some('\u{0085}')
    } else if c == '_' {
        Some('\u{00a0}')
    } else if c == 'L' {
        Some('\u{2028}')
    } else if c == 'P' {
        Some('\u{2029}')
    } else {
        None
    }
}

/// The number of hexadecimal digits that a code escape (`x`, `u`, `U`) takes.
pub open spec fn escape_code_len(c: char) -> int {
    if c == 'x' {
        2
    } else if c == 'u' {
        4
    } else if c == 'U' {
        8
    } else {
        0
    }
}

/// The number that a sequence of hexadecimal digits spells.
pub open spec fn hex_number(digits: Seq<char>) -> int
    decreases digits.len(),
{
    if digits.len() == 0 {
        0
    } else {
        hex_number(digits.drop_last()) * 16 + hex_value(digits.last())
    }
}

/// The `l` characters after a backslash and its escape letter.
pub open spec fn escape_digits(s: Seq<char>, l: int) -> Seq<char> {
    Seq::new(l as nat, |j: int| nth_or_nul(s, 2 + j))
}

/// The characters that the text between the quotes of a flow scalar stands
/// for, before line folding: in single quotes `''` is one quote; in double
/// quotes an escape stands for its character and a backslash before a line
/// break is dropped; every other character stands for itself.
pub open spec fn quoted_decoded(s: Seq<char>, single: bool) -> Seq<char>
    decreases s.len(),
{
    if s.len() == 0 {
        Seq::empty()
    } else if single && s[0] == '\'' && nth_or_nul(s, 1) == '\'' {
        seq!['\''] + quoted_decoded(s.skip(2), single)
    } else if !single && s[0] == '\\' && break_char(nth_or_nul(s, 1)) {
        quoted_decoded(s.drop_first(), single)
    } else if !single && s[0] == '\\' && simple_escape(nth_or_nul(s, 1)) is Some {
        seq![simple_escape(nth_or_nul(s, 1))->0] + quoted_decoded(s.skip(2), single)
    } else if !single && s[0] == '\\' && escape_code_len(nth_or_nul(s, 1)) > 0 && 2
        + escape_code_len(nth_or_nul(s, 1)) <= s.len() {
        let l = escape_code_len(nth_or_nul(s, 1));
        seq![hex_number(escape_digits(s, l)) as char] + quoted_decoded(s.skip(2 + l), single)
    } else {
        seq![s[0]] + quoted_decoded(s.drop_first(), single)
    }
}

/// Whether `s` is a run of whole pieces of quoted text: no lone quote in
/// single quotes, and in double quotes no backslash without what follows it.
pub open spec fn quoted_aligned(s: Seq<char>, single: bool) -> bool
    decreases s.len(),
{
    if s.len() == 0 {
        true
    } else if single && s[0] == '\'' {
        nth_or_nul(s, 1) == '\'' && quoted_aligned(s.skip(2), single)
    } else if !single && s[0] == '\\' {
        if break_char(nth_or_nul(s, 1)) {
            quoted_aligned(s.drop_first(), single)
        } else if simple_escape(nth_or_nul(s, 1)) is Some {
            quoted_aligned(s.skip(2), single)
        } else {
            let l = escape_code_len(nth_or_nul(s, 1));
            l > 0 && 2 + l <= s.len() && quoted_aligned(s.skip(2 + l), single)
        }
    } else {
        quoted_aligned(s.drop_first(), single)
    }
}

/// Decoding whole pieces of quoted text and then more text is decoding each.
proof fn lemma_quoted_append(c: Seq<char>, r: Seq<char>, single: bool)
    requires
        quoted_aligned(c, single),
    ensures
        quoted_decoded(c + r, single) == quoted_decoded(c, single) + quoted_decoded(r, single),
        quoted_aligned(c + r, single) == quoted_aligned(r, single),
    decreases c.len(),
{
    let cr = c + r;
    if c.len() == 0 {
        assert(cr =~= r);
        assert(quoted_decoded(c, single) + quoted_decoded(r, single) =~= quoted_decoded(
            r,
            single,
        ));
    } else {
        assert(cr[0] == c[0]);
        if c.len() > 1 {
            assert(nth_or_nul(cr, 1) == nth_or_nul(c, 1));
        }
        let k: int = if single && c[0] == '\'' {
            2
        } else if !single && c[0] == '\\' && break_char(nth_or_nul(c, 1)) {
            1
        } else if !single && c[0] == '\\' && simple_escape(nth_or_nul(c, 1)) is Some {
            2
        } else if !single && c[0] == '\\' {
            2 + escape_code_len(nth_or_nul(c, 1))
        } else {
            1
        };
        assert(k <= c.len());
        assert(cr.skip(k) =~= c.skip(k) + r);
        if k == 1 {
            assert(c.skip(1) =~= c.drop_first());
            assert(cr.skip(1) =~= cr.drop_first());
        }
        if !single && c[0] == '\\' && !break_char(nth_or_nul(c, 1)) && simple_escape(
            nth_or_nul(c, 1),
        ) is None {
            let l = escape_code_len(nth_or_nul(c, 1));
            assert(escape_digits(cr, l) =~= escape_digits(c, l));
        }
        lemma_quoted_append(c.skip(k), r, single);
        let d = quoted_decoded(c, single);
        let head = d.take(d.len() - quoted_decoded(c.skip(k), single).len());
        assert(head + (quoted_decoded(c.skip(k), single) + quoted_decoded(r, single)) =~= (head
            + quoted_decoded(c.skip(k), single)) + quoted_decoded(r, single));
    }
}

/// Text without the quoting's special character (the quote in single
/// quotes, the backslash in double quotes) stands for itself and is whole.
proof fn lemma_quoted_plain(t: Seq<char>, single: bool)
    requires
        forall|i: int|
            0 <= i < t.len() ==> if single {
                #[trigger] t[i] != '\''
            } else {
                t[i] != '\\'
            },
    ensures
        quoted_decoded(t, single) == t,
        quoted_aligned(t, single),
    decreases t.len(),
{
    if t.len() > 0 {
        assert(t.drop_first()[0] == t[1] || t.len() == 1);
        lemma_quoted_plain(t.drop_first(), single);
        assert(seq![t[0]] + t.drop_first() =~= t);
    }
}

/// In single quotes, two quotes stand for one and are whole.
proof fn lemma_quoted_pair()
    ensures
        quoted_decoded(seq!['\'', '\''], true) == seq!['\''],
        quoted_aligned(seq!['\'', '\''], true),
{
    let e = Seq::<char>::empty();
    assert(seq!['\'', '\''].skip(2) =~= e);
    assert(quoted_decoded(e, true) == e);
    assert(quoted_aligned(e, true));
    assert(seq!['\''] + e =~= seq!['\'']);
}

/// An escape that is not before a line break stands for its character.
proof fn lemma_quoted_escape(s: Seq<char>, k: int, x: char)
    requires
        s.len() >= k >= 2,
        s[0] == '\\',
        !break_char(nth_or_nul(s, 1)),
        simple_escape(nth_or_nul(s, 1)) is Some ==> k == 2 && x == simple_escape(
            nth_or_nul(s, 1),
        )->0,
        simple_escape(nth_or_nul(s, 1)) is None ==> escape_code_len(nth_or_nul(s, 1)) > 0 && k
            == 2 + escape_code_len(nth_or_nul(s, 1)) && x == hex_number(
            escape_digits(s, escape_code_len(nth_or_nul(s, 1))),
        ) as char,
    ensures
        quoted_decoded(s.take(k), false) == seq![x],
        quoted_aligned(s.take(k), false),
{
    let t = s.take(k);
    let e = Seq::<char>::empty();
    assert(t[0] == '\\');
    assert(nth_or_nul(t, 1) == nth_or_nul(s, 1));
    assert(t.skip(k) =~= e);
    assert(quoted_decoded(e, false) == e);
    assert(quoted_aligned(e, false));
    let l = escape_code_len(nth_or_nul(s, 1));
    assert(escape_digits(t, l) =~= escape_digits(s, l));
    assert(seq![x] + e =~= seq![x]);
}

/// A backslash before a line break is dropped; the break stands for itself.
proof fn lemma_quoted_escaped_break(t: Seq<char>)
    requires
        t.len() >= 2,
        t[0] == '\\',
        forall|i: int| 1 <= i < t.len() ==> #[trigger] break_char(t[i]),
    ensures
        quoted_decoded(t, false) == t.drop_first(),
        quoted_aligned(t, false),
{
    let u = t.drop_first();
    assert forall|i: int| 0 <= i < u.len() implies #[trigger] u[i] != '\'' && u[i] != '\\' by {
        assert(break_char(t[i + 1]));
    }
    lemma_quoted_plain(u, false);
    assert(break_char(t[1]));
}

/// Line-break characters stand for themselves and are whole; none is visible.
proof fn lemma_quoted_taken(t: Seq<char>, single: bool)
    requires
        visible(t).len() == 0,
        forall|i: int| 0 <= i < t.len() ==> #[trigger] break_char(t[i]),
    ensures
        quoted_decoded(t, single) == t,
        quoted_aligned(t, single),
        visible(quoted_decoded(t, single)).len() == 0,
{
    assert forall|i: int| 0 <= i < t.len() implies #[trigger] t[i] != '\'' && t[i] != '\\' by {
        assert(break_char(t[i]));
    }
    lemma_quoted_plain(t, single);
}

/// Adding a whole piece of quoted text keeps the running decoding in step
/// with the value built so far, up to whitespace.
proof fn lemma_quoted_step(
    eaten: Seq<char>,
    item: Seq<char>,
    single: bool,
    before: Seq<char>,
    after: Seq<char>,
)
    requires
        quoted_aligned(eaten, single),
        quoted_aligned(item, single),
        visible(before) == visible(quoted_decoded(eaten, single)),
        visible(after) == visible(before) + visible(quoted_decoded(item, single)),
    ensures
        quoted_aligned(eaten + item, single),
        visible(after) == visible(quoted_decoded(eaten + item, single)),
{
    lemma_quoted_append(eaten, item, single);
    lemma_visible_add(quoted_decoded(eaten, single), quoted_decoded(item, single));
}

/// Whether `h` is the tag handle at the start of `s`: a `!`, the run of
/// alphanumerics after it, and a closing `!` when one follows that run.
pub open spec fn is_tag_handle_of(h: Seq<char>, s: Seq<char>) -> bool {
    let n = h.len() as int;
    let j = if n > 1 && h[n - 1] == '!' {
        n - 1
    } else {
        n
    };
    &&& 1 <= n <= s.len()
    &&& h == s.take(n)
    &&& h[0] == '!'
    &&& forall|i: int| 1 <= i < j ==> alpha_char(#[trigger] s[i])
    &&& !alpha_char(nth_or_nul(s, j))
    &&& (nth_or_nul(s, j) == '!') == (j < n)
}

/// The length of the tag handle at the start of `s`.
pub open spec fn tag_handle_len(s: Seq<char>) -> int {
    choose|k: int| 1 <= k <= s.len() && is_tag_handle_of(s.take(k), s)
}

/// The tag handle at the start of a text, when there is one, is unique.
proof fn lemma_tag_handle_unique(s: Seq<char>, a: int, b: int)
    requires
        1 <= a <= s.len(),
        1 <= b <= s.len(),
        is_tag_handle_of(s.take(a), s),
        is_tag_handle_of(s.take(b), s),
    ensures
        a == b,
{
    let ha = s.take(a);
    let hb = s.take(b);
    let ja = if a > 1 && ha[a - 1] == '!' {
        a - 1
    } else {
        a
    };
    let jb = if b > 1 && hb[b - 1] == '!' {
        b - 1
    } else {
        b
    };
    if ja < jb {
        assert(alpha_char(s[ja]));
        assert(nth_or_nul(s, ja) == s[ja]);
    }
    if jb < ja {
        assert(alpha_char(s[jb]));
        assert(nth_or_nul(s, jb) == s[jb]);
    }
}

/// A tag handle consists of ASCII characters, so it takes one byte per character.
proof fn lemma_tag_handle_bytes(h: Seq<char>, s: Seq<char>)
    requires
        is_tag_handle_of(h, s),
    ensures
        encode_utf8(h).len() == h.len(),
{
    let n = h.len() as int;
    assert forall|i: int| 0 <= i < n implies '\0' <= #[trigger] h[i] <= '\u{7f}' by {
        if i > 0 && !(n > 1 && i == n - 1 && h[n - 1] == '!') {
            assert(alpha_char(s[i]));
        }
    }
    vstd::utf8::is_ascii_chars_encode_utf8(h);
}

/// The length of the first line of `s` with its line break (`\r\n` counting as
/// one break); where a nil character ends the input, the line ends there too.
pub open spec fn first_line_len(s: Seq<char>, nul_ends: bool) -> int
    decreases s.len(),
{
    if s.len() == 0 || (nul_ends && s[0] == '\0') {
        0
    } else if s[0] == '\r' && nth_or_nul(s, 1) == '\n' {
        2
    } else if break_char(s[0]) {
        1
    } else {
        1 + first_line_len(s.drop_first(), nul_ends)
    }
}

/// A character that is neither a line break nor an ending nil keeps the first
/// line going.
proof fn lemma_first_line_step(t: Seq<char>, nul_ends: bool)
    requires
        t.len() > 0 ==> !break_char(t[0]) && !(nul_ends && t[0] == '\0'),
    ensures
        t.len() > 0 ==> first_line_len(t, nul_ends) == 1 + first_line_len(t.drop_first(), nul_ends),
{
}

/// The length of the longest prefix of `s` whose characters all satisfy `p`.
pub open spec fn run_len(s: Seq<char>, p: spec_fn(char) -> bool) -> int
    decreases s.len(),
{
    if s.len() > 0 && p(s[0]) {
        1 + run_len(s.drop_first(), p)
    } else {
        0
    }
}

/// The number of blanks that `s` starts with.
pub open spec fn blank_run(s: Seq<char>) -> int {
    run_len(s, |c: char| blank_char(c))
}

/// The number of decimal digits that `s` starts with.
pub open spec fn digit_run(s: Seq<char>) -> int {
    run_len(s, |c: char| digit_char(c))
}

/// The number of alphanumeric characters that `s` starts with.
pub open spec fn alpha_run(s: Seq<char>) -> int {
    run_len(s, |c: char| alpha_char(c))
}

/// A prefix of `k` characters that satisfy `p` is part of the run, and the
/// run ends where the first character that fails `p` stands.
proof fn lemma_run_len(s: Seq<char>, p: spec_fn(char) -> bool, k: int)
    requires
        0 <= k <= s.len(),
        forall|i: int| 0 <= i < k ==> p(#[trigger] s[i]),
    ensures
        run_len(s, p) == k + run_len(s.skip(k), p),
        k <= run_len(s, p) <= s.len(),
        k == s.len() || !p(s[k]) ==> run_len(s, p) == k,
    decreases k,
{
    lemma_run_bound(s.skip(k), p);
    if k == 0 {
        assert(s.skip(0) =~= s);
    } else {
        let t = s.drop_first();
        assert forall|i: int| 0 <= i < k - 1 implies p(#[trigger] t[i]) by {
            assert(t[i] == s[i + 1]);
        }
        lemma_run_len(t, p, k - 1);
        assert(t.skip(k - 1) =~= s.skip(k));
    }
}

/// A run is no longer than the text.
proof fn lemma_run_bound(s: Seq<char>, p: spec_fn(char) -> bool)
    ensures
        0 <= run_len(s, p) <= s.len(),
    decreases s.len(),
{
    if s.len() > 0 {
        lemma_run_bound(s.drop_first(), p);
    }
}

/// Whether `s` is at the end of the input or starts with a blank or a line
/// break.
spec fn at_blankz(s: Seq<char>, nul_ends: bool) -> bool {
    s.len() == 0 || (nul_ends && s[0] == '\0') || blank_char(s[0]) || break_char(s[0])
}

/// Whether `s` is at the end of the input or starts with a line break.
spec fn at_breakz(s: Seq<char>, nul_ends: bool) -> bool {
    s.len() == 0 || (nul_ends && s[0] == '\0') || break_char(s[0])
}

/// Whether a directive's line may end with what follows its value: blanks,
/// then a comment, a line break or the end of the input.
spec fn directive_line_ends(s: Seq<char>, nul_ends: bool) -> bool {
    let b = blank_run(s);
    nth_or_nul(s, b) == '#' || at_breakz(s.skip(b), nul_ends)
}

/// Whether `s` starts with a directive name the scanner accepts: one or more
/// alphanumeric characters followed by a blank, a line break or the end.
spec fn directive_name_ok(s: Seq<char>, nul_ends: bool) -> bool {
    alpha_run(s) > 0 && at_blankz(s.skip(alpha_run(s)), nul_ends)
}

/// The number of characters that `s` starts with that may stand in a tag
/// URI of a directive.
spec fn uri_run(s: Seq<char>) -> int {
    run_len(s, |c: char| tag_uri_char(c, true))
}

/// Every character of a run of whole URI pieces may stand in a tag URI: the
/// `%` and hexadecimal digits of escapes too.
proof fn lemma_uri_aligned_chars(x: Seq<char>, flow: bool)
    requires
        uri_aligned(x, flow),
    ensures
        forall|i: int| 0 <= i < x.len() ==> tag_uri_char(#[trigger] x[i], flow),
    decreases x.len(),
{
    if x.len() == 0 {
    } else if x[0] == '%' {
        let g = escape_group_len(x);
        let w = utf8_lead_width(escaped_octet(x, 0));
        lemma_uri_aligned_chars(x.skip(g), flow);
        assert forall|i: int| 0 <= i < x.len() implies tag_uri_char(#[trigger] x[i], flow) by {
            if i < g {
                let k = i / 3;
                assert(0 <= k < w);
                if k > 0 {
                    assert(escape_at(x, k));
                }
                assert(escape_at(x, k));
                assert(i == 3 * k || i == 3 * k + 1 || i == 3 * k + 2);
            } else {
                assert(x[i] == x.skip(g)[i - g]);
            }
        }
    } else {
        lemma_uri_aligned_chars(x.drop_first(), flow);
        assert forall|i: int| 0 <= i < x.len() implies tag_uri_char(#[trigger] x[i], flow) by {
            if i > 0 {
                assert(x[i] == x.drop_first()[i - 1]);
            }
        }
    }
}

/// Whether `s` starts with a tag handle that a `%TAG` directive accepts: `!`,
/// then either nothing more or alphanumerics closed by a `!`.
spec fn directive_handle_ok(s: Seq<char>) -> bool {
    nth_or_nul(s, 0) == '!' && (alpha_run(s.skip(1)) == 0 || nth_or_nul(
        s,
        1 + alpha_run(s.skip(1)),
    ) == '!')
}

/// The length of the tag handle at the start of `s` that a `%TAG` directive
/// accepts.
spec fn directive_handle_len(s: Seq<char>) -> int {
    if nth_or_nul(s, 1 + alpha_run(s.skip(1))) == '!' {
        2 + alpha_run(s.skip(1))
    } else {
        1
    }
}

/// Whether `s` starts with a `%TAG` value the scanner accepts: blanks, a
/// handle as [`directive_handle_ok`] says, blanks, a non-empty URI without a
/// bad escape, and then a blank, a line break or the end.
spec fn tag_value_ok(s: Seq<char>, nul_ends: bool) -> bool {
    let b = blank_run(s);
    let h = directive_handle_len(s.skip(b));
    let c = tag_prefix_start(s, h);
    &&& directive_handle_ok(s.skip(b))
    &&& blank_run(s.skip(b + h)) > 0
    &&& uri_scan_ok(s.skip(c), true)
    &&& tag_uri_char(nth_or_nul(s, c), true)
    &&& at_blankz(s.skip(tag_value_end(s, h)), nul_ends)
}

/// Where the prefix of the `%TAG` value at the start of `s` begins, when its
/// handle has `h` characters: after the blanks, the handle and more blanks.
spec fn tag_prefix_start(s: Seq<char>, h: int) -> int {
    let b = blank_run(s);
    b + h + blank_run(s.skip(b + h))
}

/// Where the `%TAG` value at the start of `s` ends, when its handle has `h`
/// characters: after the prefix.
spec fn tag_value_end(s: Seq<char>, h: int) -> int {
    tag_prefix_start(s, h) + uri_run(s.skip(tag_prefix_start(s, h)))
}

/// Whether `handle` and `prefix` are what the `%TAG` value at the start of
/// `s` gives: blanks, a tag handle (`!`, `!!` or `!name!`), blanks, and a
/// non-empty URI whose escapes decode to the prefix, followed by a blank, a
/// line break or the end.
spec fn tag_value_of(handle: Seq<char>, prefix: Seq<char>, s: Seq<char>, nul_ends: bool) -> bool {
    let b = blank_run(s);
    let h = handle.len() as int;
    let c = tag_prefix_start(s, h);
    let n = tag_value_end(s, h);
    &&& b + h <= s.len()
    &&& is_tag_handle_of(handle, s.skip(b))
    &&& h == 1 || handle.last() == '!'
    &&& blank_run(s.skip(b + h)) > 0
    &&& c < n <= s.len()
    &&& uri_aligned(s.subrange(c, n), true)
    &&& prefix == uri_decoded(s.subrange(c, n))
    &&& at_blankz(s.skip(n), nul_ends)
}

/// Whether `text`, a directive after its `%`, is one the scanner accepts: a
/// name, then for `YAML` a version and for `TAG` a handle and prefix, then
/// what may end the line.
spec fn directive_ok(text: Seq<char>, nul_ends: bool) -> bool {
    let name = text.take(alpha_run(text));
    let v = text.skip(alpha_run(text));
    &&& directive_name_ok(text, nul_ends)
    &&& (name =~= seq!['Y', 'A', 'M', 'L'] && version_value_ok(v) && directive_line_ends(
        v.skip(version_value_len(v)),
        nul_ends,
    )) || (name =~= seq!['T', 'A', 'G'] && tag_value_ok(v, nul_ends) && directive_line_ends(
        v.skip(tag_value_end(v, directive_handle_len(v.skip(blank_run(v))))),
        nul_ends,
    ))
}

/// Whether nothing in `s` can stop a plain scalar with an error: no tab, and,
/// in a flow collection, no `:` right before one of `,?[]{}`.
spec fn plain_clear(s: Seq<char>, in_flow: bool) -> bool {
    &&& !s.contains('\t')
    &&& in_flow ==> forall|i: int|
        0 <= i < s.len() && #[trigger] s[i] == ':' ==> !(nth_or_nul(s, i + 1) == ','
            || nth_or_nul(s, i + 1) == '?' || nth_or_nul(s, i + 1) == '['
            || nth_or_nul(s, i + 1) == ']' || nth_or_nul(s, i + 1) == '{'
            || nth_or_nul(s, i + 1) == '}')
}

/// How many indicator characters follow the `|` or `>` at the start of `s`:
/// a chomping indicator and an indentation digit, in either order, each
/// optional.
spec fn block_indicators_len(s: Seq<char>) -> int {
    let c1 = nth_or_nul(s, 1);
    let c2 = nth_or_nul(s, 2);
    if c1 == '+' || c1 == '-' {
        if digit_char(c2) {
            2
        } else {
            1
        }
    } else if digit_char(c1) {
        if c2 == '+' || c2 == '-' {
            2
        } else {
            1
        }
    } else {
        0
    }
}

/// The chomping indicator of the block scalar header at the start of `s`
/// (after `|` or `>`): `+` (keep), `-` (strip), or a space when there is none
/// (clip). It stands first, or after an indentation digit.
pub open spec fn block_chomp(s: Seq<char>) -> char {
    let c1 = nth_or_nul(s, 1);
    let c2 = nth_or_nul(s, 2);
    if c1 == '+' || c1 == '-' {
        c1
    } else if digit_char(c1) && (c2 == '+' || c2 == '-') {
        c2
    } else {
        ' '
    }
}

/// Whether `s` starts with a block scalar header the scanner accepts: no
/// indentation digit `0`, and after the indicators and any blanks a comment,
/// a line break or the end.
spec fn block_header_ok(s: Seq<char>, nul_ends: bool) -> bool {
    let c1 = nth_or_nul(s, 1);
    let c2 = nth_or_nul(s, 2);
    let k = 1 + block_indicators_len(s);
    let b = blank_run(s.skip(k));
    &&& c1 != '0'
    &&& !((c1 == '+' || c1 == '-') && c2 == '0')
    &&& (nth_or_nul(s, k + b) == '#' || at_breakz(s.skip(k + b), nul_ends))
}

/// A text that lacks a character has no suffix that holds it.
proof fn lemma_suffix_lacks(s: Seq<char>, p: Seq<char>, t: Seq<char>, c: char)
    requires
        s == p + t,
        !s.contains(c),
    ensures
        !t.contains(c),
{
    if t.contains(c) {
        let i = choose|i: int| 0 <= i < t.len() && t[i] == c;
        assert(s[p.len() + i] == c);
    }
}

/// Whether the quote at place `n` of `x`, the text after an opening quote,
/// closes a quoted scalar that holds no quote, line break, nil or backslash
/// before it (and, in single quotes, is not doubled).
spec fn quoted_closes_at(x: Seq<char>, single: bool, n: int) -> bool {
    let q = if single {
        '\''
    } else {
        '"'
    };
    &&& 0 <= n < x.len()
    &&& x[n] == q
    &&& single ==> nth_or_nul(x, n + 1) != '\''
    &&& forall|i: int|
        0 <= i < n ==> #[trigger] x[i] != q && !break_char(x[i]) && x[i] != '\0' && x[i]
            != '\\'
}

/// Whether the text `x` after an opening double quote holds, at place `n`,
/// a backslash before a character that no escape starts with, and no quote,
/// line break, nil or backslash before it.
spec fn quoted_bad_escape_at(x: Seq<char>, n: int) -> bool {
    let e = nth_or_nul(x, n + 1);
    &&& 0 <= n < x.len()
    &&& x[n] == '\\'
    &&& !break_char(e)
    &&& simple_escape(e) is None
    &&& escape_code_len(e) == 0
    &&& forall|i: int|
        0 <= i < n ==> #[trigger] x[i] != '"' && !break_char(x[i]) && x[i] != '\0' && x[i]
            != '\\'
}

/// Whether the text `x` after an opening double quote reaches an unknown
/// escape on its first line, as [`quoted_bad_escape_at`] says.
spec fn quoted_bad_escape(x: Seq<char>) -> bool {
    exists|n: int| quoted_bad_escape_at(x, n)
}

/// Whether the text `x` after an opening quote runs out at place `n`, the
/// end of the input (or a nil there), with no quote, line break, nil or
/// backslash before it: the quoted scalar is never closed.
spec fn quoted_runs_out_at(x: Seq<char>, single: bool, nul_ends: bool, n: int) -> bool {
    let q = if single {
        '\''
    } else {
        '"'
    };
    &&& 0 <= n <= x.len()
    &&& n == x.len() || (nul_ends && x[n] == '\0')
    &&& forall|i: int|
        0 <= i < n ==> #[trigger] x[i] != q && !break_char(x[i]) && x[i] != '\0' && x[i]
            != '\\'
}

/// Whether the text `x` after an opening quote runs out on its line, with no
/// escape, nil or quote in it.
spec fn quoted_runs_out(x: Seq<char>, single: bool, nul_ends: bool) -> bool {
    exists|n: int| quoted_runs_out_at(x, single, nul_ends, n)
}

/// Whether `x`, the text after an opening quote, is a quoted scalar closed on
/// its line with no escape, nil or doubled quote in it.
spec fn quoted_clear(x: Seq<char>, single: bool) -> bool {
    exists|n: int| quoted_closes_at(x, single, n)
}

/// Where the minor number of a `%YAML` value at the start of `s` begins:
/// after the blanks, the major number and the `.`.
spec fn version_minor_at(s: Seq<char>) -> int {
    blank_run(s) + digit_run(s.skip(blank_run(s))) + 1
}

/// Whether `s` starts with a `%YAML` value the scanner accepts: blanks, a
/// major number, a `.` and a minor number, each number of one to nine digits.
spec fn version_value_ok(s: Seq<char>) -> bool {
    let b = blank_run(s);
    let m = digit_run(s.skip(b));
    &&& 0 < m <= MAX_NUMBER_LENGTH
    &&& nth_or_nul(s, b + m) == '.'
    &&& 0 < digit_run(s.skip(version_minor_at(s))) <= MAX_NUMBER_LENGTH
}

/// The number of characters of the `%YAML` value at the start of `s`.
spec fn version_value_len(s: Seq<char>) -> int {
    version_minor_at(s) + digit_run(s.skip(version_minor_at(s)))
}

/// The major number of the `%YAML` value at the start of `s`.
spec fn version_major(s: Seq<char>) -> int {
    let b = blank_run(s);
    decimal_value(s.subrange(b, b + digit_run(s.skip(b))))
}

/// The minor number of the `%YAML` value at the start of `s`.
spec fn version_minor(s: Seq<char>) -> int {
    decimal_value(s.subrange(version_minor_at(s), version_value_len(s)))
}

/// Whether `handle` and `suffix` are what a tag spelled by the first `n`
/// characters of `s` gives: `!<uri>` gives no handle and the decoded URI;
/// `!name!uri`, `!!uri` give the handle and the decoded URI; `!uri` gives the
/// handle `!` and the decoded URI, and a lone `!` gives no handle and `!`.
pub open spec fn tag_parts_of(handle: Seq<char>, suffix: Seq<char>, s: Seq<char>, n: int) -> bool {
    if nth_or_nul(s, 1) == '<' {
        &&& 3 <= n
        &&& s[n - 1] == '>'
        &&& uri_aligned(s.subrange(2, n - 1), true)
        &&& handle.len() == 0
        &&& suffix =~= uri_decoded(s.subrange(2, n - 1))
    } else {
        let k = tag_handle_len(s);
        let h = s.take(k);
        let u = s.subrange(k, n);
        &&& 1 <= k <= n
        &&& is_tag_handle_of(h, s)
        &&& uri_aligned(u, false)
        &&& if k > 1 && h[k - 1] == '!' {
            handle =~= h && suffix =~= uri_decoded(u)
        } else if h.drop_first() + uri_decoded(u) =~= Seq::<char>::empty() {
            handle.len() == 0 && suffix =~= seq!['!']
        } else {
            handle =~= seq!['!'] && suffix =~= h.drop_first() + uri_decoded(u)
        }
    }
}

/// Whether an anchor or alias may end where `s` begins: at the end of the
/// input, a blank, a line break, or one of `?:,]}%@` and the backquote.
pub open spec fn anchor_end_at(s: Seq<char>, nul_ends: bool) -> bool {
    let c = nth_or_nul(s, 0);
    ||| s.len() == 0 || (nul_ends && c == '\0') || blank_char(c) || break_char(c)
    ||| c == '?' || c == ':' || c == ',' || c == ']' || c == '}' || c == '%' || c == '@' || c == '`'
}

/// Whether `s`, an anchor or alias with its `&` or `*`, is one the scanner
/// accepts: at least one alphanumeric character, then where it may end.
pub open spec fn anchor_ok(s: Seq<char>, nul_ends: bool) -> bool {
    let a = alpha_run(s.skip(1));
    a > 0 && anchor_end_at(s.skip(1 + a), nul_ends)
}

/// The number of characters that `s` starts with that may stand in a tag URI.
pub open spec fn uri_len(s: Seq<char>, flow: bool) -> int {
    run_len(s, |c: char| tag_uri_char(c, flow))
}

/// The number of characters a tag takes at the start of `s`: `!<`, the URI
/// and `>`; or the handle and the URI after it.
pub open spec fn tag_len(s: Seq<char>) -> int {
    if nth_or_nul(s, 1) == '<' {
        3 + uri_len(s.skip(2), true)
    } else {
        let k = tag_handle_len(s);
        k + uri_len(s.skip(k), false)
    }
}

/// Whether a tag may end where `s` begins: at the end of the input, a blank
/// or a line break, or, in a flow collection, a `,`.
spec fn tag_end_at(s: Seq<char>, nul_ends: bool, in_flow: bool) -> bool {
    at_blankz(s, nul_ends) || (in_flow && nth_or_nul(s, 0) == ',')
}

/// Whether `s`, a tag with its `!`, is one the scanner accepts: `!<uri>` with
/// a non-empty URI, or a handle and a URI (non-empty after a `!name!` or
/// `!!` handle), the URI without a bad escape, then where a tag may end.
spec fn tag_ok(s: Seq<char>, nul_ends: bool, in_flow: bool) -> bool {
    if nth_or_nul(s, 1) == '<' {
        let m = uri_len(s.skip(2), true);
        &&& uri_scan_ok(s.skip(2), true)
        &&& tag_uri_char(nth_or_nul(s, 2), true)
        &&& nth_or_nul(s, 2 + m) == '>'
        &&& tag_end_at(s.skip(3 + m), nul_ends, in_flow)
    } else {
        let k = tag_handle_len(s);
        let m = uri_len(s.skip(k), false);
        &&& uri_scan_ok(s.skip(k), false)
        &&& (k > 1 && s[k - 1] == '!') ==> tag_uri_char(nth_or_nul(s, k), false)
        &&& tag_end_at(s.skip(k + m), nul_ends, in_flow)
    }
}

/// After a URI scan that stopped at a character that cannot stand in a URI,
/// what it read is the whole run of URI characters.
proof fn lemma_uri_scanned_len(s: Seq<char>, m: int, flow: bool)
    requires
        0 <= m <= s.len(),
        uri_aligned(s.take(m), flow),
        !tag_uri_char(nth_or_nul(s, m), flow),
    ensures
        uri_len(s, flow) == m,
{
    lemma_uri_aligned_chars(s.take(m), flow);
    assert forall|k: int| 0 <= k < m implies tag_uri_char(#[trigger] s[k], flow) by {
        assert(s[k] == s.take(m)[k]);
    }
    lemma_run_len(s, |c: char| tag_uri_char(c, flow), m);
}

/// Whether `v` is the name of an anchor or alias spelled at the start of `s`:
/// the alphanumeric characters after the `&` or `*`, at least one.
pub open spec fn anchor_name_of(v: Seq<char>, s: Seq<char>) -> bool {
    &&& v.len() > 0
    &&& 1 + v.len() <= s.len()
    &&& v =~= s.subrange(1, 1 + v.len() as int)
    &&& forall|i: int| 0 <= i < v.len() ==> alpha_char(#[trigger] v[i])
}

/// The value of a decimal digit.
pub open spec fn digit_value(c: char) -> int {
    c as int - '0' as int
}

/// The number that a sequence of decimal digits spells.
pub open spec fn decimal_value(digits: Seq<char>) -> int
    decreases digits.len(),
{
    if digits.len() == 0 {
        0
    } else {
        decimal_value(digits.drop_last()) * 10 + digit_value(digits.last())
    }
}

/// Ten to the power `n`.
pub open spec fn pow10(n: nat) -> int
    decreases n,
{
    if n == 0 {
        1
    } else {
        10 * pow10((n - 1) as nat)
    }
}

/// Powers of ten are positive.
proof fn lemma_pow10_positive(n: nat)
    ensures
        pow10(n) >= 1,
    decreases n,
{
    if n > 0 {
        lemma_pow10_positive((n - 1) as nat);
    }
}

/// Powers of ten up to the ninth are at most a billion.
proof fn lemma_pow10_bound(n: nat)
    requires
        n <= 9,
    ensures
        1 <= pow10(n) <= 1_000_000_000,
    decreases 9 - n,
{
    lemma_pow10_positive(n);
    if n < 9 {
        lemma_pow10_bound(n + 1);
        assert(pow10(n + 1) == 10 * pow10(n));
    } else {
        reveal_with_fuel(pow10, 10);
    }
}

/// Sixteen to the power `n`.
pub open spec fn pow16(n: nat) -> int
    decreases n,
{
    if n == 0 {
        1
    } else {
        16 * pow16((n - 1) as nat)
    }
}

/// Powers of sixteen below the eighth are at most sixteen to the seventh.
proof fn lemma_pow16_bound(n: nat)
    requires
        n < 8,
    ensures
        1 <= pow16(n) <= 0x1000_0000,
    decreases 8 - n,
{
    if n > 0 {
        lemma_pow16_positive((n - 1) as nat);
    }
    if n < 7 {
        lemma_pow16_bound(n + 1);
        assert(pow16(n + 1) == 16 * pow16(n));
    } else {
        reveal_with_fuel(pow16, 8);
    }
}

/// Powers of sixteen are positive.
proof fn lemma_pow16_positive(n: nat)
    ensures
        pow16(n) >= 1,
    decreases n,
{
    if n > 0 {
        lemma_pow16_positive((n - 1) as nat);
    }
}

/// A whitespace, a line break or the nil character.
pub open spec fn blankz_char(c: char) -> bool {
    blank_char(c) || break_char(c) || c == '\0'
}

/// The value of a decimal digit character.
fn decimal_digit(c: char) -> (r: u32)
    requires
        digit_char(c),
    ensures
        r == digit_value(c),
        r < 10,
{
    c as u32 - '0' as u32
}

/// Given an input stream of characters, produce a stream of [`Token`]s.
///
/// A parser reads its tokens from here; it may also be used on its own to
/// tokenize a YAML stream.
pub struct Scanner<I> {
    /// The input source.
    input: I,
    /// The mark of the current position.
    mark: Mark,
    /// Have we started to scan the input stream?
    stream_start_produced: bool,
    /// Have we reached the end of the input stream?
    stream_end_produced: bool,
    /// The number of unclosed '[' and '{' indicators.
    flow_level: i32,
    /// The tokens queue.
    tokens: VecDeque<Token>,
    /// The number of tokens fetched from the queue.
    tokens_parsed: usize,
    /// Does the tokens queue contain a token ready for dequeueing.
    token_available: bool,
    /// The indentation levels stack.
    indents: Vec<i32>,
    /// The current indentation level.
    indent: i32,
    /// May a simple key occur at the current position?
    simple_key_allowed: bool,
    /// The stack of simple keys.
    simple_keys: Vec<SimpleKey>,
    /// Where the token handed out last starts (the origin before any).
    last_start: Ghost<Mark>,
}

impl<I: Input> Scanner<I> {
    // -----------------------------------------------------------------------
    // The scanner's state, as seen from outside
    // -----------------------------------------------------------------------

    /// The input source.
    pub closed spec fn source(&self) -> I {
        self.input
    }

    /// The current position.
    pub closed spec fn position(&self) -> Mark {
        self.mark
    }

    /// Whether the STREAM-START token has been produced.
    pub closed spec fn started(&self) -> bool {
        self.stream_start_produced
    }

    /// Whether the STREAM-END token has been handed out.
    pub closed spec fn ended(&self) -> bool {
        self.stream_end_produced
    }

    /// The tokens fetched but not yet handed out, in order.
    pub closed spec fn queued(&self) -> Seq<Token> {
        self.tokens@
    }

    /// Whether the front of the queue is ready to be handed out.
    pub closed spec fn available(&self) -> bool {
        self.token_available
    }

    /// Whether a token is queued and no pending simple key still designates
    /// the front one, which can then be handed out as it is.
    pub closed spec fn front_ready(&self) -> bool {
        &&& self.tokens@.len() > 0
        &&& forall|i: int|
            0 <= i < self.simple_keys@.len() && (#[trigger] self.simple_keys@[i]).possible
                ==> self.simple_keys@[i].token_number != self.tokens_parsed
    }

    /// Two scanners that hold nothing but the same input, as after `new` or
    /// `reset`, are the same scanner: a reset scanner is a new one.
    pub proof fn lemma_fresh_scanners_agree(a: &Self, b: &Self)
        requires
            a.is_fresh(),
            b.is_fresh(),
            a.source() == b.source(),
        ensures
            a.position() == b.position(),
            a.started() == b.started(),
            a.ended() == b.ended(),
            a.queued() == b.queued(),
            a.available() == b.available(),
            a.handed_from() == b.handed_from(),
            a.wf() == b.wf(),
            a.settled() == b.settled(),
            a.token_budget() == b.token_budget(),
    {
        assert(a.tokens@ =~= b.tokens@);
        assert(a.indents@ =~= b.indents@);
        assert(a.simple_keys@ =~= b.simple_keys@);
    }

    /// How many tokens have been handed out so far (counted modulo the
    /// machine word, as the scanner counts them).
    pub closed spec fn handed_out(&self) -> usize {
        self.tokens_parsed
    }

    /// Whether no saved simple key is possible: none awaits a `:`.
    pub closed spec fn keys_idle(&self) -> bool {
        forall|i: int| 0 <= i < self.simple_keys@.len() ==> !(#[trigger] self.simple_keys@[i]).possible
    }

    /// Whether a simple key may start at the position.
    pub closed spec fn keys_allowed(&self) -> bool {
        self.simple_key_allowed
    }

    /// Whether no block ends at the position: it is inside a flow collection,
    /// or not left of the current indentation.
    pub closed spec fn closes_no_block(&self) -> bool {
        self.flow_level != 0 || (self.indent as i64) <= (self.mark.column as i64)
    }

    /// Whether the position is inside a flow collection.
    pub closed spec fn in_flow(&self) -> bool {
        self.flow_level != 0
    }

    /// Whether the next fetch, from an empty queue and with no simple key
    /// pending, owes success and leaves no simple key pending: no blank,
    /// break or comment comes first, the token ahead saves no simple key (or
    /// none may start here), and its own text is one the scanner accepts
    /// ([`token_owed`]).
    pub open spec fn next_fetch_owed(&self) -> bool {
        let s = self.source().chars();
        let col0 = self.position().column == 0;
        let nul = self.source().nul_ends_input();
        &&& self.started()
        &&& self.queued().len() == 0
        &&& self.keys_idle()
        &&& starts_clean(s)
        &&& (!self.keys_allowed() || !saves_key_at(s, col0, self.in_flow(), nul))
        &&& token_owed(s, col0, self.in_flow(), nul, self.keys_allowed(), false, false)
    }

    /// A token marked available is ready to be handed out.
    pub proof fn lemma_available_front_ready(s: &Self)
        requires
            s.wf(),
            s.available(),
        ensures
            s.front_ready(),
    {
    }

    /// Whether the scanner holds nothing but its input, as after `new` or `reset`.
    pub closed spec fn is_fresh(&self) -> bool {
        &&& self.mark == Mark { index: 0, line: 0, column: 0 }
        &&& !self.stream_start_produced
        &&& !self.stream_end_produced
        &&& self.flow_level == 0
        &&& self.tokens@.len() == 0
        &&& self.tokens_parsed == 0
        &&& !self.token_available
        &&& self.indents@.len() == 0
        &&& self.indent == 0
        &&& !self.simple_key_allowed
        &&& self.simple_keys@.len() == 0
        &&& self.last_start@ == Mark { index: 0, line: 0, column: 0 }
    }

    // -----------------------------------------------------------------------
    // Invariants
    // -----------------------------------------------------------------------

    /// Positions and depths stay within what the remaining input can reach.
    closed spec fn budget_ok(&self) -> bool {
        let n = self.input.chars().len();
        &&& self.mark.line + self.mark.column + n <= MAX_INPUT_CHARS
        &&& self.mark.index + 4 * n <= 4 * MAX_INPUT_CHARS
    }

    /// The flow depth is bounded by the input left to close it.
    closed spec fn flow_ok(&self) -> bool {
        &&& 0 <= self.flow_level
        &&& self.flow_level + self.input.chars().len() <= MAX_INPUT_CHARS
    }

    /// The indentation stack starts at -1 and strictly increases.
    closed spec fn stack_ok(&self) -> bool {
        let st = self.indents@.push(self.indent);
        &&& st[0] == -1
        &&& forall|i: int, j: int| 0 <= i < j < st.len() ==> st[i] < st[j]
        &&& self.indent <= MAX_INPUT_CHARS
    }

    /// A saved simple key lies behind the current position, and a possible
    /// one designates a token still in the queue (or the next one).
    #[verifier::inline]
    closed spec fn key_ok_weak(&self, k: SimpleKey) -> bool {
        key_ok_weak_at(k, self.mark, self.tokens_parsed, self.tokens@.len())
    }

    #[verifier::inline]
    closed spec fn key_ok(&self, k: SimpleKey) -> bool {
        key_ok_at(k, self.mark, self.tokens_parsed, self.tokens@.len())
    }

    closed spec fn keys_ok(&self) -> bool {
        forall|i: int| 0 <= i < self.simple_keys@.len() ==> #[trigger] self.key_ok(self.simple_keys@[i])
    }

    /// All keys are sound, except that a just-saved one may sit exactly at
    /// the current position.
    closed spec fn keys_loose(&self) -> bool {
        forall|i: int|
            0 <= i < self.simple_keys@.len() ==> #[trigger] self.key_ok_weak(self.simple_keys@[i])
    }

    /// Before STREAM-START nothing is set up; afterwards there is one simple
    /// key per flow level and a well-formed indentation stack.
    closed spec fn structure_ok(&self) -> bool {
        if self.stream_start_produced {
            &&& self.simple_keys@.len() == self.flow_level + 1
            &&& self.stack_ok()
        } else {
            &&& self.simple_keys@.len() == 0
            &&& self.flow_level == 0
            &&& self.indents@.len() == 0
            &&& self.indent == 0
            &&& self.tokens@.len() == 0
            &&& !self.token_available
        }
    }

    /// A token is marked available only when one is queued and no possible
    /// simple key still designates it.
    closed spec fn available_ok(&self) -> bool {
        self.token_available ==> {
            &&& self.tokens@.len() > 0
            &&& forall|i: int|
                0 <= i < self.simple_keys@.len() && (#[trigger] self.simple_keys@[i]).possible
                    ==> self.simple_keys@[i].token_number != self.tokens_parsed
        }
    }

    /// The scanner's internal consistency, kept by every public operation.
    pub closed spec fn wf(&self) -> bool {
        &&& self.input.well_formed()
        &&& self.budget_ok()
        &&& self.flow_ok()
        &&& self.structure_ok()
        &&& self.keys_ok()
        &&& self.available_ok()
    }

    /// Consistency while a just-saved simple key awaits its token.
    closed spec fn wf_loose(&self) -> bool {
        &&& self.input.well_formed()
        &&& self.budget_ok()
        &&& self.flow_ok()
        &&& self.structure_ok()
        &&& self.keys_loose()
        &&& self.available_ok()
    }

    /// Everything but the input and the position is the same.
    closed spec fn same_state(&self, o: &Self) -> bool {
        &&& self.stream_start_produced == o.stream_start_produced
        &&& self.stream_end_produced == o.stream_end_produced
        &&& self.flow_level == o.flow_level
        &&& self.tokens@ == o.tokens@
        &&& self.tokens_parsed == o.tokens_parsed
        &&& self.token_available == o.token_available
        &&& self.indents@ == o.indents@
        &&& self.indent == o.indent
        &&& self.simple_key_allowed == o.simple_key_allowed
        &&& self.simple_keys@ == o.simple_keys@
        &&& self.last_start == o.last_start
    }

    /// Moving forward keeps the saved keys behind the position.
    proof fn lemma_keys_follow(a: &Self, b: &Self)
        requires
            a.keys_ok(),
            b.simple_keys@ == a.simple_keys@,
            b.tokens@.len() >= a.tokens@.len(),
            b.tokens_parsed == a.tokens_parsed,
            mark_not_after(a.mark, b.mark),
        ensures
            b.keys_ok(),
    {
        assert forall|i: int| 0 <= i < b.simple_keys@.len() implies #[trigger] b.key_ok(
            b.simple_keys@[i],
        ) by {
            assert(a.key_ok(a.simple_keys@[i]));
        }
    }

    /// Moving strictly forward puts a just-saved key behind the position.
    proof fn lemma_loose_follow(a: &Self, b: &Self)
        requires
            a.keys_loose(),
            b.simple_keys@ == a.simple_keys@,
            b.tokens@.len() >= a.tokens@.len(),
            b.tokens_parsed == a.tokens_parsed,
            mark_not_after(a.mark, b.mark),
            mark_before(a.mark, b.mark),
        ensures
            b.keys_ok(),
    {
        assert forall|i: int| 0 <= i < b.simple_keys@.len() implies #[trigger] b.key_ok(
            b.simple_keys@[i],
        ) by {
            assert(a.key_ok_weak(a.simple_keys@[i]));
        }
    }

    /// Sound keys are in particular loosely sound.
    proof fn lemma_ok_is_loose(a: &Self)
        requires
            a.keys_ok(),
        ensures
            a.keys_loose(),
    {
        assert forall|i: int| 0 <= i < a.simple_keys@.len() implies #[trigger] a.key_ok_weak(
            a.simple_keys@[i],
        ) by {
            assert(a.key_ok(a.simple_keys@[i]));
        }
    }

    /// A loosely consistent scanner that has moved strictly forward is consistent.
    proof fn lemma_assemble(a: &Self, b: &Self)
        requires
            a.keys_loose(),
            b.input.well_formed(),
            b.budget_ok(),
            b.flow_ok(),
            b.structure_ok(),
            b.available_ok(),
            b.simple_keys@ == a.simple_keys@,
            b.tokens@.len() >= a.tokens@.len(),
            b.tokens_parsed == a.tokens_parsed,
            mark_not_after(a.mark, b.mark),
            mark_before(a.mark, b.mark),
        ensures
            b.wf(),
    {
        Self::lemma_loose_follow(a, b);
    }

    /// Moving forward over input keeps a consistent scanner consistent.
    proof fn lemma_advance_wf(a: &Self, b: &Self)
        requires
            a.wf(),
            b.same_state(a),
            b.input.well_formed(),
            b.budget_ok(),
            b.input.chars().len() <= a.input.chars().len(),
            mark_not_after(a.mark, b.mark),
        ensures
            b.wf(),
    {
        Self::lemma_keys_follow(a, b);
    }

    /// Create a new scanner for the given input.
    ///
    /// The input may hold at most [`MAX_INPUT_CHARS`] characters.
    pub fn new(input: I) -> (r: Scanner<I>)
        requires
            input.well_formed(),
            input.chars().len() <= MAX_INPUT_CHARS,
        ensures
            r.wf(),
            r.is_fresh(),
            !r.started(),
            !r.ended(),
            !r.available(),
            r.queued().len() == 0,
            r.position() == (Mark { index: 0, line: 0, column: 0 }),
            r.settled(),
            r.marks_behind(),
            r.in_order(),
            8 * input.chars().len() + 6 < usize::MAX ==> r.has_room(),
            r.source() == input,
    {
        let r = Self {
            input,
            mark: Mark::default(),
            stream_start_produced: false,
            stream_end_produced: false,
            flow_level: 0,
            tokens: VecDeque::with_capacity(16),
            tokens_parsed: 0,
            token_available: false,
            indents: Vec::with_capacity(16),
            indent: 0,
            simple_key_allowed: false,
            simple_keys: Vec::with_capacity(16),
            last_start: Ghost(Mark { index: 0, line: 0, column: 0 }),
        };
        r
    }

    /// Reset the scanner with a new input, preserving internal allocations.
    ///
    /// The input may hold at most [`MAX_INPUT_CHARS`] characters.
    pub fn reset(&mut self, input: I)
        requires
            input.well_formed(),
            input.chars().len() <= MAX_INPUT_CHARS,
        ensures
            final(self).wf(),
            final(self).is_fresh(),
            !final(self).started(),
            !final(self).ended(),
            !final(self).available(),
            final(self).queued().len() == 0,
            final(self).position() == (Mark { index: 0, line: 0, column: 0 }),
            final(self).settled(),
            final(self).marks_behind(),
            final(self).in_order(),
            8 * input.chars().len() + 6 < usize::MAX ==> final(self).has_room(),
            final(self).source() == input,
    {
        self.input = input;
        self.mark = Mark::default();
        self.stream_start_produced = false;
        self.stream_end_produced = false;
        self.flow_level = 0;
        self.tokens.clear();
        self.tokens_parsed = 0;
        self.token_available = false;
        self.indents.clear();
        self.indent = 0;
        self.simple_key_allowed = false;
        self.simple_keys.clear();
        self.last_start = Ghost(Mark { index: 0, line: 0, column: 0 });
    }

    // -----------------------------------------------------------------------
    // Low-level input helpers
    // -----------------------------------------------------------------------

    /// Skip one character, advancing the mark.
    fn skip_char(&mut self)
        requires
            old(self).input.well_formed(),
            old(self).input.chars().len() > 0,
            old(self).budget_ok(),
        ensures
            final(self).input.well_formed(),
            final(self).input.chars() == old(self).input.chars().drop_first(),
            final(self).input.nul_ends_input() == old(self).input.nul_ends_input(),
            final(self).mark == (Mark {
                index: (old(self).mark.index + utf8_width(old(self).input.chars()[0])) as u64,
                line: old(self).mark.line,
                column: (old(self).mark.column + 1) as u64,
            }),
            final(self).same_state(old(self)),
            final(self).budget_ok(),
            mark_not_after(old(self).mark, final(self).mark),
            mark_before(old(self).mark, final(self).mark),
            old(self).wf() ==> final(self).wf(),
            old(self).wf_loose() ==> final(self).wf(),
    {
        let ch = self.input.peek();
        self.input.skip();
        proof {
            crate::input::text::lemma_width_bounds(ch);
        }
        self.mark.index += ch.len_utf8() as u64;
        self.mark.column += 1;
        proof {
            if old(self).wf() {
                Self::lemma_advance_wf(old(self), self);
            }
            if old(self).wf_loose() {
                Self::lemma_assemble(old(self), self);
            }
        }
    }

    /// Read one character into `string`, advancing the mark.
    fn read_char(&mut self, string: &mut String)
        requires
            old(self).input.well_formed(),
            old(self).input.chars().len() > 0,
            old(self).budget_ok(),
        ensures
            final(self).input.well_formed(),
            final(self).input.chars() == old(self).input.chars().drop_first(),
            final(self).input.nul_ends_input() == old(self).input.nul_ends_input(),
            final(self).mark == (Mark {
                index: (old(self).mark.index + utf8_width(old(self).input.chars()[0])) as u64,
                line: old(self).mark.line,
                column: (old(self).mark.column + 1) as u64,
            }),
            final(self).same_state(old(self)),
            final(self).budget_ok(),
            mark_not_after(old(self).mark, final(self).mark),
            mark_before(old(self).mark, final(self).mark),
            old(self).wf() ==> final(self).wf(),
            old(self).wf_loose() ==> final(self).wf(),
            final(string)@ == old(string)@.push(old(self).input.chars()[0]),
    {
        let ch = self.input.peek();
        string.push(ch);
        self.input.skip();
        proof {
            crate::input::text::lemma_width_bounds(ch);
        }
        self.mark.index += ch.len_utf8() as u64;
        self.mark.column += 1;
        proof {
            if old(self).wf() {
                Self::lemma_advance_wf(old(self), self);
            }
            if old(self).wf_loose() {
                Self::lemma_assemble(old(self), self);
            }
        }
    }

    /// Skip a line break sequence (\r\n, \r, \n, or Unicode break), advancing the mark.
    fn skip_line_break(&mut self)
        requires
            old(self).input.well_formed(),
            old(self).budget_ok(),
        ensures
            final(self).input.well_formed(),
            final(self).input.nul_ends_input() == old(self).input.nul_ends_input(),
            final(self).same_state(old(self)),
            final(self).budget_ok(),
            mark_not_after(old(self).mark, final(self).mark),
            old(self).wf() ==> final(self).wf(),
            ({
                let s = old(self).input.chars();
                if nth_or_nul(s, 0) == '\r' && nth_or_nul(s, 1) == '\n' {
                    &&& final(self).input.chars() == s.skip(2)
                    &&& final(self).mark == (Mark {
                        index: (old(self).mark.index + 2) as u64,
                        line: (old(self).mark.line + 1) as u64,
                        column: 0,
                    })
                } else if break_char(nth_or_nul(s, 0)) {
                    &&& final(self).input.chars() == s.drop_first()
                    &&& final(self).mark == (Mark {
                        index: (old(self).mark.index + utf8_width(s[0])) as u64,
                        line: (old(self).mark.line + 1) as u64,
                        column: 0,
                    })
                } else {
                    &&& final(self).input.chars() == s
                    &&& final(self).mark == old(self).mark
                }
            }),
    {
        let front = self.input.peek();
        if front == '\r' && self.input.peek_nth(1) == '\n' {
            self.input.skip_n(2);
            self.mark.index += 2;
            self.mark.column = 0;
            self.mark.line += 1;
        } else if is_break(front) {
            proof {
                crate::input::text::lemma_width_bounds(front);
            }
            let width = front.len_utf8();
            self.input.skip();
            self.mark.index += width as u64;
            self.mark.column = 0;
            self.mark.line += 1;
        }
        proof {
            if old(self).wf() {
                Self::lemma_advance_wf(old(self), self);
            }
        }
    }

    /// Read a line break sequence into `string`, advancing the mark.
    fn read_line_break(&mut self, string: &mut String)
        requires
            old(self).input.well_formed(),
            old(self).budget_ok(),
        ensures
            final(self).input.well_formed(),
            final(self).input.nul_ends_input() == old(self).input.nul_ends_input(),
            final(self).same_state(old(self)),
            final(self).budget_ok(),
            mark_not_after(old(self).mark, final(self).mark),
            old(self).wf() ==> final(self).wf(),
            ({
                let s = old(self).input.chars();
                if nth_or_nul(s, 0) == '\r' && nth_or_nul(s, 1) == '\n' {
                    &&& final(self).input.chars() == s.skip(2)
                    &&& final(self).mark == (Mark {
                        index: (old(self).mark.index + 2) as u64,
                        line: (old(self).mark.line + 1) as u64,
                        column: 0,
                    })
                    &&& final(string)@ == old(string)@.push('\n')
                } else if break_char(nth_or_nul(s, 0)) {
                    &&& final(self).input.chars() == s.drop_first()
                    &&& final(self).mark == (Mark {
                        index: (old(self).mark.index + utf8_width(s[0])) as u64,
                        line: (old(self).mark.line + 1) as u64,
                        column: 0,
                    })
                    &&& final(string)@ == old(string)@.push(
                        if utf8_width(s[0]) == 3 {
                            s[0]
                        } else {
                            '\n'
                        },
                    )
                } else {
                    &&& final(self).input.chars() == s
                    &&& final(self).mark == old(self).mark
                    &&& final(string)@ == old(string)@
                }
            }),
    {
        let front = self.input.peek();
        if front == '\r' && self.input.peek_nth(1) == '\n' {
            string.push('\n');
            self.input.skip_n(2);
            self.mark.index += 2;
            self.mark.column = 0;
            self.mark.line += 1;
        } else if is_break(front) {
            self.input.skip();
            proof {
                crate::input::text::lemma_width_bounds(front);
            }
            let char_len = front.len_utf8();
            if char_len == 3 {
                // The Unicode line and paragraph separators are kept as they are.
                string.push(front);
            } else {
                string.push('\n');
            }
            self.mark.index += char_len as u64;
            self.mark.column = 0;
            self.mark.line += 1;
        }
        proof {
            if old(self).wf() {
                Self::lemma_advance_wf(old(self), self);
            }
        }
    }

    fn set_scanner_error<T>(
        &mut self,
        context: &'static str,
        context_mark: Mark,
        problem: &'static str,
    ) -> (r: Result<T>)
        ensures
            *final(self) == *old(self),
            r == Err::<T, Error>(Error::scanner_spec(context, context_mark, problem, old(self).mark)),
    {
        Err(Error::scanner(context, context_mark, problem, self.mark))
    }

    // -----------------------------------------------------------------------
    // Simple key handling
    // -----------------------------------------------------------------------

    /// A saved key is stale once the scanner has moved to a later line or
    /// more than 1024 bytes past it.
    spec fn is_stale(k: SimpleKey, at: Mark) -> bool {
        k.possible && (k.mark.line < at.line || k.mark.index + 1024 < at.index)
    }

    /// Whether a saved simple key that must be completed is still pending.
    pub closed spec fn key_pending(&self) -> bool {
        exists|i: int|
            0 <= i < self.simple_keys@.len() && (#[trigger] self.simple_keys@[i]).possible
                && self.simple_keys@[i].required
    }

    /// Whether a saved simple key that must be completed has gone stale: the
    /// next fetch then fails.
    pub closed spec fn key_overdue(&self) -> bool {
        exists|i: int|
            0 <= i < self.simple_keys@.len() && Self::is_stale(
                #[trigger] self.simple_keys@[i],
                self.mark,
            ) && self.simple_keys@[i].required
    }

    fn stale_simple_keys(&mut self) -> (r: Result<()>)
        requires
            old(self).wf(),
        ensures
            final(self).wf(),
            final(self).input == old(self).input,
            final(self).mark == old(self).mark,
            final(self).stream_start_produced == old(self).stream_start_produced,
            final(self).stream_end_produced == old(self).stream_end_produced,
            final(self).flow_level == old(self).flow_level,
            final(self).tokens@ == old(self).tokens@,
            final(self).tokens_parsed == old(self).tokens_parsed,
            final(self).token_available == old(self).token_available,
            final(self).indents@ == old(self).indents@,
            final(self).indent == old(self).indent,
            final(self).simple_key_allowed == old(self).simple_key_allowed,
            final(self).simple_keys@.len() == old(self).simple_keys@.len(),
            final(self).last_start == old(self).last_start,
            old(self).in_order() ==> final(self).in_order(),
            forall|i: int|
                0 <= i < old(self).simple_keys@.len() ==> {
                    let k = #[trigger] old(self).simple_keys@[i];
                    let k2 = final(self).simple_keys@[i];
                    &&& k2.required == k.required
                    &&& k2.token_number == k.token_number
                    &&& k2.mark == k.mark
                    &&& k2.possible ==> k.possible
                }
            ,
            r is Ok ==> forall|i: int|
                0 <= i < old(self).simple_keys@.len() ==> {
                    let k = #[trigger] old(self).simple_keys@[i];
                    let k2 = final(self).simple_keys@[i];
                    &&& Self::is_stale(k, old(self).mark) ==> !k.required && !k2.possible
                    &&& !Self::is_stale(k, old(self).mark) ==> k2 == k
                },
            r is Err ==> exists|i: int|
                0 <= i < old(self).simple_keys@.len() && Self::is_stale(
                    #[trigger] old(self).simple_keys@[i],
                    old(self).mark,
                ) && old(self).simple_keys@[i].required,
            r matches Err(e) ==> exists|i: int|
                {
                    &&& 0 <= i < old(self).simple_keys@.len()
                    &&& Self::is_stale(#[trigger] old(self).simple_keys@[i], old(self).mark)
                    &&& old(self).simple_keys@[i].required
                    &&& forall|j: int|
                        0 <= j < i ==> !(Self::is_stale(
                            #[trigger] old(self).simple_keys@[j],
                            old(self).mark,
                        ) && old(self).simple_keys@[j].required)
                    &&& e == Error::scanner_spec(
                        "while scanning a simple key",
                        old(self).simple_keys@[i].mark,
                        "could not find expected ':'",
                        old(self).mark,
                    )
                },
    {
        let n = self.simple_keys.len();
        let mut i: usize = 0;
        while i < n
            invariant
                0 <= i <= n,
                n == self.simple_keys@.len(),
                old(self).wf(),
                self.wf(),
                self.token_available == old(self).token_available,
                self.input == old(self).input,
                self.mark == old(self).mark,
                self.stream_start_produced == old(self).stream_start_produced,
                self.stream_end_produced == old(self).stream_end_produced,
                self.flow_level == old(self).flow_level,
                self.tokens@ == old(self).tokens@,
                self.tokens_parsed == old(self).tokens_parsed,
                self.indents@ == old(self).indents@,
                self.indent == old(self).indent,
                self.simple_key_allowed == old(self).simple_key_allowed,
                self.simple_keys@.len() == old(self).simple_keys@.len(),
                self.last_start == old(self).last_start,
                old(self).in_order() ==> self.in_order(),
                forall|j: int|
                    0 <= j < n ==> {
                        let k = #[trigger] old(self).simple_keys@[j];
                        let k2 = self.simple_keys@[j];
                        &&& k2.required == k.required
                        &&& k2.token_number == k.token_number
                        &&& k2.mark == k.mark
                        &&& k2.possible ==> k.possible
                        &&& j >= i ==> k2 == k
                        &&& j < i ==> (Self::is_stale(k, old(self).mark) ==> !k.required
                            && !k2.possible)
                        &&& j < i ==> (!Self::is_stale(k, old(self).mark) ==> k2 == k)
                    },
            decreases n - i,
        {
            let simple_key = self.simple_keys[i];
            let mark = simple_key.mark;
            proof {
                assert(self.key_ok(self.simple_keys@[i as int]));
            }
            if simple_key.possible && (mark.line < self.mark.line || mark.index + 1024
                < self.mark.index) {
                if simple_key.required {
                    proof {
                        assert(old(self).simple_keys@[i as int] == simple_key);
                        assert(Self::is_stale(old(self).simple_keys@[i as int], old(self).mark));
                    }
                    return self.set_scanner_error(
                        "while scanning a simple key",
                        mark,
                        "could not find expected ':'",
                    );
                }
                let ghost before = *self;
                self.simple_keys.set(
                    i,
                    SimpleKey {
                        possible: false,
                        required: simple_key.required,
                        token_number: simple_key.token_number,
                        mark: simple_key.mark,
                    },
                );
                proof {
                    assert forall|j: int| 0 <= j < self.simple_keys@.len() implies #[trigger] self.key_ok(
                        self.simple_keys@[j],
                    ) by {
                        assert(before.key_ok(before.simple_keys@[j]));
                    }
                    if before.in_order() {
                        Self::lemma_order_keys_off(&before, self);
                    }
                }
            }
            i += 1;
        }
        Ok(())
    }

    fn save_simple_key(&mut self) -> (r: Result<()>)
        requires
            old(self).wf(),
            old(self).stream_start_produced,
            !old(self).token_available,
        ensures
            final(self).wf_loose(),
            final(self).input == old(self).input,
            final(self).mark == old(self).mark,
            final(self).stream_start_produced == old(self).stream_start_produced,
            final(self).stream_end_produced == old(self).stream_end_produced,
            final(self).flow_level == old(self).flow_level,
            final(self).tokens@ == old(self).tokens@,
            final(self).tokens_parsed == old(self).tokens_parsed,
            final(self).token_available == old(self).token_available,
            final(self).indents@ == old(self).indents@,
            final(self).indent == old(self).indent,
            final(self).simple_key_allowed == old(self).simple_key_allowed,
            final(self).simple_keys@.len() == old(self).simple_keys@.len(),
            final(self).simple_keys@.drop_last() == old(self).simple_keys@.drop_last(),
            final(self).last_start == old(self).last_start,
            old(self).marks_behind() && old(self).in_order() && old(self).tokens_parsed as int
                + old(self).tokens@.len() < usize::MAX ==> final(self).in_order(),
            r is Err <==> (old(self).simple_key_allowed && old(self).simple_keys@.last().possible
                && old(self).simple_keys@.last().required),
            r is Err ==> final(self).simple_keys@ == old(self).simple_keys@,
            r is Ok && !old(self).simple_key_allowed ==> final(self).simple_keys@
                == old(self).simple_keys@,
            r is Ok && old(self).simple_key_allowed ==> final(self).simple_keys@.last() == (
            SimpleKey {
                possible: true,
                required: old(self).flow_level == 0 && old(self).indent as u64
                    == old(self).mark.column,
                token_number: old(self).tokens_parsed.wrapping_add(old(self).tokens@.len() as usize),
                mark: old(self).mark,
            }),
    {
        let required = self.flow_level == 0 && self.indent as u64 == self.mark.column;
        proof {
            Self::lemma_ok_is_loose(self);
        }
        if self.simple_key_allowed {
            let simple_key = SimpleKey {
                possible: true,
                required,
                token_number: self.tokens_parsed.wrapping_add(self.tokens.len()),
                mark: self.mark,
            };
            self.remove_simple_key()?;
            let n = self.simple_keys.len();
            let ghost before = *self;
            self.simple_keys.set(n - 1, simple_key);
            proof {
                assert(self.simple_keys@.drop_last() =~= before.simple_keys@.drop_last());
                assert forall|j: int| 0 <= j < self.simple_keys@.len() implies #[trigger] self.key_ok_weak(
                    self.simple_keys@[j],
                ) by {
                    if j < n - 1 {
                        assert(before.key_ok_weak(before.simple_keys@[j]));
                    }
                }
                if before.marks_behind() && before.in_order() && before.tokens_parsed as int
                    + before.tokens@.len() < usize::MAX {
                    Self::lemma_order_key_saved(&before, self);
                }
            }
        }
        Ok(())
    }

    fn remove_simple_key(&mut self) -> (r: Result<()>)
        requires
            old(self).wf_loose() || old(self).wf(),
            old(self).stream_start_produced,
        ensures
            final(self).wf_loose(),
            old(self).wf() ==> final(self).wf(),
            final(self).input == old(self).input,
            final(self).mark == old(self).mark,
            final(self).stream_start_produced == old(self).stream_start_produced,
            final(self).stream_end_produced == old(self).stream_end_produced,
            final(self).flow_level == old(self).flow_level,
            final(self).tokens@ == old(self).tokens@,
            final(self).tokens_parsed == old(self).tokens_parsed,
            final(self).token_available == old(self).token_available,
            final(self).indents@ == old(self).indents@,
            final(self).indent == old(self).indent,
            final(self).simple_key_allowed == old(self).simple_key_allowed,
            final(self).simple_keys@.len() == old(self).simple_keys@.len(),
            final(self).simple_keys@.drop_last() == old(self).simple_keys@.drop_last(),
            final(self).last_start == old(self).last_start,
            old(self).in_order() ==> final(self).in_order(),
            r is Err <==> (old(self).simple_keys@.last().possible
                && old(self).simple_keys@.last().required),
            r is Err ==> final(self).simple_keys@ == old(self).simple_keys@ && r == Err::<(), Error>(
                Error::scanner_spec(
                    "while scanning a simple key",
                    old(self).simple_keys@.last().mark,
                    "could not find expected ':'",
                    old(self).mark,
                ),
            ),
            r is Ok ==> final(self).simple_keys@.last() == (SimpleKey {
                possible: false,
                ..old(self).simple_keys@.last()
            }),
            old(self).keys_idle() ==> final(self).keys_idle(),
    {
        proof {
            if self.wf() {
                Self::lemma_ok_is_loose(self);
            }
        }
        let n = self.simple_keys.len();
        let simple_key = self.simple_keys[n - 1];
        if simple_key.possible {
            let mark = simple_key.mark;
            if simple_key.required {
                return self.set_scanner_error(
                    "while scanning a simple key",
                    mark,
                    "could not find expected ':'",
                );
            }
        }
        let ghost before = *self;
        self.simple_keys.set(
            n - 1,
            SimpleKey {
                possible: false,
                required: simple_key.required,
                token_number: simple_key.token_number,
                mark: simple_key.mark,
            },
        );
        proof {
            assert(self.simple_keys@.drop_last() =~= before.simple_keys@.drop_last());
            if before.in_order() {
                assert forall|q: int|
                    0 <= q < self.simple_keys@.len() && (#[trigger] self.simple_keys@[q]).possible
                    implies q < before.simple_keys@.len() && self.simple_keys@[q]
                    == before.simple_keys@[q] by {
                    assert(self.simple_keys@[q] == self.simple_keys@.drop_last()[q]);
                    assert(before.simple_keys@[q] == before.simple_keys@.drop_last()[q]);
                }
                Self::lemma_order_keys_off(&before, self);
            }
            assert forall|j: int| 0 <= j < self.simple_keys@.len() implies #[trigger] self.key_ok_weak(
                self.simple_keys@[j],
            ) by {
                assert(before.key_ok_weak(before.simple_keys@[j]));
            }
            if before.keys_idle() {
                assert forall|q: int| 0 <= q < self.simple_keys@.len() implies !(
                #[trigger] self.simple_keys@[q]).possible by {
                    if q < n - 1 {
                        assert(self.simple_keys@[q] == before.simple_keys@[q]);
                    }
                }
            }
            if before.keys_ok() {
                assert(before.key_ok(before.simple_keys@[n - 1]));
                assert forall|j: int| 0 <= j < self.simple_keys@.len() implies #[trigger] self.key_ok(
                    self.simple_keys@[j],
                ) by {
                    assert(before.key_ok(before.simple_keys@[j]));
                }
            }
        }
        Ok(())
    }

    // -----------------------------------------------------------------------
    // Flow level / indentation
    // -----------------------------------------------------------------------

    fn increase_flow_level(&mut self) -> (r: Result<()>)
        requires
            old(self).wf_loose(),
            old(self).stream_start_produced,
            old(self).input.chars().len() > 0,
        ensures
            r is Ok,
            final(self).input == old(self).input,
            final(self).mark == old(self).mark,
            final(self).stream_start_produced == old(self).stream_start_produced,
            final(self).stream_end_produced == old(self).stream_end_produced,
            final(self).flow_level == old(self).flow_level + 1,
            final(self).tokens@ == old(self).tokens@,
            final(self).tokens_parsed == old(self).tokens_parsed,
            final(self).token_available == old(self).token_available,
            final(self).indents@ == old(self).indents@,
            final(self).indent == old(self).indent,
            final(self).simple_key_allowed == old(self).simple_key_allowed,
            final(self).simple_keys@ == old(self).simple_keys@.push(
                SimpleKey {
                    possible: false,
                    required: false,
                    token_number: 0,
                    mark: Mark { index: 0, line: 0, column: 0 },
                },
            ),
            final(self).keys_loose(),
            final(self).last_start == old(self).last_start,
            old(self).in_order() ==> final(self).in_order(),
            final(self).structure_ok(),
            final(self).available_ok(),
    {
        let empty_simple_key = SimpleKey {
            possible: false,
            required: false,
            token_number: 0,
            mark: Mark { index: 0_u64, line: 0_u64, column: 0_u64 },
        };
        let ghost before = *self;
        self.simple_keys.push(empty_simple_key);
        assert(self.flow_level != i32::MAX);
        self.flow_level += 1;
        proof {
            assert forall|j: int| 0 <= j < self.simple_keys@.len() implies #[trigger] self.key_ok_weak(
                self.simple_keys@[j],
            ) by {
                if j < before.simple_keys@.len() {
                    assert(before.key_ok_weak(before.simple_keys@[j]));
                }
            }
            if before.in_order() {
                Self::lemma_order_keys_off(&before, self);
            }
        }
        Ok(())
    }

    fn decrease_flow_level(&mut self)
        requires
            old(self).wf_loose(),
            old(self).stream_start_produced,
        ensures
            final(self).input == old(self).input,
            final(self).mark == old(self).mark,
            final(self).stream_start_produced == old(self).stream_start_produced,
            final(self).stream_end_produced == old(self).stream_end_produced,
            final(self).tokens@ == old(self).tokens@,
            final(self).tokens_parsed == old(self).tokens_parsed,
            final(self).token_available == old(self).token_available,
            final(self).indents@ == old(self).indents@,
            final(self).indent == old(self).indent,
            final(self).simple_key_allowed == old(self).simple_key_allowed,
            old(self).flow_level != 0 ==> final(self).flow_level == old(self).flow_level - 1
                && final(self).simple_keys@ == old(self).simple_keys@.drop_last(),
            old(self).flow_level == 0 ==> final(self).flow_level == 0 && final(self).simple_keys@
                == old(self).simple_keys@,
            final(self).wf_loose(),
            old(self).wf() ==> final(self).wf(),
            final(self).last_start == old(self).last_start,
            old(self).in_order() ==> final(self).in_order(),
    {
        let ghost before = *self;
        if self.flow_level != 0 {
            self.flow_level -= 1;
            let _ = self.simple_keys.pop();
            proof {
                assert forall|j: int| 0 <= j < self.simple_keys@.len() implies #[trigger] self.key_ok_weak(
                    self.simple_keys@[j],
                ) by {
                    assert(before.key_ok_weak(before.simple_keys@[j]));
                }
                if before.in_order() {
                    Self::lemma_order_keys_off(&before, self);
                }
                if before.wf() {
                    assert forall|j: int| 0 <= j < self.simple_keys@.len() implies #[trigger] self.key_ok(
                        self.simple_keys@[j],
                    ) by {
                        assert(before.key_ok(before.simple_keys@[j]));
                    }
                }
            }
        }
    }

    /// The position in the queue that a token number designates.
    spec fn queue_slot(number: i64, parsed: usize) -> int {
        (number as usize).wrapping_sub(parsed) as int
    }

    /// The queue after a token is added for the token numbered `number`:
    /// in front of that token, or at the end when `number` is -1.
    spec fn queue_with(queue: Seq<Token>, number: i64, parsed: usize, t: Token) -> Seq<Token> {
        if number == -1 {
            queue.push(t)
        } else {
            queue.insert(Self::queue_slot(number, parsed), t)
        }
    }

    fn roll_indent(&mut self, column: i64, number: i64, data: TokenData, mark: Mark) -> (r: Result<
        (),
    >)
        requires
            old(self).stream_start_produced,
            old(self).stack_ok(),
            0 <= column <= MAX_INPUT_CHARS,
            number == -1 || Self::queue_slot(number, old(self).tokens_parsed)
                <= old(self).tokens@.len(),
        ensures
            r is Ok,
            final(self).input == old(self).input,
            final(self).mark == old(self).mark,
            final(self).stream_start_produced == old(self).stream_start_produced,
            final(self).stream_end_produced == old(self).stream_end_produced,
            final(self).flow_level == old(self).flow_level,
            final(self).tokens_parsed == old(self).tokens_parsed,
            final(self).token_available == old(self).token_available,
            final(self).simple_key_allowed == old(self).simple_key_allowed,
            final(self).simple_keys@ == old(self).simple_keys@,
            final(self).last_start == old(self).last_start,
            final(self).stack_ok(),
            old(self).marks_behind() && mark_not_after(mark, old(self).mark) ==> final(self).marks_behind(),
            old(self).marks_behind() && old(self).in_order() && mark_not_after(mark, old(self).mark)
                && (number == -1 ==> old(self).all_up_to(mark)) && (number != -1 ==> old(
                self,
            ).fits_at(Self::queue_slot(number, old(self).tokens_parsed), mark))
                ==> final(self).in_order(),
            if old(self).flow_level == 0 && old(self).indent < column {
                &&& final(self).indents@ == old(self).indents@.push(old(self).indent)
                &&& final(self).indent == column
                &&& final(self).tokens@ == Self::queue_with(
                    old(self).tokens@,
                    number,
                    old(self).tokens_parsed,
                    Token { data, start_mark: mark, end_mark: mark },
                )
            } else {
                &&& final(self).indents@ == old(self).indents@
                &&& final(self).indent == old(self).indent
                &&& final(self).tokens@ == old(self).tokens@
            },
    {
        if self.flow_level != 0 {
            return Ok(());
        }
        if self.indent < column as i32 {
            let ghost old_st = self.indents@.push(self.indent);
            self.indents.push(self.indent);
            assert(column <= i32::MAX as i64);
            self.indent = column as i32;
            proof {
                let st = self.indents@.push(self.indent);
                assert(st.drop_last() == old_st);
                assert forall|i: int, j: int| 0 <= i < j < st.len() implies st[i] < st[j] by {
                    if j < st.len() - 1 {
                        assert(st[i] == old_st[i] && st[j] == old_st[j]);
                    } else if i < st.len() - 2 {
                        assert(st[i] == old_st[i]);
                        assert(old_st[i] < old_st[old_st.len() - 1]);
                    }
                }
            }
            let token = Token { data, start_mark: mark, end_mark: mark };
            let ghost before = *self;
            if number == -1_i64 {
                self.tokens.push_back(token);
                proof {
                    if before.marks_behind() && mark_not_after(mark, before.mark) {
                        Self::lemma_marks_push(&before, self, token);
                    }
                }
            } else {
                let slot = (number as usize).wrapping_sub(self.tokens_parsed);
                self.tokens.insert(slot, token);
                proof {
                    if before.marks_behind() && mark_not_after(mark, before.mark) {
                        Self::lemma_marks_insert(&before, self, slot as int, token);
                    }
                }
            }
        }
        Ok(())
    }

    /// A run of BLOCK-END tokens at one position.
    spec fn block_ends(n: nat, mark: Mark) -> Seq<Token> {
        Seq::new(n, |i: int| Token { data: TokenData::BlockEnd, start_mark: mark, end_mark: mark })
    }

    fn unroll_indent(&mut self, column: i64)
        requires
            old(self).stream_start_produced,
            old(self).stack_ok(),
            column >= -1,
        ensures
            (old(self).indent as i64) <= column ==> final(self).tokens@ == old(self).tokens@,
            final(self).input == old(self).input,
            final(self).mark == old(self).mark,
            final(self).stream_start_produced == old(self).stream_start_produced,
            final(self).stream_end_produced == old(self).stream_end_produced,
            final(self).flow_level == old(self).flow_level,
            final(self).tokens_parsed == old(self).tokens_parsed,
            final(self).token_available == old(self).token_available,
            final(self).simple_key_allowed == old(self).simple_key_allowed,
            final(self).simple_keys@ == old(self).simple_keys@,
            final(self).last_start == old(self).last_start,
            final(self).stack_ok(),
            old(self).marks_behind() ==> final(self).marks_behind(),
            old(self).marks_behind() && old(self).in_order() ==> final(self).in_order(),
            old(self).flow_level != 0 ==> final(self).indents@ == old(self).indents@
                && final(self).indent == old(self).indent && final(self).tokens@ == old(
                self,
            ).tokens@,
            old(self).flow_level == 0 ==> {
                let n = (old(self).indents@.len() - final(self).indents@.len()) as nat;
                let old_st = old(self).indents@.push(old(self).indent);
                &&& final(self).indent <= column
                &&& final(self).indents@.len() <= old(self).indents@.len()
                &&& final(self).indents@.push(final(self).indent) == old_st.take(
                    final(self).indents@.len() + 1 as int,
                )
                &&& forall|i: int|
                    final(self).indents@.len() < i < old_st.len() ==> old_st[i] > column
                &&& final(self).tokens@ == old(self).tokens@ + Self::block_ends(n, old(self).mark)
            },
    {
        if self.flow_level != 0 {
            return;
        }
        let ghost old_st = self.indents@.push(self.indent);
        while self.indent as i64 > column
            invariant
                self.flow_level == 0,
                self.stack_ok(),
                self.input == old(self).input,
                self.mark == old(self).mark,
                self.stream_start_produced == old(self).stream_start_produced,
                self.stream_end_produced == old(self).stream_end_produced,
                self.tokens_parsed == old(self).tokens_parsed,
                self.token_available == old(self).token_available,
                self.simple_key_allowed == old(self).simple_key_allowed,
                self.simple_keys@ == old(self).simple_keys@,
                self.last_start == old(self).last_start,
                old_st == old(self).indents@.push(old(self).indent),
                column >= -1,
                self.indents@.len() <= old(self).indents@.len(),
                (old(self).indent as i64) <= column ==> self.indents@.len() == old(self).indents@.len()
                    && self.indent == old(self).indent,
                self.indents@.push(self.indent) == old_st.take(self.indents@.len() + 1 as int),
                forall|i: int| self.indents@.len() < i < old_st.len() ==> old_st[i] > column,
                self.tokens@ == old(self).tokens@ + Self::block_ends(
                    (old(self).indents@.len() - self.indents@.len()) as nat,
                    old(self).mark,
                ),
                old(self).marks_behind() ==> self.marks_behind(),
                old(self).marks_behind() && old(self).in_order() ==> self.in_order(),
            decreases self.indents@.len(),
        {
            let token = Token { data: TokenData::BlockEnd, start_mark: self.mark, end_mark: self.mark };
            let ghost st = self.indents@.push(self.indent);
            let ghost k = self.indents@.len() as int;
            proof {
                if self.indents@.len() == 0 {
                    assert(st[0] == -1);
                }
                assert(st[k] == self.indent);
                assert(old_st[k] == st[k]);
                assert(st[0] < st[k]);
            }
            let ghost before = *self;
            self.tokens.push_back(token);
            proof {
                if before.marks_behind() && before.in_order() {
                    Self::lemma_up_to_position(&before);
                }
                if before.marks_behind() {
                    Self::lemma_marks_push(&before, self, token);
                }
            }
            self.indent = self.indents.pop().unwrap();
            proof {
                let st2 = self.indents@.push(self.indent);
                assert(st2 =~= st.drop_last());
                assert(st2[0] == st[0]);
                assert(self.indent == st[k - 1]);
                assert(st[k - 1] < st[k]);
                assert forall|i: int, j: int| 0 <= i < j < st2.len() implies st2[i] < st2[j] by {
                    assert(st2[i] == st[i] && st2[j] == st[j]);
                }
                assert(st2 =~= old_st.take(self.indents@.len() + 1 as int));
                assert(self.tokens@ =~= old(self).tokens@ + Self::block_ends(
                    (old(self).indents@.len() - self.indents@.len()) as nat,
                    old(self).mark,
                ));
            }
        }
        proof {
            if (old(self).indent as i64) <= column {
                assert(Self::block_ends(0, old(self).mark) =~= Seq::<Token>::empty());
                assert(self.tokens@ =~= old(self).tokens@);
            }
        }
    }

    // -----------------------------------------------------------------------
    // Fetch helpers
    // -----------------------------------------------------------------------

    fn fetch_stream_start(&mut self)
        requires
            old(self).wf(),
            !old(self).stream_start_produced,
        ensures
            final(self).wf(),
            final(self).stream_start_produced,
            final(self).input == old(self).input,
            final(self).mark == old(self).mark,
            final(self).stream_end_produced == old(self).stream_end_produced,
            final(self).tokens_parsed == old(self).tokens_parsed,
            final(self).token_available == old(self).token_available,
            final(self).tokens@ == old(self).tokens@.push(
                Token {
                    data: TokenData::StreamStart { encoding: Encoding::Utf8 },
                    start_mark: old(self).mark,
                    end_mark: old(self).mark,
                },
            ),
            final(self).simple_keys@.len() == 1,
            !final(self).simple_keys@[0].possible,
            final(self).indents@ == old(self).indents@,
            old(self).marks_behind() ==> final(self).marks_behind(),
            old(self).marks_behind() && old(self).in_order() ==> final(self).in_order(),
            final(self).last_start == old(self).last_start,
            final(self).indent == -1,
            final(self).flow_level == 0,
            final(self).simple_key_allowed,
    {
        let simple_key = SimpleKey {
            possible: false,
            required: false,
            token_number: 0,
            mark: Mark { index: 0, line: 0, column: 0 },
        };
        self.indent = -1;
        self.simple_keys.push(simple_key);
        self.simple_key_allowed = true;
        self.stream_start_produced = true;
        let token = Token {
            data: TokenData::StreamStart { encoding: Encoding::Utf8 },
            start_mark: self.mark,
            end_mark: self.mark,
        };
        let ghost before = *self;
        self.tokens.push_back(token);
        proof {
            assert(self.key_ok(self.simple_keys@[0]));
            if before.marks_behind() && before.in_order() {
                Self::lemma_up_to_position(&before);
            }
            if before.marks_behind() {
                Self::lemma_marks_push(&before, self, token);
            }
        }
    }

    /// The scanner has kept its state but may have consumed input and moved on.
    closed spec fn moved_on(&self, old: &Self) -> bool {
        &&& self.wf()
        &&& self.same_state(old)
        &&& self.input.nul_ends_input() == old.input.nul_ends_input()
        &&& self.input.chars().len() <= old.input.chars().len()
        &&& mark_not_after(old.mark, self.mark)
    }

    /// Whether the input is at its end.
    closed spec fn at_end(&self) -> bool {
        crate::input::input_at_end(&self.input)
    }

    /// The `n`-th upcoming character (`\0` past the end).
    closed spec fn ahead(&self, n: int) -> char {
        nth_or_nul(self.input.chars(), n)
    }

    // -----------------------------------------------------------------------
    // Scanning
    // -----------------------------------------------------------------------

    fn scan_to_next_token(&mut self) -> (r: Result<()>)
        requires
            old(self).wf(),
            old(self).stream_start_produced,
        ensures
            r is Ok,
            final(self).wf(),
            final(self).stream_start_produced == old(self).stream_start_produced,
            final(self).stream_end_produced == old(self).stream_end_produced,
            final(self).flow_level == old(self).flow_level,
            final(self).tokens@ == old(self).tokens@,
            final(self).tokens_parsed == old(self).tokens_parsed,
            final(self).token_available == old(self).token_available,
            final(self).indents@ == old(self).indents@,
            final(self).indent == old(self).indent,
            final(self).simple_keys@ == old(self).simple_keys@,
            final(self).last_start == old(self).last_start,
            final(self).simple_key_allowed == old(self).simple_key_allowed || (old(
                self,
            ).flow_level == 0 && final(self).simple_key_allowed),
            final(self).input.nul_ends_input() == old(self).input.nul_ends_input(),
            final(self).input.chars().len() <= old(self).input.chars().len(),
            mark_not_after(old(self).mark, final(self).mark),
            !break_char(final(self).ahead(0)),
            final(self).ahead(0) != ' ' && final(self).ahead(0) != '#',
            final(self).flow_level != 0 || !final(self).simple_key_allowed ==> final(self).ahead(0)
                != '\t',
            suffix_of(final(self).input.chars(), old(self).input.chars()),
            starts_clean(old(self).input.chars()) ==> {
                &&& final(self).input.chars() == old(self).input.chars()
                &&& final(self).mark == old(self).mark
                &&& final(self).simple_key_allowed == old(self).simple_key_allowed
            },
    {
        proof {
            assert(self.input.chars().skip(0) =~= self.input.chars());
        }
        loop
            invariant
                old(self).wf(),
                self.wf(),
                self.stream_start_produced == old(self).stream_start_produced,
                self.stream_end_produced == old(self).stream_end_produced,
                self.flow_level == old(self).flow_level,
                self.tokens@ == old(self).tokens@,
                self.tokens_parsed == old(self).tokens_parsed,
                self.token_available == old(self).token_available,
                self.indents@ == old(self).indents@,
                self.indent == old(self).indent,
                self.simple_keys@ == old(self).simple_keys@,
                self.last_start == old(self).last_start,
                self.simple_key_allowed == old(self).simple_key_allowed || (old(self).flow_level
                    == 0 && self.simple_key_allowed),
                self.input.nul_ends_input() == old(self).input.nul_ends_input(),
                self.input.chars().len() <= old(self).input.chars().len(),
                mark_not_after(old(self).mark, self.mark),
                suffix_of(self.input.chars(), old(self).input.chars()),
                starts_clean(old(self).input.chars()) ==> {
                    &&& self.input.chars() == old(self).input.chars()
                    &&& self.mark == old(self).mark
                    &&& self.simple_key_allowed == old(self).simple_key_allowed
                },
            ensures
                self.wf(),
                self.stream_start_produced == old(self).stream_start_produced,
                self.stream_end_produced == old(self).stream_end_produced,
                self.flow_level == old(self).flow_level,
                self.tokens@ == old(self).tokens@,
                self.tokens_parsed == old(self).tokens_parsed,
                self.token_available == old(self).token_available,
                self.indents@ == old(self).indents@,
                self.indent == old(self).indent,
                self.simple_keys@ == old(self).simple_keys@,
                self.last_start == old(self).last_start,
                self.simple_key_allowed == old(self).simple_key_allowed || (old(self).flow_level
                    == 0 && self.simple_key_allowed),
                self.input.nul_ends_input() == old(self).input.nul_ends_input(),
                self.input.chars().len() <= old(self).input.chars().len(),
                mark_not_after(old(self).mark, self.mark),
                suffix_of(self.input.chars(), old(self).input.chars()),
                starts_clean(old(self).input.chars()) ==> {
                    &&& self.input.chars() == old(self).input.chars()
                    &&& self.mark == old(self).mark
                    &&& self.simple_key_allowed == old(self).simple_key_allowed
                },
                !break_char(self.ahead(0)),
                self.ahead(0) != ' ' && self.ahead(0) != '#',
                self.flow_level != 0 || !self.simple_key_allowed ==> self.ahead(0) != '\t',
            decreases self.input.chars().len(),
        {
            let ghost start_len = self.input.chars().len();
            self.input.lookahead(1);
            if self.mark.column == 0 && self.input.next_is_bom() {
                let ghost b = self.input.chars();
                self.skip_char();
                proof {
                    lemma_suffix_drop(old(self).input.chars(), b);
                }
            }
            self.input.lookahead(1);
            while self.input.next_char_is(' ') || (self.flow_level != 0 || !self.simple_key_allowed)
                && self.input.next_char_is('\t')
                invariant
                    old(self).wf(),
                    self.wf(),
                    self.stream_start_produced == old(self).stream_start_produced,
                    self.stream_end_produced == old(self).stream_end_produced,
                    self.flow_level == old(self).flow_level,
                    self.tokens@ == old(self).tokens@,
                    self.tokens_parsed == old(self).tokens_parsed,
                    self.token_available == old(self).token_available,
                    self.indents@ == old(self).indents@,
                    self.indent == old(self).indent,
                    self.simple_keys@ == old(self).simple_keys@,
                    self.last_start == old(self).last_start,
                    self.simple_key_allowed == old(self).simple_key_allowed || (old(
                        self,
                    ).flow_level == 0 && self.simple_key_allowed),
                    self.input.nul_ends_input() == old(self).input.nul_ends_input(),
                    self.input.chars().len() <= start_len,
                    start_len <= old(self).input.chars().len(),
                    mark_not_after(old(self).mark, self.mark),
                suffix_of(self.input.chars(), old(self).input.chars()),
                starts_clean(old(self).input.chars()) ==> {
                    &&& self.input.chars() == old(self).input.chars()
                    &&& self.mark == old(self).mark
                    &&& self.simple_key_allowed == old(self).simple_key_allowed
                },
                decreases self.input.chars().len(),
            {
                let ghost b = self.input.chars();
                self.skip_char();
                proof {
                    lemma_suffix_drop(old(self).input.chars(), b);
                }
                self.input.lookahead(1);
            }
            if self.input.next_char_is('#') {
                while !self.input.next_is_breakz()
                    invariant
                        old(self).wf(),
                        self.wf(),
                        self.stream_start_produced == old(self).stream_start_produced,
                        self.stream_end_produced == old(self).stream_end_produced,
                        self.flow_level == old(self).flow_level,
                        self.tokens@ == old(self).tokens@,
                        self.tokens_parsed == old(self).tokens_parsed,
                        self.token_available == old(self).token_available,
                        self.indents@ == old(self).indents@,
                        self.indent == old(self).indent,
                        self.simple_keys@ == old(self).simple_keys@,
                        self.last_start == old(self).last_start,
                        self.simple_key_allowed == old(self).simple_key_allowed || (old(
                            self,
                        ).flow_level == 0 && self.simple_key_allowed),
                        self.input.nul_ends_input() == old(self).input.nul_ends_input(),
                        self.input.chars().len() <= start_len,
                        start_len <= old(self).input.chars().len(),
                        mark_not_after(old(self).mark, self.mark),
                suffix_of(self.input.chars(), old(self).input.chars()),
                !starts_clean(old(self).input.chars()),
                    decreases self.input.chars().len(),
                {
                    let ghost b = self.input.chars();
                    self.skip_char();
                    proof {
                        lemma_suffix_drop(old(self).input.chars(), b);
                    }
                    self.input.lookahead(1);
                }
            }
            if !self.input.next_is_break() {
                break;
            }
            self.input.lookahead(2);
            let ghost b = self.input.chars();
            self.skip_line_break();
            proof {
                let c = self.input.chars();
                if c == b.drop_first() {
                    lemma_suffix_drop(old(self).input.chars(), b);
                } else if c == b.skip(2) {
                    assert(c =~= b.skip(b.len() - c.len()));
                    lemma_suffix_trans(old(self).input.chars(), b, c);
                }
            }
            if self.flow_level == 0 {
                self.simple_key_allowed = true;
            }
        }
        Ok(())
    }

    /// The characters consumed between two states of the input.
    closed spec fn consumed_since(&self, old: &Self) -> Seq<char> {
        old.input.chars().take(old.input.chars().len() - self.input.chars().len())
    }

    fn scan_directive_name(&mut self, start_mark: Mark) -> (r: Result<String>)
        requires
            old(self).wf(),
        ensures
            final(self).moved_on(old(self)),
            r matches Ok(s) ==> {
                &&& s@.len() > 0
                &&& s@ == old(self).input.chars().take(s@.len() as int)
                &&& final(self).input.chars() == old(self).input.chars().skip(s@.len() as int)
                &&& forall|i: int| 0 <= i < s@.len() ==> alpha_char(#[trigger] s@[i])
                &&& s@.len() == alpha_run(old(self).input.chars())
            },
            r is Ok <==> directive_name_ok(old(self).input.chars(), old(self).input.nul_ends_input()),
    {
        let mut string = String::new();
        self.input.lookahead(1);
        let ghost s0 = self.input.chars();
        while self.input.next_is_alpha()
            invariant
                old(self).wf(),
                self.moved_on(old(self)),
                s0 == old(self).input.chars(),
                string@.len() <= s0.len(),
                string@ == s0.take(string@.len() as int),
                self.input.chars() == s0.skip(string@.len() as int),
                forall|i: int| 0 <= i < string@.len() ==> alpha_char(#[trigger] string@[i]),
            decreases self.input.chars().len(),
        {
            let ghost before = string@;
            self.read_char(&mut string);
            proof {
                assert(s0.skip(before.len() as int).drop_first() =~= s0.skip(string@.len() as int));
                assert(string@ =~= s0.take(string@.len() as int));
            }
            self.input.lookahead(1);
        }
        proof {
            if string@.len() < s0.len() {
                assert(s0[string@.len() as int] == self.input.chars()[0]);
            }
            assert forall|i: int| 0 <= i < string@.len() implies alpha_char(#[trigger] s0[i]) by {
                assert(s0[i] == string@[i]);
            }
            lemma_run_len(s0, |c: char| alpha_char(c), string@.len() as int);
            assert(self.input.chars() == s0.skip(alpha_run(s0)));
            assert(self.input.nul_ends_input() == old(self).input.nul_ends_input());
        }
        if string.is_empty() {
            self.set_scanner_error(
                "while scanning a directive",
                start_mark,
                "could not find expected directive name",
            )
        } else if !self.input.next_is_blank_or_breakz() {
            self.set_scanner_error(
                "while scanning a directive",
                start_mark,
                "found unexpected non-alphabetical character",
            )
        } else {
            Ok(string)
        }
    }

    #[verifier::rlimit(40)]
    fn scan_version_directive_value(
        &mut self,
        start_mark: Mark,
        major: &mut i32,
        minor: &mut i32,
    ) -> (r: Result<()>)
        requires
            old(self).wf(),
        ensures
            final(self).moved_on(old(self)),
            r is Ok ==> 0 <= *final(major) < 1_000_000_000 && 0 <= *final(minor) < 1_000_000_000,
            r is Ok <==> version_value_ok(old(self).input.chars()),
            r is Ok ==> ({
                let s = old(self).input.chars();
                &&& *final(major) == version_major(s)
                &&& *final(minor) == version_minor(s)
                &&& version_value_len(s) <= s.len()
                &&& final(self).input.chars() == s.skip(version_value_len(s))
            }),
    {
        self.input.lookahead(1);
        let ghost s = self.input.chars();
        let ghost mut i: int = 0;
        while self.input.next_is_blank()
            invariant
                old(self).wf(),
                self.moved_on(old(self)),
                s == old(self).input.chars(),
                0 <= i <= s.len(),
                self.input.chars() == s.skip(i),
                forall|j: int| 0 <= j < i ==> blank_char(#[trigger] s[j]),
            decreases self.input.chars().len(),
        {
            proof {
                assert(s[i] == self.input.chars()[0]);
                assert(s.skip(i).drop_first() =~= s.skip(i + 1));
            }
            self.skip_char();
            proof {
                i = i + 1;
            }
            self.input.lookahead(1);
        }
        proof {
            lemma_run_len(s, |c: char| blank_char(c), i);
        }
        let ghost s1 = self.input.chars();
        self.scan_version_directive_number(start_mark, major)?;
        let ghost m = digit_run(s1);
        proof {
            assert(s1.skip(m) =~= s.skip(i + m));
            assert(s1.take(m) =~= s.subrange(i, i + m));
        }
        if !self.input.next_char_is('.') {
            return self.set_scanner_error(
                "while scanning a %YAML directive",
                start_mark,
                "did not find expected digit or '.' character",
            );
        }
        self.skip_char();
        proof {
            assert(s.skip(i + m).drop_first() =~= s.skip(i + m + 1));
        }
        let ghost s2 = self.input.chars();
        let r = self.scan_version_directive_number(start_mark, minor);
        proof {
            if r is Ok {
                let k = digit_run(s2);
                assert(s2.skip(k) =~= s.skip(i + m + 1 + k));
                assert(s2.take(k) =~= s.subrange(i + m + 1, i + m + 1 + k));
            }
        }
        r
    }

    fn scan_version_directive_number(&mut self, start_mark: Mark, number: &mut i32) -> (r: Result<
        (),
    >)
        requires
            old(self).wf(),
        ensures
            final(self).moved_on(old(self)),
            r is Ok ==> {
                let digits = final(self).consumed_since(old(self));
                &&& 0 < digits.len() <= MAX_NUMBER_LENGTH
                &&& forall|i: int| 0 <= i < digits.len() ==> digit_char(#[trigger] digits[i])
                &&& *final(number) == decimal_value(digits)
                &&& 0 <= *final(number) < 1_000_000_000
                &&& final(self).input.chars() == old(self).input.chars().skip(digits.len() as int)
                &&& !digit_char(final(self).ahead(0))
            },
            r is Err ==> *final(number) == *old(number),
            r is Ok <==> 0 < digit_run(old(self).input.chars()) <= MAX_NUMBER_LENGTH,
            r is Ok ==> final(self).consumed_since(old(self)).len() == digit_run(
                old(self).input.chars(),
            ),
            r matches Err(e) ==> e == Error::scanner_spec(
                "while scanning a %YAML directive",
                start_mark,
                if digit_run(old(self).input.chars()) == 0 {
                    "did not find expected version number"
                } else {
                    "found extremely long version number"
                },
                final(self).mark,
            ),
    {
        let mut value: i32 = 0;
        let mut length: u64 = 0;
        self.input.lookahead(1);
        let ghost s0 = self.input.chars();
        proof {
            lemma_run_bound(s0, |c: char| digit_char(c));
        }
        while self.input.next_is_digit()
            invariant
                old(self).wf(),
                self.moved_on(old(self)),
                s0 == old(self).input.chars(),
                length <= MAX_NUMBER_LENGTH,
                length <= s0.len(),
                self.input.chars() == s0.skip(length as int),
                forall|i: int| 0 <= i < length ==> digit_char(#[trigger] s0[i]),
                value == decimal_value(s0.take(length as int)),
                0 <= value < pow10(length as nat),
                *number == *old(number),
                length <= digit_run(s0),
            decreases self.input.chars().len(),
        {
            proof {
                lemma_run_len(s0, |c: char| digit_char(c), length as int);
                assert(s0[length as int] == self.input.chars()[0]);
                lemma_run_len(s0, |c: char| digit_char(c), length + 1);
            }
            length += 1;
            if length > MAX_NUMBER_LENGTH {
                return self.set_scanner_error(
                    "while scanning a %YAML directive",
                    start_mark,
                    "found extremely long version number",
                );
            }
            let d = decimal_digit(self.input.peek());
            proof {
                lemma_pow10_bound(length as nat);
                lemma_pow10_positive((length - 1) as nat);
                assert(s0.take(length as int).drop_last() =~= s0.take(length - 1));
                assert(s0[length - 1] == self.input.chars()[0]);
            }
            value = (value * 10) + d as i32;
            self.skip_char();
            proof {
                assert(s0.skip(length - 1).drop_first() =~= s0.skip(length as int));
            }
            self.input.lookahead(1);
        }
        proof {
            lemma_run_len(s0, |c: char| digit_char(c), length as int);
        }
        if length == 0 {
            return self.set_scanner_error(
                "while scanning a %YAML directive",
                start_mark,
                "did not find expected version number",
            );
        }
        *number = value;
        proof {
            lemma_pow10_bound(length as nat);
            assert(self.consumed_since(old(self)) =~= s0.take(length as int));
        }
        Ok(())
    }

    // Returns (handle, prefix)
    #[verifier::rlimit(60)]
    fn scan_tag_directive_value(&mut self, start_mark: Mark) -> (r: Result<(String, String)>)
        requires
            old(self).wf(),
        ensures
            final(self).moved_on(old(self)),
            r matches Ok((handle, prefix)) ==> ({
                let s = old(self).input.chars();
                &&& tag_value_of(handle@, prefix@, s, old(self).input.nul_ends_input())
                &&& final(self).input.chars() == s.skip(tag_value_end(s, handle@.len() as int))
                &&& handle@.len() == directive_handle_len(s.skip(blank_run(s)))
            }),
            r is Ok <==> tag_value_ok(old(self).input.chars(), old(self).input.nul_ends_input()),
    {
        self.input.lookahead(1);
        let ghost s = self.input.chars();
        let ghost mut i: int = 0;

        loop
            invariant
                old(self).wf(),
                self.moved_on(old(self)),
                s == old(self).input.chars(),
                0 <= i <= s.len(),
                self.input.chars() == s.skip(i),
                forall|j: int| 0 <= j < i ==> blank_char(#[trigger] s[j]),
            decreases self.input.chars().len(),
        {
            if self.input.next_is_blank() {
                proof {
                    assert(s[i] == self.input.chars()[0]);
                    assert(s.skip(i).drop_first() =~= s.skip(i + 1));
                }
                self.skip_char();
                proof {
                    i = i + 1;
                }
                self.input.lookahead(1);
            } else {
                proof {
                    if i < s.len() {
                        assert(s[i] == self.input.chars()[0]);
                    }
                    lemma_run_len(s, |c: char| blank_char(c), i);
                }
                let ghost s1 = self.input.chars();
                let handled = self.scan_tag_handle(true, start_mark);
                proof {
                    assert(s1 == s.skip(blank_run(s)));
                }
                let handle_value = handled?;
                let ghost h = handle_value@.len() as int;
                proof {
                    assert(s1.skip(h) =~= s.skip(i + h));
                }

                self.input.lookahead(1);

                if !self.input.next_is_blank() {
                    proof {
                        assert(blank_run(s.skip(i + h)) == 0);
                    }
                    return self.set_scanner_error(
                        "while scanning a %TAG directive",
                        start_mark,
                        "did not find expected whitespace",
                    );
                }
                let ghost s2 = self.input.chars();
                let ghost mut j: int = 0;
                while self.input.next_is_blank()
                    invariant
                        old(self).wf(),
                        self.moved_on(old(self)),
                        0 <= j <= s2.len(),
                        self.input.chars() == s2.skip(j),
                        forall|k: int| 0 <= k < j ==> blank_char(#[trigger] s2[k]),
                    decreases self.input.chars().len(),
                {
                    proof {
                        assert(s2[j] == self.input.chars()[0]);
                        assert(s2.skip(j).drop_first() =~= s2.skip(j + 1));
                    }
                    self.skip_char();
                    proof {
                        j = j + 1;
                    }
                    self.input.lookahead(1);
                }
                proof {
                    if j < s2.len() {
                        assert(s2[j] == self.input.chars()[0]);
                    }
                    lemma_run_len(s2, |c: char| blank_char(c), j);
                    assert(s2.skip(j) =~= s.skip(i + h + j));
                    assert(j > 0);
                    assert(tag_prefix_start(s, h) == i + h + j);
                    if i + h + j < s.len() {
                        assert(s[i + h + j] == s2.skip(j)[0]);
                    }
                }

                let ghost s3 = self.input.chars();
                let scanned = self.scan_tag_uri(true, true, None, start_mark);
                proof {
                    assert(uri_head_len(None) == 0);
                }
                let prefix_value = scanned?;
                proof {
                    let m = s3.len() - self.input.chars().len();
                    let c = i + h + j;
                    assert(s3.take(m) =~= s.subrange(c, c + m));
                    lemma_uri_aligned_chars(s3.take(m), true);
                    assert forall|k: int| 0 <= k < m implies tag_uri_char(#[trigger] s3[k], true) by {
                        assert(s3[k] == s3.take(m)[k]);
                    }
                    if m < s3.len() {
                        assert(s3[m] == self.input.chars()[0]);
                    }
                    lemma_run_len(s3, |c: char| tag_uri_char(c, true), m);
                    assert(s3.skip(m) =~= s.skip(c + m));
                    assert(tag_value_end(s, h) == c + m);
                }
                self.input.lookahead(1);

                if !self.input.next_is_blank_or_breakz() {
                    return self.set_scanner_error(
                        "while scanning a %TAG directive",
                        start_mark,
                        "did not find expected whitespace or line break",
                    );
                }
                return Ok((handle_value, prefix_value));
            }
        }
    }

    fn scan_tag_handle(&mut self, directive: bool, start_mark: Mark) -> (r: Result<String>)
        requires
            old(self).wf() || (old(self).wf_loose() && old(self).ahead(0) == '!'),
        ensures
            final(self).moved_on(old(self)),
            r is Err ==> final(self).input.chars().len() < old(self).input.chars().len() || nth_or_nul(old(self).input.chars(), 0) != '!',
            r matches Ok(s) ==> {
                &&& s@.len() > 0
                &&& s@.len() <= old(self).input.chars().len()
                &&& s@[0] == '!'
                &&& s@ == old(self).input.chars().take(s@.len() as int)
                &&& final(self).input.chars() == old(self).input.chars().skip(s@.len() as int)
                &&& is_tag_handle_of(s@, old(self).input.chars())
            },
            nth_or_nul(old(self).input.chars(), 0) == '!' && !directive ==> r is Ok,
            directive ==> (r matches Ok(s) ==> s@.len() == 1 || s@.last() == '!'),
            directive ==> (r is Ok <==> directive_handle_ok(old(self).input.chars())),
            directive ==> (r matches Ok(s) ==> s@.len() == directive_handle_len(
                old(self).input.chars(),
            )),
    {
        let mut string = String::new();
        self.input.lookahead(1);

        if !self.input.next_char_is('!') {
            return self.set_scanner_error(
                if directive {
                    "while scanning a tag directive"
                } else {
                    "while scanning a tag"
                },
                start_mark,
                "did not find expected '!'",
            );
        }
        let ghost s0 = self.input.chars();
        self.read_char(&mut string);
        proof {
            assert(string@ =~= s0.take(1));
        }
        self.input.lookahead(1);
        loop
            invariant
                self.moved_on(old(self)),
                s0 == old(self).input.chars(),
                1 <= string@.len() <= s0.len(),
                string@ == s0.take(string@.len() as int),
                self.input.chars() == s0.skip(string@.len() as int),
                string@[0] == '!',
                forall|i: int| 1 <= i < string@.len() ==> alpha_char(#[trigger] s0[i]),
            ensures
                self.moved_on(old(self)),
                1 <= string@.len() <= s0.len(),
                string@ == s0.take(string@.len() as int),
                self.input.chars() == s0.skip(string@.len() as int),
                string@[0] == '!',
                forall|i: int| 1 <= i < string@.len() ==> alpha_char(#[trigger] s0[i]),
                !alpha_char(nth_or_nul(self.input.chars(), 0)),
            decreases self.input.chars().len(),
        {
            if !self.input.next_is_alpha() {
                break;
            }
            let ghost before = string@;
            self.read_char(&mut string);
            proof {
                assert(s0.skip(before.len() as int).drop_first() =~= s0.skip(string@.len() as int));
                assert(string@ =~= s0.take(string@.len() as int));
            }
            self.input.lookahead(1);
        }
        proof {
            assert(nth_or_nul(s0, string@.len() as int) == nth_or_nul(self.input.chars(), 0));
            reveal_strlit("!");
            if string@.len() > 1 {
                assert(string@[string@.len() - 1] == s0[string@.len() - 1]);
            }
        }
        let ghost run_end = string@.len() as int;
        proof {
            assert(!alpha_char(nth_or_nul(s0, run_end)));
            let t = s0.skip(1);
            assert forall|i: int| 0 <= i < run_end - 1 implies alpha_char(#[trigger] t[i]) by {
                assert(t[i] == s0[i + 1]);
            }
            if run_end - 1 < t.len() {
                assert(t[run_end - 1] == s0[run_end]);
            }
            lemma_run_len(t, |c: char| alpha_char(c), run_end - 1);
            assert(alpha_run(t) == run_end - 1);
        }
        if self.input.next_char_is('!') {
            let ghost before = string@;
            self.read_char(&mut string);
            proof {
                assert(s0.skip(before.len() as int).drop_first() =~= s0.skip(string@.len() as int));
                assert(string@ =~= s0.take(string@.len() as int));
                assert(string@[string@.len() - 1] == '!');
                if before.len() > 1 {
                    assert(before[before.len() - 1] != '!');
                }
            }
        } else if directive && !str_eq(string.as_str(), "!") {
            proof {
                reveal_strlit("!");
                if string@.len() == 1 {
                    assert(string@ =~= "!"@);
                }
            }
            return self.set_scanner_error(
                "while parsing a tag directive",
                start_mark,
                "did not find expected '!'",
            );
        }
        proof {
            let h = string@;
            let n = h.len() as int;
            assert(h[n - 1] == s0[n - 1]);
            let j = if n > 1 && h[n - 1] == '!' {
                n - 1
            } else {
                n
            };
            assert(j == run_end);
            assert(forall|i: int| 1 <= i < j ==> alpha_char(#[trigger] s0[i]));
            assert(!alpha_char(nth_or_nul(s0, j)));
            assert((nth_or_nul(s0, j) == '!') == (j < n));
            assert(is_tag_handle_of(h, s0));
        }
        Ok(string)
    }

    #[verifier::rlimit(60)]
    fn scan_tag_uri(
        &mut self,
        uri_char: bool,
        directive: bool,
        head: Option<&str>,
        start_mark: Mark,
    ) -> (r: Result<String>)
        requires
            old(self).wf(),
        ensures
            final(self).moved_on(old(self)),
            r is Ok ==> ({
                let s = old(self).input.chars();
                let n = s.len() - final(self).input.chars().len();
                &&& final(self).input.chars() == s.skip(n)
                &&& uri_aligned(s.take(n), uri_char)
                &&& !tag_uri_char(final(self).ahead(0), uri_char)
                &&& uri_head_len(head) > 0 || n > 0
            }),
            r matches Ok(v) ==> v@ == uri_head_rest(head) + uri_decoded(
                old(self).input.chars().take(
                    old(self).input.chars().len() - final(self).input.chars().len(),
                ),
            ),
            uri_head_len(head) == 0 && !tag_uri_char(old(self).ahead(0), uri_char) ==> r is Err,
            r is Ok <==> uri_scan_ok(old(self).input.chars(), uri_char) && (uri_head_len(head) > 0
                || tag_uri_char(old(self).ahead(0), uri_char)),
    {
        let ghost head_arg = head;
        proof {
            reveal_strlit("");
        }
        let head = head.unwrap_or("");
        let mut length = head.len();
        let mut string = String::new();

        if length > 1 {
            string = crate::input::text::str_rest(head).to_owned();
        }
        self.input.lookahead(1);
        let ghost s = self.input.chars();
        let ghost mut n: int = 0;
        proof {
            broadcast use vstd::string::group_string_axioms;

            assert(encode_utf8(Seq::<char>::empty()) =~= Seq::<u8>::empty());
            if head_arg is None {
                assert(""@ =~= Seq::<char>::empty());
            }
            assert(uri_head_len(head_arg) == length);
            assert(uri_decoded(Seq::<char>::empty()) == Seq::<char>::empty());
            assert(string@ == uri_head_rest(head_arg));
            assert(s.take(0) =~= Seq::<char>::empty());
            assert(s.skip(0) =~= s);
            assert(uri_head_rest(head_arg) + uri_decoded(s.take(0)) =~= uri_head_rest(head_arg));
        }

        while self.input.next_is_alpha() || self.input.next_char_is(';')
            || self.input.next_char_is('/') || self.input.next_char_is('?')
            || self.input.next_char_is(':') || self.input.next_char_is('@')
            || self.input.next_char_is('&') || self.input.next_char_is('=')
            || self.input.next_char_is('+') || self.input.next_char_is('$')
            || self.input.next_char_is('.') || self.input.next_char_is('%')
            || self.input.next_char_is('!') || self.input.next_char_is('~')
            || self.input.next_char_is('*') || self.input.next_char_is('\'')
            || self.input.next_char_is('(') || self.input.next_char_is(')') || uri_char && (
        self.input.next_char_is(',') || self.input.next_char_is('[') || self.input.next_char_is(
            ']',
        ))
            invariant
                old(self).wf(),
                self.moved_on(old(self)),
                s == old(self).input.chars(),
                0 <= n <= s.len(),
                self.input.chars() == s.skip(n),
                uri_aligned(s.take(n), uri_char),
                string@ == uri_head_rest(head_arg) + uri_decoded(s.take(n)),
                (length > 0) == (uri_head_len(head_arg) > 0 || n > 0),
                uri_scan_ok(s, uri_char) == uri_scan_ok(s.skip(n), uri_char),
                n > 0 ==> tag_uri_char(nth_or_nul(s, 0), uri_char),
            decreases self.input.chars().len(),
        {
            let ghost rem = self.input.chars();
            proof {
                if n == 0 {
                    assert(rem == s);
                }
            }
            if self.input.next_char_is('%') {
                let escaped = self.scan_uri_escapes(directive, start_mark, &mut string);
                proof {
                    if escaped is Err {
                        assert(!uri_scan_ok(rem, uri_char));
                    }
                }
                escaped?;
                proof {
                    lemma_uri_group(rem, uri_char);
                    assert(uri_scan_ok(rem, uri_char) == uri_scan_ok(rem.skip(escape_group_len(rem)), uri_char));
                    let g = escape_group_len(rem);
                    lemma_uri_append(s.take(n), rem.take(g), uri_char);
                    assert(s.take(n) + rem.take(g) =~= s.take(n + g));
                    assert(rem.skip(g) =~= s.skip(n + g));
                    assert(string@ =~= uri_head_rest(head_arg) + uri_decoded(s.take(n + g)));
                    n = n + g;
                }
            } else {
                self.read_char(&mut string);
                proof {
                    let c = rem[0];
                    assert(uri_scan_ok(rem, uri_char) == uri_scan_ok(rem.drop_first(), uri_char));
                    lemma_uri_single(c, uri_char);
                    lemma_uri_append(s.take(n), seq![c], uri_char);
                    assert(s.take(n) + seq![c] =~= s.take(n + 1));
                    assert(rem.drop_first() =~= s.skip(n + 1));
                    assert(string@ =~= uri_head_rest(head_arg) + uri_decoded(s.take(n + 1)));
                    n = n + 1;
                }
            }
            // The count only tells whether anything was read.
            length = length.saturating_add(1);
            self.input.lookahead(1);
        }
        proof {
            assert(uri_scan_ok(self.input.chars(), uri_char));
            if n == 0 {
                assert(self.input.chars() == s);
            }
        }
        if length == 0 {
            self.set_scanner_error(
                if directive {
                    "while parsing a %TAG directive"
                } else {
                    "while parsing a tag"
                },
                start_mark,
                "did not find expected tag URI",
            )
        } else {
            Ok(string)
        }
    }

    fn scan_uri_escapes(&mut self, directive: bool, start_mark: Mark, string: &mut String) -> (r:
        Result<()>)
        requires
            old(self).wf(),
            old(self).ahead(0) == '%',
        ensures
            final(self).moved_on(old(self)),
            r is Ok ==> final(self).input.chars().len() < old(self).input.chars().len(),
            r is Ok <==> escape_group_ok(old(self).input.chars()),
            r is Ok ==> {
                let s = old(self).input.chars();
                let w = utf8_lead_width(escaped_octet(s, 0));
                &&& final(self).input.chars() == s.skip(3 * w)
                &&& final(string)@ == old(string)@ + escape_group_chars(s, w)
            },
    {
        let mut width: i32 = 0;
        let ghost s = self.input.chars();
        let ghost mut done: int = 0;
        loop
            invariant_except_break
                width == 0 ==> done == 0,
            invariant
                old(self).wf(),
                self.moved_on(old(self)),
                s == old(self).input.chars(),
                0 <= width <= 4,
                width != 0 ==> self.input.chars().len() < old(self).input.chars().len(),
                0 <= done <= 4,
                3 * done <= s.len(),
                self.input.chars() == s.skip(3 * done),
                string@ == old(string)@ + escape_group_chars(s, done),
                forall|k: int| 0 <= k < done ==> escape_at(s, k),
                done == 0 ==> width == 0,
                done > 0 ==> {
                    let w = utf8_lead_width(escaped_octet(s, 0));
                    &&& w != 0
                    &&& width == w - done
                    &&& forall|k: int|
                        1 <= k < done ==> #[trigger] escaped_octet(s, k) & 0xC0 == 0x80
                },
            ensures
                self.moved_on(old(self)),
                self.input.chars().len() < old(self).input.chars().len(),
                escape_group_ok(s),
                self.input.chars() == s.skip(3 * utf8_lead_width(escaped_octet(s, 0))),
                string@ == old(string)@ + escape_group_chars(
                    s,
                    utf8_lead_width(escaped_octet(s, 0)),
                ),
            decreases self.input.chars().len(),
        {
            self.input.lookahead(3);
            proof {
                assert(nth_or_nul(self.input.chars(), 0) == nth_or_nul(s, 3 * done));
                assert(nth_or_nul(self.input.chars(), 1) == nth_or_nul(s, 3 * done + 1));
                assert(nth_or_nul(self.input.chars(), 2) == nth_or_nul(s, 3 * done + 2));
            }
            if !(self.input.next_char_is('%') && is_hex(self.input.peek_nth(1)) && is_hex(
                self.input.peek_nth(2),
            )) {
                proof {
                    assert(!escape_at(s, done));
                }
                return self.set_scanner_error(
                    if directive {
                        "while parsing a %TAG directive"
                    } else {
                        "while parsing a tag"
                    },
                    start_mark,
                    "did not find URI escaped octet",
                );
            }
            let hi = as_hex(self.input.peek_nth(1));
            let lo = as_hex(self.input.peek_nth(2));
            assert((hi << 4) + lo < 256 && (hi << 4) == hi * 16) by (bit_vector)
                requires
                    hi < 16 && lo < 16,
            ;
            let octet = ((hi << 4) + lo) as u8;
            assert(octet == escaped_octet(s, done));
            if width == 0 {
                width = if octet & 0x80 == 0 {
                    1
                } else if octet & 0xE0 == 0xC0 {
                    2
                } else if octet & 0xF0 == 0xE0 {
                    3
                } else if octet & 0xF8 == 0xF0 {
                    4
                } else {
                    0
                };
                if width == 0 {
                    return self.set_scanner_error(
                        if directive {
                            "while parsing a %TAG directive"
                        } else {
                            "while parsing a tag"
                        },
                        start_mark,
                        "found an incorrect leading UTF-8 octet",
                    );
                }
            } else if octet & 0xC0 != 0x80 {
                proof {
                    assert(escape_at(s, done));
                }
                return self.set_scanner_error(
                    if directive {
                        "while parsing a %TAG directive"
                    } else {
                        "while parsing a tag"
                    },
                    start_mark,
                    "found an incorrect trailing UTF-8 octet",
                );
            }
            let c = core::char::from_u32(octet as u32).expect("invalid Unicode");
            proof {
                vstd::utf8::char_u32_cast(c, octet as u32);
            }
            string.push(c);
            let ghost pre = self.input.chars();
            self.skip_char();
            self.skip_char();
            self.skip_char();
            proof {
                assert(pre.drop_first().drop_first().drop_first() =~= pre.skip(3));
                assert(s.skip(3 * done).skip(3) =~= s.skip(3 * (done + 1)));
                assert(escape_group_chars(s, done + 1) =~= escape_group_chars(s, done).push(
                    escaped_octet(s, done) as char,
                ));
                assert(string@ =~= old(string)@ + escape_group_chars(s, done + 1));
                done = done + 1;
            }
            width -= 1;
            if width == 0 {
                break;
            }
        }
        Ok(())
    }

    #[verifier::rlimit(60)]
    fn scan_directive(&mut self) -> (r: Result<Token>)
        requires
            old(self).wf(),
            old(self).ahead(0) == '%',
        ensures
            final(self).moved_on(old(self)),
            final(self).input.chars().len() < old(self).input.chars().len(),
            r matches Ok(t) ==> t.start_mark == old(self).mark && (t.data is VersionDirective
                || t.data is TagDirective),
            r matches Ok(t) ==> token_within(t, final(self).mark),
            r is Ok <==> directive_ok(
                old(self).input.chars().skip(1),
                old(self).input.nul_ends_input(),
            ),
            ({
                let nul = old(self).input.nul_ends_input();
                let text = old(self).input.chars().skip(1);
                let name = text.take(alpha_run(text));
                let v = text.skip(alpha_run(text));
                &&& !directive_name_ok(text, nul) ==> r is Err
                &&& name != seq!['Y', 'A', 'M', 'L'] && name != seq!['T', 'A', 'G'] ==> r is Err
                &&& directive_name_ok(text, nul) && name != seq!['Y', 'A', 'M', 'L'] && name
                    != seq!['T', 'A', 'G'] ==> r == Err::<Token, Error>(
                    Error::scanner_spec(
                        "while scanning a directive",
                        old(self).mark,
                        "found unknown directive name",
                        final(self).mark,
                    ),
                )
                &&& directive_name_ok(text, nul) && name == seq!['Y', 'A', 'M', 'L'] ==> (r is Ok
                    <==> version_value_ok(v) && directive_line_ends(
                    v.skip(version_value_len(v)),
                    nul,
                ))
                &&& r matches Ok(t) ==> (t.data is VersionDirective <==> name == seq![
                    'Y',
                    'A',
                    'M',
                    'L',
                ])
                &&& r matches Ok(t) ==> (t.data is VersionDirective ==> t.data->major
                    == version_major(v) && t.data->minor == version_minor(v))
                &&& r matches Ok(t) ==> (t.data is TagDirective ==> {
                    &&& name == seq!['T', 'A', 'G']
                    &&& tag_value_of(t.data->TagDirective_handle@, t.data->TagDirective_prefix@, v, nul)
                    &&& directive_line_ends(
                        v.skip(tag_value_end(v, t.data->TagDirective_handle@.len() as int)),
                        nul,
                    )
                })
            }),
    {
        let end_mark: Mark;
        let mut major: i32 = 0;
        let mut minor: i32 = 0;
        let start_mark: Mark = self.mark;
        let ghost s = self.input.chars();
        let ghost nul = self.input.nul_ends_input();
        self.skip_char();
        proof {
            assert(s.drop_first() =~= s.skip(1));
        }
        let ghost text = self.input.chars();
        let name = self.scan_directive_name(start_mark)?;
        let ghost v = self.input.chars();
        proof {
            reveal_strlit("YAML");
            reveal_strlit("TAG");
            assert("YAML"@ =~= seq!['Y', 'A', 'M', 'L']);
            assert("TAG"@ =~= seq!['T', 'A', 'G']);
        }
        let token = if str_eq(name.as_str(), "YAML") {
            self.scan_version_directive_value(start_mark, &mut major, &mut minor)?;

            end_mark = self.mark;
            Token { data: TokenData::VersionDirective { major, minor }, start_mark, end_mark }
        } else if str_eq(name.as_str(), "TAG") {
            let (handle, prefix) = self.scan_tag_directive_value(start_mark)?;
            end_mark = self.mark;
            Token { data: TokenData::TagDirective { handle, prefix }, start_mark, end_mark }
        } else {
            return self.set_scanner_error(
                "while scanning a directive",
                start_mark,
                "found unknown directive name",
            );
        };
        self.input.lookahead(1);
        let ghost w = self.input.chars();
        let ghost mut i: int = 0;
        while self.input.next_is_blank()
            invariant
                old(self).wf(),
                self.moved_on(old(self)),
                self.input.chars().len() < old(self).input.chars().len(),
                token.start_mark == old(self).mark,
                token_within(token, self.mark),
                0 <= i <= w.len(),
                self.input.chars() == w.skip(i),
                forall|j: int| 0 <= j < i ==> blank_char(#[trigger] w[j]),
            decreases self.input.chars().len(),
        {
            proof {
                assert(w[i] == self.input.chars()[0]);
                assert(w.skip(i).drop_first() =~= w.skip(i + 1));
            }
            self.skip_char();
            proof {
                i = i + 1;
            }
            self.input.lookahead(1);
        }
        proof {
            if i < w.len() {
                assert(w[i] == self.input.chars()[0]);
            }
            lemma_run_len(w, |c: char| blank_char(c), i);
        }

        if self.input.next_char_is('#') {
            while !self.input.next_is_breakz()
                invariant
                    old(self).wf(),
                    self.moved_on(old(self)),
                    self.input.chars().len() < old(self).input.chars().len(),
                    token.start_mark == old(self).mark,
                    token_within(token, self.mark),
                decreases self.input.chars().len(),
            {
                self.skip_char();
                self.input.lookahead(1);
            }
        }

        if self.input.next_is_breakz() {
            if self.input.next_is_break() {
                self.input.lookahead(2);
                self.skip_line_break();
            }
            Ok(token)
        } else {
            self.set_scanner_error(
                "while scanning a directive",
                start_mark,
                "did not find expected comment or line break",
            )
        }
    }

    fn scan_anchor(&mut self, scan_alias_instead_of_anchor: bool) -> (r: Result<Token>)
        requires
            old(self).wf_loose(),
            old(self).ahead(0) == '&' || old(self).ahead(0) == '*',
        ensures
            final(self).moved_on(old(self)),
            final(self).input.chars().len() < old(self).input.chars().len(),
            r matches Ok(t) ==> token_within(t, final(self).mark),
            r is Ok <==> anchor_ok(old(self).input.chars(), old(self).input.nul_ends_input()),
            r matches Ok(t) ==> {
                let s = old(self).input.chars();
                &&& t.start_mark == old(self).mark
                &&& t.end_mark == final(self).mark
                &&& if scan_alias_instead_of_anchor {
                    t.data is Alias
                } else {
                    t.data is Anchor
                }
                &&& ({
                    let v = if scan_alias_instead_of_anchor {
                        t.data->Alias_value
                    } else {
                        t.data->Anchor_value
                    };
                    &&& anchor_name_of(v@, s)
                    &&& v@.len() == alpha_run(s.skip(1))
                    &&& final(self).input.chars() == s.skip(1 + v@.len() as int)
                })
            },
            final(self).input.chars() == old(self).input.chars().skip(
                1 + alpha_run(old(self).input.chars().skip(1)),
            ),
            final(self).mark == mark_along(
                old(self).mark,
                old(self).input.chars().take(1 + alpha_run(old(self).input.chars().skip(1))),
            ),
            r matches Err(e) ==> e == Error::scanner_spec(
                if scan_alias_instead_of_anchor {
                    "while scanning an alias"
                } else {
                    "while scanning an anchor"
                },
                old(self).mark,
                "did not find expected alphabetic or numeric character",
                final(self).mark,
            ),
    {
        let mut length: i32 = 0;

        let mut string = String::new();
        let start_mark: Mark = self.mark;
        let ghost s0 = self.input.chars();
        self.skip_char();
        self.input.lookahead(1);
        proof {
            assert(s0.take(1).drop_last() =~= s0.take(0));
            assert(width_of(s0.take(0)) == 0);
            assert(s0.take(1).last() == s0[0]);
            assert(width_of(s0.take(1)) == utf8_width(s0[0]));
        }

        while self.input.next_is_alpha()
            invariant
                self.moved_on(old(self)),
                s0 == old(self).input.chars(),
                self.mark.index == old(self).mark.index + width_of(s0.take(1 + length)),
                self.mark.line == old(self).mark.line,
                self.mark.column == old(self).mark.column + 1 + length,
                s0.len() > 0,
                s0.len() <= MAX_INPUT_CHARS,
                length == string@.len(),
                1 + length <= s0.len(),
                string@ == s0.subrange(1, 1 + length),
                self.input.chars() == s0.skip(1 + length),
                forall|i: int| 0 <= i < string@.len() ==> alpha_char(#[trigger] string@[i]),
            decreases self.input.chars().len(),
        {
            let ghost before = string@;
            self.read_char(&mut string);
            proof {
                assert(s0.skip(1 + length).drop_first() =~= s0.skip(1 + length + 1));
                assert(string@ =~= s0.subrange(1, 1 + length + 1));
                assert(s0.take(1 + length + 1).drop_last() =~= s0.take(1 + length));
                assert(s0.take(1 + length + 1).last() == s0[1 + length]);
            }
            self.input.lookahead(1);
            length += 1;
        }
        proof {
            let t = s0.skip(1);
            assert forall|i: int| 0 <= i < length implies alpha_char(#[trigger] t[i]) by {
                assert(t[i] == string@[i]);
            }
            if length < t.len() {
                assert(t[length as int] == self.input.chars()[0]);
            }
            lemma_run_len(t, |c: char| alpha_char(c), length as int);
            assert(t.skip(length as int) =~= s0.skip(1 + length));
            assert(alpha_run(t) == length);
        }
        let end_mark: Mark = self.mark;
        if length == 0 || !(self.input.next_is_blank_or_breakz() || self.input.next_char_is('?')
            || self.input.next_char_is(':') || self.input.next_char_is(',')
            || self.input.next_char_is(']') || self.input.next_char_is('}')
            || self.input.next_char_is('%') || self.input.next_char_is('@')
            || self.input.next_char_is('`')) {
            self.set_scanner_error(
                if scan_alias_instead_of_anchor {
                    "while scanning an alias"
                } else {
                    "while scanning an anchor"
                },
                start_mark,
                "did not find expected alphabetic or numeric character",
            )
        } else {
            Ok(
                Token {
                    data: if scan_alias_instead_of_anchor {
                        TokenData::Alias { value: string }
                    } else {
                        TokenData::Anchor { value: string }
                    },
                    start_mark,
                    end_mark,
                },
            )
        }
    }

    #[verifier::rlimit(100)]
    #[verifier::spinoff_prover]
    fn scan_tag(&mut self) -> (r: Result<Token>)
        requires
            old(self).wf_loose(),
            old(self).ahead(0) == '!',
        ensures
            final(self).moved_on(old(self)),
            final(self).input.chars().len() < old(self).input.chars().len(),
            r matches Ok(t) ==> t.start_mark == old(self).mark && t.end_mark == final(self).mark
                && t.data is Tag,
            r matches Ok(t) ==> token_within(t, final(self).mark),
            r is Ok <==> tag_ok(
                old(self).input.chars(),
                old(self).input.nul_ends_input(),
                old(self).flow_level != 0,
            ),
            r matches Ok(t) ==> tag_parts_of(
                t.data->Tag_handle@,
                t.data->Tag_suffix@,
                old(self).input.chars(),
                old(self).input.chars().len() - final(self).input.chars().len(),
            ),
            r is Ok ==> old(self).input.chars().len() - final(self).input.chars().len() == tag_len(
                old(self).input.chars(),
            ),
    {
        let mut handle;
        let mut suffix;

        let start_mark: Mark = self.mark;
        let ghost s = self.input.chars();

        self.input.lookahead(2);

        if self.input.nth_char_is(1, '<') {
            handle = String::new();
            self.skip_char();
            self.skip_char();
            let ghost s2 = self.input.chars();
            proof {
                assert(s.drop_first().drop_first() =~= s.skip(2));
                assert(uri_head_len(None) == 0);
                if 2 < s.len() {
                    assert(s2[0] == s[2]);
                }
            }
            let scanned = self.scan_tag_uri(true, false, None, start_mark);
            suffix = scanned?;
            let ghost m = s2.len() - self.input.chars().len();
            proof {
                if m < s2.len() {
                    assert(s2[m] == self.input.chars()[0]);
                }
                lemma_uri_scanned_len(s2, m, true);
                if 2 + m < s.len() {
                    assert(s[2 + m] == s2[m]);
                }
            }

            if !self.input.next_char_is('>') {
                return self.set_scanner_error(
                    "while scanning a tag",
                    start_mark,
                    "did not find the expected '>'",
                );
            }
            self.skip_char();
            proof {
                assert(s.drop_first().drop_first() =~= s.skip(2));
                let n = s.len() - self.input.chars().len();
                assert(n == m + 3);
                assert(s2 =~= s.skip(2));
                assert(n == tag_len(s));
                assert(s.subrange(2, n - 1) =~= s2.take(m));
                assert(s[n - 1] == s2[m]);
                assert(uri_head_rest(None) + uri_decoded(s2.take(m)) =~= uri_decoded(s2.take(m)));
            }
        } else {
            handle = self.scan_tag_handle(false, start_mark)?;
            let ghost h = handle@;
            let ghost k = h.len() as int;
            let ghost s2 = self.input.chars();
            proof {
                lemma_tag_handle_bytes(h, s);
                lemma_tag_handle_unique(s, k, tag_handle_len(s));
                reveal_strlit("!");
            }
            proof {
                if k < s.len() {
                    assert(s2[0] == s[k]);
                }
            }
            if str_first(handle.as_str()) == '!' && handle.as_str().len() > 1 && str_last(
                handle.as_str(),
            ) == '!' {
                let scanned = self.scan_tag_uri(false, false, None, start_mark);
                proof {
                    assert(uri_head_len(None) == 0);
                    assert(k > 1 && s[k - 1] == '!');
                }
                suffix = scanned?;
                proof {
                    let m = s2.len() - self.input.chars().len();
                    if m < s2.len() {
                        assert(s2[m] == self.input.chars()[0]);
                    }
                    lemma_uri_scanned_len(s2, m, false);
                    let n = s.len() - self.input.chars().len();
                    let m = n - k;
                    assert(n == tag_len(s));
                    assert(s.subrange(k, n) =~= s2.take(m));
                    assert(uri_head_rest(None) + uri_decoded(s2.take(m)) =~= uri_decoded(
                        s2.take(m),
                    ));
                }
            } else {
                let head: &str = handle.as_str();
                let scanned = self.scan_tag_uri(false, false, Some(head), start_mark);
                proof {
                    assert(uri_head_len(Some(head)) > 0);
                    assert(!(k > 1 && s[k - 1] == '!'));
                }
                suffix = scanned?;
                proof {
                    let m = s2.len() - self.input.chars().len();
                    if m < s2.len() {
                        assert(s2[m] == self.input.chars()[0]);
                    }
                    lemma_uri_scanned_len(s2, m, false);
                    let n = s.len() - self.input.chars().len();
                    let m = n - k;
                    assert(n == tag_len(s));
                    assert(s.subrange(k, n) =~= s2.take(m));
                    assert(uri_head_rest(Some(head)) =~= h.drop_first());
                }
                handle = "!".to_owned();
                if suffix.is_empty() {
                    core::mem::swap(&mut handle, &mut suffix);
                }
            }
        }

        self.input.lookahead(1);
        if !self.input.next_is_blank_or_breakz() {
            if self.flow_level == 0 || !self.input.next_char_is(',') {
                return self.set_scanner_error(
                    "while scanning a tag",
                    start_mark,
                    "did not find expected whitespace or line break",
                );
            }
            // In flow context, a tag can be followed by ',' without whitespace.
        }

        let end_mark: Mark = self.mark;
        Ok(Token { data: TokenData::Tag { handle, suffix }, start_mark, end_mark })
    }

    /// The header line of a block scalar: the indicator, an optional chomping
    /// indicator and indentation increment in either order, then blanks, an
    /// optional comment and the line break. Returns the chomping (-1 strip,
    /// 0 clip, 1 keep) and the increment (0 when absent).
    #[verifier::rlimit(100)]
    #[verifier::spinoff_prover]
    fn scan_block_scalar_header(&mut self, start_mark: Mark) -> (r: Result<(i32, i32)>)
        requires
            old(self).wf(),
            old(self).stream_start_produced,
            old(self).ahead(0) == '|' || old(self).ahead(0) == '>',
        ensures
            final(self).moved_on(old(self)),
            final(self).stream_start_produced,
            final(self).input.chars().len() < old(self).input.chars().len(),
            r matches Ok((chomping, increment)) ==> -1 <= chomping <= 1 && 0 <= increment <= 9,
            r is Ok <==> block_header_ok(old(self).input.chars(), old(self).input.nul_ends_input()),
            ({
                let c1 = nth_or_nul(old(self).input.chars(), 1);
                let c2 = nth_or_nul(old(self).input.chars(), 2);
                c1 == '0' || ((c1 == '+' || c1 == '-') && c2 == '0')
            }) ==> (r matches Err(e) && e.context == "while scanning a block scalar"
                && e.context_mark == start_mark && e.problem
                == "found an indentation indicator equal to 0"),
            r matches Err(e) ==> e.context == "while scanning a block scalar" && e.context_mark
                == start_mark,
            r is Ok ==> ({
                let s = old(self).input.chars();
                let h = first_line_len(s, old(self).input.nul_ends_input());
                &&& 0 < h <= s.len()
                &&& final(self).input.chars() == s.skip(h)
            }),
            r matches Ok((chomping, increment)) ==> (chomping == 1 <==> block_chomp(
                old(self).input.chars(),
            ) == '+') && (chomping == -1 <==> block_chomp(old(self).input.chars()) == '-'),
    {
        let mut chomping: i32 = 0;
        let mut increment: i32 = 0;
        let ghost s = self.input.chars();
        let ghost nul = self.input.nul_ends_input();
        let ghost mut hdr: int = 0;
        proof {
            lemma_first_line_step(s, nul);
        }
        self.skip_char();
        proof {
            hdr = 1;
            assert(s.drop_first() =~= s.skip(1));
        }
        self.input.lookahead(1);

        if self.input.next_char_is('+') || self.input.next_char_is('-') {
            chomping = if self.input.next_char_is('+') {
                1
            } else {
                -1
            };
            proof {
                lemma_first_line_step(self.input.chars(), nul);
                assert(s.skip(hdr).drop_first() =~= s.skip(hdr + 1));
                hdr = hdr + 1;
            }
            self.skip_char();
            self.input.lookahead(1);
            if self.input.next_is_digit() {
                if self.input.next_char_is('0') {
                    return self.set_scanner_error(
                        "while scanning a block scalar",
                        start_mark,
                        "found an indentation indicator equal to 0",
                    );
                }
                increment = decimal_digit(self.input.peek()) as i32;
                proof {
                    lemma_first_line_step(self.input.chars(), nul);
                    assert(s.skip(hdr).drop_first() =~= s.skip(hdr + 1));
                    hdr = hdr + 1;
                }
                self.skip_char();
            }
        } else if self.input.next_is_digit() {
            if self.input.next_char_is('0') {
                return self.set_scanner_error(
                    "while scanning a block scalar",
                    start_mark,
                    "found an indentation indicator equal to 0",
                );
            }
            increment = decimal_digit(self.input.peek()) as i32;
            proof {
                lemma_first_line_step(self.input.chars(), nul);
                assert(s.skip(hdr).drop_first() =~= s.skip(hdr + 1));
                hdr = hdr + 1;
            }
            self.skip_char();
            self.input.lookahead(1);
            if self.input.next_char_is('+') || self.input.next_char_is('-') {
                chomping = if self.input.next_char_is('+') {
                    1
                } else {
                    -1
                };
                proof {
                    lemma_first_line_step(self.input.chars(), nul);
                    assert(s.skip(hdr).drop_first() =~= s.skip(hdr + 1));
                    hdr = hdr + 1;
                }
                self.skip_char();
            }
        }
        self.input.lookahead(1);
        let ghost k0 = hdr;
        proof {
            assert(nth_or_nul(s, 1) == nth_or_nul(s.skip(1), 0));
            assert(nth_or_nul(s, 2) == nth_or_nul(s.skip(1), 1));
            assert(k0 == 1 + block_indicators_len(s));
        }
        while self.input.next_is_blank()
            invariant
                k0 == 1 + block_indicators_len(s),
                k0 <= hdr,
                forall|j: int| k0 <= j < hdr ==> blank_char(#[trigger] s[j]),
                self.moved_on(old(self)),
                self.input.chars().len() < old(self).input.chars().len(),
                s == old(self).input.chars(),
                self.stream_start_produced,
                nul == old(self).input.nul_ends_input(),
                0 < hdr <= s.len(),
                self.input.chars() == s.skip(hdr),
                first_line_len(s, nul) == hdr + first_line_len(self.input.chars(), nul),
            decreases self.input.chars().len(),
        {
            proof {
                assert(s[hdr] == self.input.chars()[0]);
                crate::char_traits::law_blank_break_nil_disjoint(self.input.chars()[0]);
                lemma_first_line_step(self.input.chars(), nul);
                assert(s.skip(hdr).drop_first() =~= s.skip(hdr + 1));
                hdr = hdr + 1;
            }
            self.skip_char();
            self.input.lookahead(1);
        }

        proof {
            let t = s.skip(k0);
            assert forall|j: int| 0 <= j < hdr - k0 implies blank_char(#[trigger] t[j]) by {
                assert(t[j] == s[k0 + j]);
            }
            if hdr < s.len() {
                assert(t[hdr - k0] == self.input.chars()[0]);
            }
            lemma_run_len(t, |c: char| blank_char(c), hdr - k0);
            assert(t.skip(hdr - k0) =~= s.skip(hdr));
            if hdr < s.len() {
                assert(nth_or_nul(s, hdr) == self.input.chars()[0]);
            }
        }
        if self.input.next_char_is('#') {
            while !self.input.next_is_breakz()
                invariant
                    self.moved_on(old(self)),
                    self.input.chars().len() < old(self).input.chars().len(),
                    s == old(self).input.chars(),
                    self.stream_start_produced,
                    nul == old(self).input.nul_ends_input(),
                    0 < hdr <= s.len(),
                    self.input.chars() == s.skip(hdr),
                    first_line_len(s, nul) == hdr + first_line_len(self.input.chars(), nul),
                decreases self.input.chars().len(),
            {
                proof {
                    lemma_first_line_step(self.input.chars(), nul);
                    assert(s.skip(hdr).drop_first() =~= s.skip(hdr + 1));
                    hdr = hdr + 1;
                }
                self.skip_char();
                self.input.lookahead(1);
            }
        }

        if !self.input.next_is_breakz() {
            return self.set_scanner_error(
                "while scanning a block scalar",
                start_mark,
                "did not find expected comment or line break",
            );
        }

        if self.input.next_is_break() {
            self.input.lookahead(2);
            let ghost t = self.input.chars();
            self.skip_line_break();
            proof {
                if nth_or_nul(t, 0) == '\r' && nth_or_nul(t, 1) == '\n' {
                    assert(t.skip(2) =~= s.skip(hdr + 2));
                    hdr = hdr + 2;
                } else {
                    assert(t.drop_first() =~= s.skip(hdr + 1));
                    hdr = hdr + 1;
                }
            }
        }
        proof {
            assert(hdr == first_line_len(s, nul));
        }
        Ok((chomping, increment))
    }

    #[verifier::rlimit(100)]
    #[verifier::spinoff_prover]
    fn scan_block_scalar(&mut self, literal: bool) -> (r: Result<Token>)
        requires
            old(self).wf(),
            old(self).stream_start_produced,
            old(self).ahead(0) == '|' || old(self).ahead(0) == '>',
        ensures
            final(self).moved_on(old(self)),
            final(self).input.chars().len() < old(self).input.chars().len(),
            r matches Ok(t) ==> t.start_mark == old(self).mark && t.data is Scalar && (
            t.data->style == if literal {
                ScalarStyle::Literal
            } else {
                ScalarStyle::Folded
            }),
            r matches Ok(t) ==> token_within(t, final(self).mark),
            r is Ok ==> block_header_ok(old(self).input.chars(), old(self).input.nul_ends_input()),
            block_header_ok(old(self).input.chars(), old(self).input.nul_ends_input())
                && !old(self).input.chars().contains('\t') ==> r is Ok,
            ({
                let c1 = nth_or_nul(old(self).input.chars(), 1);
                let c2 = nth_or_nul(old(self).input.chars(), 2);
                c1 == '0' || ((c1 == '+' || c1 == '-') && c2 == '0')
            }) ==> (r matches Err(e) && e.context == "while scanning a block scalar"
                && e.context_mark == old(self).mark && e.problem
                == "found an indentation indicator equal to 0"),
            r matches Ok(t) ==> ({
                let s = old(self).input.chars();
                let h = first_line_len(s, old(self).input.nul_ends_input());
                let n = s.len() - final(self).input.chars().len();
                &&& h <= n
                &&& final(self).input.chars() == s.skip(n)
                &&& visible(t.data->Scalar_value@) == visible(s.subrange(h, n))
            }),
            r matches Err(e) ==> e.context == "while scanning a block scalar" && e.context_mark
                == old(self).mark,
            r matches Ok(t) ==> (block_chomp(old(self).input.chars()) != '+' ==> !({
                let v = t.data->Scalar_value@;
                v.len() >= 2 && break_char(v[v.len() - 1]) && break_char(v[v.len() - 2])
            })),
            r matches Ok(t) ==> (block_chomp(old(self).input.chars()) == '-' ==> ({
                let v = t.data->Scalar_value@;
                v.len() == 0 || !break_char(v.last())
            })),
            r matches Ok(t) ==> ({
                let s = old(self).input.chars();
                let body = s.subrange(
                    first_line_len(s, old(self).input.nul_ends_input()),
                    s.len() - final(self).input.chars().len(),
                );
                let v = t.data->Scalar_value@;
                block_chomp(s) != '-' && block_chomp(s) != '+' && visible(body).len() > 0
                    && body.len() > 0 && break_char(body.last()) ==> v.len() > 0 && break_char(
                    v.last(),
                )
            }),
    {
        let mut end_mark: Mark;
        let mut string = String::new();
        let mut leading_break = String::new();
        let mut trailing_breaks = String::new();
        let mut indent: i32 = 0;
        let mut leading_blank: i32 = 0;
        let mut trailing_blank: i32;
        let start_mark: Mark = self.mark;
        let ghost s = self.input.chars();
        let header = self.scan_block_scalar_header(start_mark);
        let (chomping, increment) = match header {
            Ok(v) => v,
            Err(e) => {
                return Err(e);
            },
        };
        proof {
            assert(block_header_ok(s, self.input.nul_ends_input()));
            assert(nth_or_nul(s, 1) != '0');
            assert(!((nth_or_nul(s, 1) == '+' || nth_or_nul(s, 1) == '-') && nth_or_nul(s, 2)
                == '0'));
        }
        let ghost h = s.len() - self.input.chars().len();

        end_mark = self.mark;
        if increment != 0 {
            indent = if self.indent >= 0 {
                self.indent + increment
            } else {
                increment
            };
        }
        let ghost s1 = self.input.chars();
        proof {
            if !s.contains('\t') {
                assert(s =~= s.take(h) + s1);
                lemma_suffix_lacks(s, s.take(h), s1, '\t');
            }
        }
        let first_breaks = self.scan_block_scalar_breaks(
            &mut indent,
            &mut trailing_breaks,
            start_mark,
            &mut end_mark,
        );
        if let Err(e) = first_breaks {
            return Err(e);
        }
        let ghost mut body: Seq<char> = s1.take(s1.len() - self.input.chars().len());
        proof {
            assert(s =~= s.take(h) + body + self.input.chars());
            assert(visible(string@) =~= Seq::<char>::empty());
        }

        self.input.lookahead(1);

        loop
            invariant
                nth_or_nul(old(self).input.chars(), 1) != '0' && !((nth_or_nul(old(self).input.chars(), 1) == '+' || nth_or_nul(old(self).input.chars(), 1) == '-') && nth_or_nul(old(self).input.chars(), 2) == '0'),
                self.moved_on(old(self)),
                self.stream_start_produced,
                self.input.chars().len() < old(self).input.chars().len(),
                1 <= indent <= MAX_INPUT_CHARS + 10,
                start_mark == old(self).mark,
                mark_not_after(start_mark, end_mark),
                mark_not_after(end_mark, self.mark),
                s == old(self).input.chars(),
                0 <= h <= s.len(),
                s == s.take(h) + body + self.input.chars(),
                visible(string@) == visible(body),
                visible(leading_break@).len() == 0,
                visible(trailing_breaks@).len() == 0,
                !break_char(self.ahead(0)),
                leading_break@.len() <= 1,
                string@.len() == 0 || !break_char(string@.last()),
                leading_break@.len() == 1 ==> break_char(leading_break@[0]),
                body.len() > 0 && break_char(body.last()) && visible(body).len() > 0
                    ==> leading_break@.len() == 1,
            decreases self.input.chars().len(),
        {
            if self.mark.column as i32 != indent || self.input.next_is_z() {
                break;
            }
            let ghost iter_chars = self.input.chars();
            trailing_blank = if self.input.next_is_blank() {
                1
            } else {
                0
            };
            if !literal && str_first(leading_break.as_str()) == '\n' && leading_blank == 0
                && trailing_blank == 0 {
                if trailing_breaks.is_empty() {
                    proof {
                        lemma_visible_push(string@, ' ');
                    }
                    string.push(' ');
                }
                leading_break.clear();
            } else {
                proof {
                    lemma_visible_add_invisible(string@, leading_break@);
                }
                string.push_str(leading_break.as_str());
                leading_break.clear();
            }
            proof {
                lemma_visible_add_invisible(string@, trailing_breaks@);
            }
            string.push_str(trailing_breaks.as_str());
            trailing_breaks.clear();
            proof {
                assert(visible(leading_break@) =~= Seq::<char>::empty());
                assert(visible(trailing_breaks@) =~= Seq::<char>::empty());
            }
            leading_blank = if self.input.next_is_blank() {
                1
            } else {
                0
            };
            let ghost line_from = body.len();
            while !self.input.next_is_breakz()
                invariant
                    line_from + iter_chars.len() == body.len() + self.input.chars().len(),
                    body.len() > line_from ==> !break_char(body.last()),
                    self.moved_on(old(self)),
                    self.input.chars().len() < old(self).input.chars().len(),
                    self.input.chars().len() < iter_chars.len() || self.input.chars()
                        == iter_chars,
                    self.input.nul_ends_input() == old(self).input.nul_ends_input(),
                    mark_not_after(start_mark, end_mark),
                    mark_not_after(end_mark, self.mark),
                    s == old(self).input.chars(),
                    0 <= h <= s.len(),
                    s == s.take(h) + body + self.input.chars(),
                    visible(string@) == visible(body),
                    visible(leading_break@).len() == 0,
                    visible(trailing_breaks@).len() == 0,
                    leading_break@.len() == 0,
                    !break_char(nth_or_nul(iter_chars, 0)),
                    !(iter_chars.len() == 0 || (self.input.nul_ends_input() && iter_chars[0] == '\0')),
                    self.input.chars().len() < iter_chars.len() ==> string@.len() > 0
                        && !break_char(string@.last()),
                decreases self.input.chars().len(),
            {
                let ghost c = self.input.chars()[0];
                proof {
                    lemma_visible_push(string@, c);
                    lemma_visible_push(body, c);
                }
                self.read_char(&mut string);
                proof {
                    assert(s =~= s.take(h) + body.push(c) + self.input.chars());
                    body = body.push(c);
                }
                self.input.lookahead(1);
            }
            self.input.lookahead(2);
            let ghost rem = self.input.chars();
            let ghost body_l = body;
            let ghost pre_lb = leading_break@;
            self.read_line_break(&mut leading_break);
            proof {
                if break_char(nth_or_nul(rem, 0)) {
                    let taken = lemma_break_taken(rem, self.input.chars(), pre_lb, leading_break@);
                    lemma_visible_add_invisible(body, taken);
                    assert(s =~= s.take(h) + (body + taken) + self.input.chars());
                    body = body + taken;
                }
            }
            let ghost s2 = self.input.chars();
            let ghost pre_tb = trailing_breaks@;
            proof {
                if !s.contains('\t') {
                    assert(s =~= (s.take(h) + body) + s2);
                    lemma_suffix_lacks(s, s.take(h) + body, s2, '\t');
                }
            }
            let more_breaks = self.scan_block_scalar_breaks(
                &mut indent,
                &mut trailing_breaks,
                start_mark,
                &mut end_mark,
            );
            if let Err(e) = more_breaks {
                return Err(e);
            }
            proof {
                let taken = s2.take(s2.len() - self.input.chars().len());
                lemma_visible_add_invisible(body, taken);
                assert(s =~= s.take(h) + (body + taken) + self.input.chars());
                if !break_char(nth_or_nul(rem, 0)) {
                    assert(s2 == rem);
                    assert(body == body_l);
                    if taken.len() > 0 {
                        lemma_visible_none(taken);
                        assert(taken[0] == rem[0]);
                        assert(ws_char(taken[0]));
                    }
                    assert(taken.len() == 0);
                    assert(body + taken =~= body_l);
                    assert(body_l.len() > line_from);
                }
                body = body + taken;
            }
        }

        if chomping != -1 {
            proof {
                lemma_visible_add_invisible(string@, leading_break@);
            }
            string.push_str(leading_break.as_str());
        }

        if chomping == 1 {
            proof {
                lemma_visible_add_invisible(string@, trailing_breaks@);
            }
            string.push_str(trailing_breaks.as_str());
        }
        proof {
            let n = s.len() - self.input.chars().len();
            assert(s.subrange(h, n) =~= body);
            assert(self.input.chars() =~= s.skip(n));
        }

        Ok(
            Token {
                data: TokenData::Scalar {
                    value: string,
                    style: if literal {
                        ScalarStyle::Literal
                    } else {
                        ScalarStyle::Folded
                    },
                },
                start_mark,
                end_mark,
            },
        )
    }

    fn scan_block_scalar_breaks(
        &mut self,
        indent: &mut i32,
        breaks: &mut String,
        start_mark: Mark,
        end_mark: &mut Mark,
    ) -> (r: Result<()>)
        requires
            old(self).wf(),
            old(self).stream_start_produced,
            0 <= *old(indent) <= MAX_INPUT_CHARS + 10,
        ensures
            final(self).moved_on(old(self)),
            0 <= *final(indent) <= MAX_INPUT_CHARS + 10,
            r is Ok ==> *final(indent) >= 1,
            *old(indent) != 0 ==> *final(indent) == *old(indent),
            mark_not_after(old(self).mark, *final(end_mark)),
            mark_not_after(*final(end_mark), final(self).mark),
            ({
                let s = old(self).input.chars();
                let k = s.len() - final(self).input.chars().len();
                &&& final(self).input.chars() == s.skip(k)
                &&& visible(s.take(k)).len() == 0
            }),
            visible(final(breaks)@) == visible(old(breaks)@),
            !old(self).input.chars().contains('\t') ==> r is Ok,
            r matches Err(e) ==> e.context == "while scanning a block scalar" && e.context_mark
                == start_mark && e.problem
                == "found a tab character where an indentation space is expected",
            r is Ok ==> !break_char(final(self).ahead(0)),
            r is Ok ==> final(breaks)@ == old(breaks)@ + breaks_in(
                old(self).input.chars().take(
                    old(self).input.chars().len() - final(self).input.chars().len(),
                ),
            ),
    {
        let mut max_indent: i32 = 0;
        *end_mark = self.mark;
        let ghost s = self.input.chars();
        let ghost mut eaten: Seq<char> = Seq::empty();
        proof {
            assert(s =~= eaten + self.input.chars());
        }
        loop
            invariant
                self.moved_on(old(self)),
                self.stream_start_produced,
                0 <= max_indent <= MAX_INPUT_CHARS,
                *indent == *old(indent),
                0 <= *old(indent) <= MAX_INPUT_CHARS + 10,
                mark_not_after(old(self).mark, *end_mark),
                mark_not_after(*end_mark, self.mark),
                s == old(self).input.chars(),
                s == eaten + self.input.chars(),
                visible(eaten).len() == 0,
                visible(breaks@) == visible(old(breaks)@),
                breaks@ == old(breaks)@ + breaks_in(eaten),
                eaten.len() > 0 && eaten.last() == '\r' ==> nth_or_nul(self.input.chars(), 0) != '\n',
            ensures
                self.moved_on(old(self)),
                self.stream_start_produced,
                0 <= max_indent <= MAX_INPUT_CHARS,
                *indent == *old(indent),
                0 <= *old(indent) <= MAX_INPUT_CHARS + 10,
                mark_not_after(old(self).mark, *end_mark),
                mark_not_after(*end_mark, self.mark),
                s == old(self).input.chars(),
                s == eaten + self.input.chars(),
                visible(eaten).len() == 0,
                visible(breaks@) == visible(old(breaks)@),
                breaks@ == old(breaks)@ + breaks_in(eaten),
                eaten.len() > 0 && eaten.last() == '\r' ==> nth_or_nul(self.input.chars(), 0) != '\n',
                !break_char(self.ahead(0)),
            decreases self.input.chars().len(),
        {
            let ghost len0 = self.input.chars().len();
            self.input.lookahead(1);
            while (*indent == 0 || (self.mark.column as i32) < *indent) && self.input.next_char_is(
                ' ',
            )
                invariant
                    self.moved_on(old(self)),
                    self.stream_start_produced,
                    0 <= max_indent <= MAX_INPUT_CHARS,
                    *indent == *old(indent),
                    self.input.chars().len() <= len0,
                    mark_not_after(old(self).mark, *end_mark),
                    mark_not_after(*end_mark, self.mark),
                    s == old(self).input.chars(),
                    s == eaten + self.input.chars(),
                    visible(eaten).len() == 0,
                    visible(breaks@) == visible(old(breaks)@),
                    breaks@ == old(breaks)@ + breaks_in(eaten),
                    eaten.len() > 0 && eaten.last() == '\r' ==> nth_or_nul(self.input.chars(), 0) != '\n',
                decreases self.input.chars().len(),
            {
                let ghost rem = self.input.chars();
                self.skip_char();
                proof {
                    lemma_visible_push(eaten, rem[0]);
                    assert(s =~= eaten.push(rem[0]) + self.input.chars());
                    lemma_breaks_blank(eaten, rem[0]);
                    eaten = eaten.push(rem[0]);
                }
                self.input.lookahead(1);
            }
            if self.mark.column as i32 > max_indent {
                max_indent = self.mark.column as i32;
            }
            if (*indent == 0 || (self.mark.column as i32) < *indent) && self.input.next_char_is(
                '\t',
            ) {
                proof {
                    assert(eaten =~= s.take(s.len() - self.input.chars().len()));
                    assert(s[eaten.len() as int] == self.input.chars()[0]);
                    assert(s.contains('\t'));
                }
                return self.set_scanner_error(
                    "while scanning a block scalar",
                    start_mark,
                    "found a tab character where an indentation space is expected",
                );
            }
            if !self.input.next_is_break() {
                break;
            }
            self.input.lookahead(2);
            let ghost rem = self.input.chars();
            let ghost pre_breaks = breaks@;
            self.read_line_break(breaks);
            proof {
                let taken = lemma_break_taken(rem, self.input.chars(), pre_breaks, breaks@);
                lemma_visible_add_invisible(eaten, taken);
                assert(s =~= (eaten + taken) + self.input.chars());
                if nth_or_nul(rem, 0) == '\r' && nth_or_nul(rem, 1) == '\n' {
                    assert(taken =~= seq!['\r', '\n']);
                } else {
                    assert(taken =~= seq![rem[0]]);
                }
                lemma_breaks_taken(eaten, taken);
                assert(breaks@ =~= old(breaks)@ + breaks_in(eaten + taken));
                eaten = eaten + taken;
            }
            *end_mark = self.mark;
        }
        if *indent == 0 {
            *indent = max_indent;
            if *indent < self.indent + 1 {
                *indent = self.indent + 1;
            }
            if *indent < 1 {
                *indent = 1;
            }
        }
        proof {
            assert(eaten =~= s.take(s.len() - self.input.chars().len()));
        }
        Ok(())
    }

    /// Whether the upcoming characters are a document marker (`---` or `...`)
    /// followed by a whitespace, a line break or the end.
    closed spec fn at_document_indicator(&self) -> bool {
        ((self.ahead(0) == '-' && self.ahead(1) == '-' && self.ahead(2) == '-') || (self.ahead(0)
            == '.' && self.ahead(1) == '.' && self.ahead(2) == '.')) && blankz_char(self.ahead(3))
    }

    #[verifier::rlimit(100)]
    #[verifier::spinoff_prover]
    fn scan_flow_scalar(&mut self, single: bool) -> (r: Result<Token>)
        requires
            old(self).wf_loose(),
            old(self).ahead(0) == if single {
                '\''
            } else {
                '"'
            },
        ensures
            final(self).moved_on(old(self)),
            final(self).input.chars().len() < old(self).input.chars().len(),
            r matches Ok(t) ==> token_within(t, final(self).mark),
            r matches Ok(t) ==> t.start_mark == old(self).mark && t.end_mark == final(self).mark
                && t.data is Scalar && (t.data->style == if single {
                ScalarStyle::SingleQuoted
            } else {
                ScalarStyle::DoubleQuoted
            }),
            r matches Ok(t) ==> ({
                let s = old(self).input.chars();
                let n = s.len() - final(self).input.chars().len();
                let inner = s.subrange(1, n - 1);
                &&& 2 <= n
                &&& s[n - 1] == s[0]
                &&& quoted_aligned(inner, single)
                &&& visible(t.data->Scalar_value@) == visible(quoted_decoded(inner, single))
            }),
            r matches Ok(t) ==> ({
                let s = old(self).input.chars();
                let inner = s.subrange(1, s.len() - final(self).input.chars().len() - 1);
                escape_free(inner, single) ==> t.data->Scalar_value@ == quoted_folded(
                    quoted_decoded(inner, single),
                )
            }),
            quoted_clear(old(self).input.chars().drop_first(), single) ==> r is Ok,
            !single && quoted_bad_escape(old(self).input.chars().drop_first()) ==> (r matches Err(e)
                && e.problem == "found unknown escape character" && e.context_mark == old(self).mark),
            quoted_runs_out(old(self).input.chars().drop_first(), single, old(self).input.nul_ends_input())
                ==> (r matches Err(e) && e.problem == "found unexpected end of stream"
                && e.context_mark == old(self).mark),
            r matches Err(e) ==> e.context_mark == old(self).mark && (e.context
                == "while scanning a quoted scalar" || e.context == "while parsing a quoted scalar"),
            quoted_clear(old(self).input.chars().drop_first(), single) ==> (r matches Ok(t)
                && t.data->Scalar_value@ == old(self).input.chars().subrange(
                1,
                old(self).input.chars().len() - final(self).input.chars().len() - 1,
            )),
            quoted_clear(old(self).input.chars().drop_first(), single) ==> final(self).mark
                == mark_along(
                old(self).mark,
                old(self).input.chars().take(
                    old(self).input.chars().len() - final(self).input.chars().len(),
                ),
            ),
    {
        let mut string = String::new();
        let mut leading_break = String::new();
        let mut trailing_breaks = String::new();
        let mut whitespaces = String::new();
        let mut leading_blanks: bool = false;

        let start_mark: Mark = self.mark;
        let ghost s0 = self.input.chars();
        self.skip_char();
        proof {
            lemma_width_step(s0, 0);
            assert(width_of(s0.take(0)) == 0);
        }
        let ghost inner0 = self.input.chars();
        let ghost g = quoted_clear(inner0, single);
        let ghost nq = choose|n: int| quoted_closes_at(inner0, single, n);
        let ghost u = !single && quoted_bad_escape(inner0);
        let ghost nu = choose|n: int| quoted_bad_escape_at(inner0, n);
        let ghost h = quoted_runs_out(inner0, single, old(self).input.nul_ends_input());
        let ghost nh = choose|n: int|
            quoted_runs_out_at(inner0, single, old(self).input.nul_ends_input(), n);
        proof {
            if g {
                assert(quoted_closes_at(inner0, single, nq));
            }
            if h {
                assert(quoted_runs_out_at(inner0, single, old(self).input.nul_ends_input(), nh));
            }
            if u {
                assert(quoted_bad_escape_at(inner0, nu));
            }
        }
        let ghost mut eaten: Seq<char> = Seq::empty();
        let ghost mut cut: int = 0;
        let ghost mut dec: Seq<char> = Seq::empty();
        proof {
            assert(inner0 =~= eaten + self.input.chars());
            assert(quoted_decoded(eaten, single) == eaten);
        }
        loop
            invariant
                start_mark == old(self).mark,
                self.moved_on(old(self)),
                self.input.chars().len() < old(self).input.chars().len(),
                s0 == old(self).input.chars(),
                inner0 == s0.drop_first(),
                inner0 == eaten + self.input.chars(),
                g ==> quoted_closes_at(inner0, single, nq) && eaten.len() <= nq && self.mark.column > 0,
                g == quoted_clear(inner0, single),
                h ==> quoted_runs_out_at(inner0, single, old(self).input.nul_ends_input(), nh) && eaten.len() <= nh && self.mark.column > 0,
                h == quoted_runs_out(inner0, single, old(self).input.nul_ends_input()),
                u ==> !single && quoted_bad_escape_at(inner0, nu) && eaten.len() <= nu && self.mark.column > 0,
                u == (!single && quoted_bad_escape(inner0)),
                g ==> !leading_blanks && string@ == eaten && whitespaces@.len() == 0,
                g ==> self.mark.index == old(self).mark.index + width_of(s0.take(1 + eaten.len() as int)) && self.mark.line == old(self).mark.line && self.mark.column == old(self).mark.column + 1 + eaten.len(),
                s0 == old(self).input.chars(),
                inner0 == s0.drop_first(),
                quoted_aligned(eaten, single),
                visible(string@) == visible(quoted_decoded(eaten, single)),
                visible(leading_break@).len() == 0,
                visible(trailing_breaks@).len() == 0,
                visible(whitespaces@).len() == 0,
                escape_free(eaten, single) ==> string@ == quoted_folded(dec) && whitespaces@.len() == 0
                    && leading_break@.len() == 0 && trailing_breaks@.len() == 0,
                escape_free(eaten, single) ==> dec.len() == 0 || !ws_char(dec.last()) || !ws_char(self.ahead(0)),
                dec == quoted_decoded(eaten, single),
            ensures
                self.moved_on(old(self)),
                self.input.chars().len() < old(self).input.chars().len(),
                self.ahead(0) == if single {
                    '\''
                } else {
                    '"'
                },
                h ==> quoted_runs_out_at(inner0, single, old(self).input.nul_ends_input(), nh) && eaten.len() <= nh,
                u ==> quoted_bad_escape_at(inner0, nu) && eaten.len() <= nu,
                inner0 == eaten + self.input.chars(),
                g ==> !leading_blanks && string@ == eaten && whitespaces@.len() == 0,
                g ==> self.mark.index == old(self).mark.index + width_of(s0.take(1 + eaten.len() as int)) && self.mark.line == old(self).mark.line && self.mark.column == old(self).mark.column + 1 + eaten.len(),
                quoted_aligned(eaten, single),
                visible(string@) == visible(quoted_decoded(eaten, single)),
                escape_free(eaten, single) ==> string@ == quoted_folded(dec),
                dec == quoted_decoded(eaten, single),
            decreases self.input.chars().len(),
        {
            let ghost iter_chars = self.input.chars();
            proof {
                if g {
                    assert(self.input.chars()[0] == inner0[eaten.len() as int]);
                }
                if h && eaten.len() < inner0.len() {
                    assert(self.input.chars()[0] == inner0[eaten.len() as int]);
                }
                if u {
                    assert(self.input.chars()[0] == inner0[eaten.len() as int]);
                }
            }
            self.input.lookahead(4);

            if self.mark.column == 0 && (self.input.nth_char_is(0, '-') && self.input.nth_char_is(
                1,
                '-',
            ) && self.input.nth_char_is(2, '-') || self.input.nth_char_is(0, '.')
                && self.input.nth_char_is(1, '.') && self.input.nth_char_is(2, '.'))
                && is_blank_or_breakz(self.input.peek_nth(3)) {
                return self.set_scanner_error(
                    "while scanning a quoted scalar",
                    start_mark,
                    "found unexpected document indicator",
                );
            } else if self.input.next_is_z() {
                return self.set_scanner_error(
                    "while scanning a quoted scalar",
                    start_mark,
                    "found unexpected end of stream",
                );
            }
            self.input.lookahead(2);
            leading_blanks = false;
            while !self.input.next_is_blank_or_breakz()
                invariant
                    start_mark == old(self).mark,
                    self.moved_on(old(self)),
                    self.input.chars().len() < old(self).input.chars().len(),
                    self.input.chars().len() < iter_chars.len() || self.input.chars()
                        == iter_chars,
                    self.input.nul_ends_input() == old(self).input.nul_ends_input(),
                    !self.at_end() || self.input.chars().len() < iter_chars.len(),
                    inner0 == eaten + self.input.chars(),
                    g ==> quoted_closes_at(inner0, single, nq) && eaten.len() <= nq && self.mark.column > 0,
                g == quoted_clear(inner0, single),
                h ==> quoted_runs_out_at(inner0, single, old(self).input.nul_ends_input(), nh) && eaten.len() <= nh && self.mark.column > 0,
                h == quoted_runs_out(inner0, single, old(self).input.nul_ends_input()),
                u ==> !single && quoted_bad_escape_at(inner0, nu) && eaten.len() <= nu && self.mark.column > 0,
                u == (!single && quoted_bad_escape(inner0)),
                g ==> !leading_blanks && string@ == eaten && whitespaces@.len() == 0,
                g ==> self.mark.index == old(self).mark.index + width_of(s0.take(1 + eaten.len() as int)) && self.mark.line == old(self).mark.line && self.mark.column == old(self).mark.column + 1 + eaten.len(),
                s0 == old(self).input.chars(),
                inner0 == s0.drop_first(),
                    quoted_aligned(eaten, single),
                    visible(string@) == visible(quoted_decoded(eaten, single)),
                    visible(leading_break@).len() == 0,
                    visible(trailing_breaks@).len() == 0,
                    visible(whitespaces@).len() == 0,
                    escape_free(eaten, single) ==> !leading_blanks && string@ == quoted_folded(dec)
                        && whitespaces@.len() == 0 && leading_break@.len() == 0
                        && trailing_breaks@.len() == 0,
                    escape_free(eaten, single) ==> dec.len() == 0 || !ws_char(dec.last()) || !ws_char(
                        self.ahead(0),
                    ),
                    dec == quoted_decoded(eaten, single),
                ensures
                    self.moved_on(old(self)),
                    self.input.chars().len() < old(self).input.chars().len(),
                    self.input.chars().len() < iter_chars.len() || (self.input.chars()
                        == iter_chars && (self.ahead(0) == (if single {
                        '\''
                    } else {
                        '"'
                    }) || blank_char(self.ahead(0)) || break_char(self.ahead(0)))),
                    inner0 == eaten + self.input.chars(),
                    g ==> quoted_closes_at(inner0, single, nq) && eaten.len() <= nq && self.mark.column > 0,
                g == quoted_clear(inner0, single),
                h ==> quoted_runs_out_at(inner0, single, old(self).input.nul_ends_input(), nh) && eaten.len() <= nh && self.mark.column > 0,
                h == quoted_runs_out(inner0, single, old(self).input.nul_ends_input()),
                u ==> !single && quoted_bad_escape_at(inner0, nu) && eaten.len() <= nu && self.mark.column > 0,
                u == (!single && quoted_bad_escape(inner0)),
                g ==> !leading_blanks && string@ == eaten && whitespaces@.len() == 0,
                g ==> self.mark.index == old(self).mark.index + width_of(s0.take(1 + eaten.len() as int)) && self.mark.line == old(self).mark.line && self.mark.column == old(self).mark.column + 1 + eaten.len(),
                s0 == old(self).input.chars(),
                inner0 == s0.drop_first(),
                    quoted_aligned(eaten, single),
                    visible(string@) == visible(quoted_decoded(eaten, single)),
                    visible(leading_break@).len() == 0,
                    visible(trailing_breaks@).len() == 0,
                    visible(whitespaces@).len() == 0,
                    escape_free(eaten, single) ==> !leading_blanks && string@ == quoted_folded(dec)
                        && whitespaces@.len() == 0 && leading_break@.len() == 0
                        && trailing_breaks@.len() == 0,
                    escape_free(eaten, single) ==> dec.len() == 0 || !ws_char(dec.last()) || !ws_char(
                        self.ahead(0),
                    ),
                    dec == quoted_decoded(eaten, single),
                decreases self.input.chars().len(),
            {
                let ghost rem = self.input.chars();
                let ghost before = string@;
                proof {
                    if g {
                        assert(rem[0] == inner0[eaten.len() as int]);
                        assert(nth_or_nul(rem, 1) == nth_or_nul(inner0, eaten.len() as int + 1));
                    }
                    if h && eaten.len() < inner0.len() {
                        assert(rem[0] == inner0[eaten.len() as int]);
                    }
                    if u {
                        assert(rem[0] == inner0[eaten.len() as int]);
                        assert(nth_or_nul(rem, 1) == nth_or_nul(inner0, eaten.len() as int + 1));
                    }
                }
                if single && self.input.nth_char_is(0, '\'') && self.input.nth_char_is(1, '\'') {
                    string.push('\'');
                    self.skip_char();
                    self.skip_char();
                    proof {
                        let item = rem.take(2);
                        assert(item =~= seq!['\'', '\'']);
                        lemma_quoted_pair();
                        lemma_visible_push(before, '\'');
                        lemma_visible_push(Seq::<char>::empty(), '\'');
                        assert(seq!['\''] =~= Seq::<char>::empty().push('\''));
                        assert(visible(before).push('\'') =~= visible(before) + seq!['\'']);
                        lemma_quoted_step(eaten, item, single, before, string@);
                        assert(rem =~= item + rem.skip(2));
                        assert(rem.drop_first().drop_first() =~= rem.skip(2));
                        assert(inner0 =~= (eaten + item) + self.input.chars());
                        lemma_quoted_append(eaten, item, single);
                        lemma_escape_free_split(eaten, item, single);
                        lemma_folded_char(dec, '\'');
                        assert(dec + quoted_decoded(item, single) =~= dec.push('\''));
                        dec = dec + quoted_decoded(item, single);
                        eaten = eaten + item;
                    }
                } else {
                    if self.input.next_char_is(
                        if single {
                            '\''
                        } else {
                            '"'
                        },
                    ) {
                        break;
                    }
                    if !single && self.input.next_char_is('\\') && is_break(
                        self.input.peek_nth(1),
                    ) {
                        self.input.lookahead(3);
                        self.skip_char();
                        let ghost mid = self.input.chars();
                        self.skip_line_break();
                        proof {
                            let k = rem.len() - self.input.chars().len();
                            let item = rem.take(k);
                            assert(rem.drop_first() == mid);
                            if nth_or_nul(mid, 0) == '\r' && nth_or_nul(mid, 1) == '\n' {
                                assert(k == 3);
                                assert(break_char(item[1]) && break_char(item[2]));
                            } else {
                                assert(k == 2);
                                assert(break_char(item[1]));
                            }
                            assert forall|i: int| 1 <= i < item.len() implies #[trigger] break_char(
                                item[i],
                            ) by {}
                            lemma_quoted_escaped_break(item);
                            let u = item.drop_first();
                            if k == 3 {
                                lemma_visible_push(Seq::<char>::empty(), u[0]);
                                lemma_visible_push(seq![u[0]], u[1]);
                                assert(seq![u[0]] =~= Seq::<char>::empty().push(u[0]));
                                assert(u =~= seq![u[0]].push(u[1]));
                            } else {
                                lemma_visible_push(Seq::<char>::empty(), u[0]);
                                assert(u =~= Seq::<char>::empty().push(u[0]));
                            }
                            assert(visible(before) + visible(u) =~= visible(before));
                            lemma_quoted_step(eaten, item, single, before, string@);
                            assert(rem =~= item + self.input.chars());
                            assert(inner0 =~= (eaten + item) + self.input.chars());
                            lemma_quoted_append(eaten, item, single);
                            lemma_escape_free_split(eaten, item, single);
                            assert(item[0] == '\\');
                            dec = dec + quoted_decoded(item, single);
                            eaten = eaten + item;
                        }
                        leading_blanks = true;
                        break;
                    } else if !single && self.input.next_char_is('\\') {
                        let escaped = self.scan_escape(start_mark, &mut string);
                        if let Err(e) = escaped {
                            return Err(e);
                        }
                        proof {
                            let k = rem.len() - self.input.chars().len();
                            let item = rem.take(k);
                            let x = string@.last();
                            assert(string@ == before.push(x));
                            lemma_quoted_escape(rem, k, x);
                            lemma_visible_push(before, x);
                            lemma_visible_push(Seq::<char>::empty(), x);
                            assert(seq![x] =~= Seq::<char>::empty().push(x));
                            if blank_char(x) || break_char(x) {
                                assert(visible(before) + visible(seq![x]) =~= visible(before));
                            } else {
                                assert(visible(before).push(x) =~= visible(before) + seq![x]);
                            }
                            lemma_quoted_step(eaten, item, single, before, string@);
                            assert(rem =~= item + self.input.chars());
                            assert(inner0 =~= (eaten + item) + self.input.chars());
                            lemma_quoted_append(eaten, item, single);
                            lemma_escape_free_split(eaten, item, single);
                            assert(item[0] == '\\');
                            dec = dec + quoted_decoded(item, single);
                            eaten = eaten + item;
                        }
                    } else {
                        self.read_char(&mut string);
                        proof {
                            let c = rem[0];
                            let item = rem.take(1);
                            assert(item =~= seq![c]);
                            assert forall|i: int| 0 <= i < item.len() implies if single {
                                #[trigger] item[i] != '\''
                            } else {
                                item[i] != '\\'
                            } by {
                                assert(item[i] == c);
                            }
                            lemma_quoted_plain(item, single);
                            lemma_visible_push(before, c);
                            lemma_visible_push(Seq::<char>::empty(), c);
                            assert(seq![c] =~= Seq::<char>::empty().push(c));
                            if blank_char(c) || break_char(c) {
                                assert(visible(before) + visible(seq![c]) =~= visible(before));
                            } else {
                                assert(visible(before).push(c) =~= visible(before) + seq![c]);
                            }
                            lemma_quoted_step(eaten, item, single, before, string@);
                            assert(rem =~= item + self.input.chars());
                            assert(inner0 =~= (eaten + item) + self.input.chars());
                            lemma_quoted_append(eaten, item, single);
                            lemma_escape_free_split(eaten, item, single);
                            lemma_folded_char(dec, c);
                            assert(dec + quoted_decoded(item, single) =~= dec.push(c));
                            dec = dec + quoted_decoded(item, single);
                            eaten = eaten + item;
                            if g {
                                assert(string@ =~= eaten);
                                assert(s0[eaten.len() as int] == c);
                                lemma_width_step(s0, eaten.len() as int);
                            }
                        }
                    }
                }
                self.input.lookahead(2);
            }
            self.input.lookahead(1);
            if self.input.next_char_is(
                if single {
                    '\''
                } else {
                    '"'
                },
            ) {
                break;
            }
            self.input.lookahead(1);
            let ghost must_consume = self.input.chars() == iter_chars;
            proof {
                cut = dec.len() as int;
                assert(dec.take(cut) =~= dec);
                assert(dec.skip(cut) =~= Seq::<char>::empty());
            }
            while self.input.next_is_blank() || self.input.next_is_break()
                invariant
                    escape_free(eaten, single) ==> 0 <= cut <= dec.len() && string@ == quoted_folded(
                        dec.take(cut),
                    ),
                    escape_free(eaten, single) ==> cut == 0 || !ws_char(dec[cut - 1]) || (cut == dec.len()
                        && !ws_char(self.ahead(0))),
                    escape_free(eaten, single) ==> forall|q: int| cut <= q < dec.len() ==> ws_char(#[trigger] dec[q]),
                    escape_free(eaten, single) && !leading_blanks ==> breaks_in(dec.skip(cut)).len() == 0
                        && whitespaces@ == dec.skip(cut) && leading_break@.len() == 0
                        && trailing_breaks@.len() == 0,
                    escape_free(eaten, single) && leading_blanks ==> breaks_in(dec.skip(cut)).len() > 0
                        && leading_break@ == seq![breaks_in(dec.skip(cut))[0]]
                        && trailing_breaks@ == breaks_in(dec.skip(cut)).drop_first()
                        && whitespaces@.len() == 0,
                    escape_free(eaten, single) && dec.len() > cut && dec.last() == '\r' ==> nth_or_nul(
                        self.input.chars(),
                        0,
                    ) != '\n',
                    dec == quoted_decoded(eaten, single),
                    start_mark == old(self).mark,
                    self.moved_on(old(self)),
                    self.input.chars().len() < old(self).input.chars().len(),
                    self.input.chars().len() <= iter_chars.len(),
                    must_consume ==> (self.input.chars().len() < iter_chars.len() || blank_char(
                        self.ahead(0),
                    ) || break_char(self.ahead(0))),
                    !must_consume ==> self.input.chars().len() < iter_chars.len(),
                    inner0 == eaten + self.input.chars(),
                    g ==> quoted_closes_at(inner0, single, nq) && eaten.len() <= nq && self.mark.column > 0,
                g == quoted_clear(inner0, single),
                h ==> quoted_runs_out_at(inner0, single, old(self).input.nul_ends_input(), nh) && eaten.len() <= nh && self.mark.column > 0,
                h == quoted_runs_out(inner0, single, old(self).input.nul_ends_input()),
                u ==> !single && quoted_bad_escape_at(inner0, nu) && eaten.len() <= nu && self.mark.column > 0,
                u == (!single && quoted_bad_escape(inner0)),
                g ==> !leading_blanks && string@ + whitespaces@ == eaten,
                g ==> self.mark.index == old(self).mark.index + width_of(s0.take(1 + eaten.len() as int)) && self.mark.line == old(self).mark.line && self.mark.column == old(self).mark.column + 1 + eaten.len(),
                s0 == old(self).input.chars(),
                inner0 == s0.drop_first(),
                    quoted_aligned(eaten, single),
                    visible(string@) == visible(quoted_decoded(eaten, single)),
                    visible(leading_break@).len() == 0,
                    visible(trailing_breaks@).len() == 0,
                    visible(whitespaces@).len() == 0,
                decreases self.input.chars().len(),
            {
                let ghost rem = self.input.chars();
                proof {
                    if g {
                        assert(rem[0] == inner0[eaten.len() as int]);
                    }
                    if h && eaten.len() < inner0.len() {
                        assert(rem[0] == inner0[eaten.len() as int]);
                    }
                    if u {
                        assert(rem[0] == inner0[eaten.len() as int]);
                    }
                }
                if self.input.next_is_blank() {
                    if leading_blanks {
                        self.skip_char();
                    } else {
                        let ghost pre_ws = whitespaces@;
                        self.read_char(&mut whitespaces);
                        proof {
                            lemma_visible_push(pre_ws, rem[0]);
                        }
                    }
                    proof {
                        let item = rem.take(1);
                        assert(item =~= seq![rem[0]]);
                        lemma_quoted_plain(item, single);
                        lemma_visible_push(Seq::<char>::empty(), rem[0]);
                        assert(item =~= Seq::<char>::empty().push(rem[0]));
                        assert(visible(string@) + visible(item) =~= visible(string@));
                        lemma_quoted_step(eaten, item, single, string@, string@);
                        assert(rem =~= item + self.input.chars());
                        assert(inner0 =~= (eaten + item) + self.input.chars());
                        lemma_quoted_append(eaten, item, single);
                        lemma_escape_free_split(eaten, item, single);
                        assert(item[0] == rem[0]);
                        assert(dec + quoted_decoded(item, single) =~= dec.push(rem[0]));
                        if escape_free(eaten + item, single) {
                            lemma_breaks_blank(dec.skip(cut), rem[0]);
                            assert(dec.push(rem[0]).skip(cut) =~= dec.skip(cut).push(rem[0]));
                            assert(dec.push(rem[0]).take(cut) =~= dec.take(cut));
                            assert forall|q: int| cut <= q < dec.push(rem[0]).len() implies ws_char(
                                #[trigger] dec.push(rem[0])[q],
                            ) by {
                                if q < dec.len() {
                                    assert(dec.push(rem[0])[q] == dec[q]);
                                }
                            }
                            if cut > 0 {
                                assert(dec.push(rem[0])[cut - 1] == dec[cut - 1]);
                            }
                        }
                        dec = dec + quoted_decoded(item, single);
                        eaten = eaten + item;
                        if g {
                            assert(string@ + whitespaces@ =~= eaten);
                            assert(s0[eaten.len() as int] == rem[0]);
                            lemma_width_step(s0, eaten.len() as int);
                        }
                    }
                } else {
                    self.input.lookahead(2);
                    if leading_blanks {
                        let ghost pre_tb = trailing_breaks@;
                        self.read_line_break(&mut trailing_breaks);
                        proof {
                            let taken = lemma_break_taken(
                                rem,
                                self.input.chars(),
                                pre_tb,
                                trailing_breaks@,
                            );
                            lemma_quoted_taken(taken, single);
                            assert(visible(string@) + visible(taken) =~= visible(string@));
                            lemma_quoted_step(eaten, taken, single, string@, string@);
                            assert(inner0 =~= (eaten + taken) + self.input.chars());
                            lemma_quoted_append(eaten, taken, single);
                            lemma_escape_free_split(eaten, taken, single);
                            if escape_free(eaten + taken, single) {
                                let w = dec.skip(cut);
                                if nth_or_nul(rem, 0) == '\r' && nth_or_nul(rem, 1) == '\n' {
                                    assert(taken =~= seq!['\r', '\n']);
                                } else {
                                    assert(taken =~= seq![rem[0]]);
                                    if w.len() > 0 {
                                        assert(w.last() == dec.last());
                                    }
                                }
                                lemma_breaks_taken(w, taken);
                                assert((dec + taken).skip(cut) =~= w + taken);
                                assert((dec + taken).take(cut) =~= dec.take(cut));
                                assert forall|q: int| cut <= q < (dec + taken).len() implies ws_char(
                                    #[trigger] (dec + taken)[q],
                                ) by {
                                    if q >= dec.len() {
                                        assert((dec + taken)[q] == taken[q - dec.len()]);
                                    } else {
                                        assert((dec + taken)[q] == dec[q]);
                                    }
                                }
                                let nb = breaks_in(w + taken);
                                assert(nb.drop_first() =~= breaks_in(w).drop_first().push(nb.last())
                                    || breaks_in(w).len() == 0);
                                if (dec + taken).last() == '\r' {
                                    assert(taken.len() == 1);
                                }
                                if cut > 0 {
                                    assert((dec + taken)[cut - 1] == dec[cut - 1]);
                                }
                            }
                            dec = dec + quoted_decoded(taken, single);
                            eaten = eaten + taken;
                        }
                    } else {
                        whitespaces.clear();
                        let ghost pre_lb = leading_break@;
                        self.read_line_break(&mut leading_break);
                        proof {
                            let taken = lemma_break_taken(
                                rem,
                                self.input.chars(),
                                pre_lb,
                                leading_break@,
                            );
                            lemma_quoted_taken(taken, single);
                            assert(visible(string@) + visible(taken) =~= visible(string@));
                            lemma_quoted_step(eaten, taken, single, string@, string@);
                            assert(inner0 =~= (eaten + taken) + self.input.chars());
                            lemma_quoted_append(eaten, taken, single);
                            lemma_escape_free_split(eaten, taken, single);
                            if escape_free(eaten + taken, single) {
                                let w = dec.skip(cut);
                                if nth_or_nul(rem, 0) == '\r' && nth_or_nul(rem, 1) == '\n' {
                                    assert(taken =~= seq!['\r', '\n']);
                                } else {
                                    assert(taken =~= seq![rem[0]]);
                                    if w.len() > 0 {
                                        assert(w.last() == dec.last());
                                    }
                                }
                                lemma_breaks_taken(w, taken);
                                assert((dec + taken).skip(cut) =~= w + taken);
                                assert((dec + taken).take(cut) =~= dec.take(cut));
                                assert forall|q: int| cut <= q < (dec + taken).len() implies ws_char(
                                    #[trigger] (dec + taken)[q],
                                ) by {
                                    if q >= dec.len() {
                                        assert((dec + taken)[q] == taken[q - dec.len()]);
                                    } else {
                                        assert((dec + taken)[q] == dec[q]);
                                    }
                                }
                                let nb = breaks_in(w + taken);
                                assert(nb.drop_first() =~= breaks_in(w).drop_first().push(nb.last())
                                    || breaks_in(w).len() == 0);
                                if (dec + taken).last() == '\r' {
                                    assert(taken.len() == 1);
                                }
                                if cut > 0 {
                                    assert((dec + taken)[cut - 1] == dec[cut - 1]);
                                }
                            }
                            dec = dec + quoted_decoded(taken, single);
                            eaten = eaten + taken;
                        }
                        leading_blanks = true;
                    }
                }
                self.input.lookahead(1);
            }
            let ghost pre_fold = string@;
            proof {
                if escape_free(eaten, single) {
                    let w = dec.skip(cut);
                    assert(dec =~= dec.take(cut) + w);
                    if w.len() == 0 {
                        assert(dec.take(cut) =~= dec);
                        assert(breaks_in(w).len() == 0);
                        assert(quoted_folded(dec.take(cut)) + folded_gap(w) =~= quoted_folded(dec));
                    } else {
                        assert(dec.take(cut).len() == 0 || dec.take(cut).last() == dec[cut - 1]);
                        lemma_folded_run(dec.take(cut), w);
                    }
                    let bw = breaks_in(w);
                    if bw.len() > 0 {
                        assert(bw =~= seq![bw[0]] + bw.drop_first());
                    }
                }
            }
            if leading_blanks {
                if str_first(leading_break.as_str()) == '\n' {
                    if trailing_breaks.is_empty() {
                        proof {
                            lemma_visible_push(string@, ' ');
                        }
                        string.push(' ');
                    } else {
                        proof {
                            lemma_visible_add_invisible(string@, trailing_breaks@);
                        }
                        string.push_str(trailing_breaks.as_str());
                        trailing_breaks.clear();
                    }
                    leading_break.clear();
                } else {
                    proof {
                        lemma_visible_add_invisible(string@, leading_break@);
                        lemma_visible_add_invisible(string@ + leading_break@, trailing_breaks@);
                    }
                    string.push_str(leading_break.as_str());
                    string.push_str(trailing_breaks.as_str());
                    leading_break.clear();
                    trailing_breaks.clear();
                }
            } else {
                proof {
                    lemma_visible_add_invisible(string@, whitespaces@);
                }
                string.push_str(whitespaces.as_str());
                whitespaces.clear();
                proof {
                    if g {
                        assert(string@ =~= eaten);
                    }
                }
            }
            proof {
                if escape_free(eaten, single) {
                    let w = dec.skip(cut);
                    assert(string@ =~= pre_fold + folded_gap(w));
                }
            }
        }

        let ghost rest = self.input.chars();
        proof {
            if u {
                assert(rest[0] == inner0[eaten.len() as int]);
                assert(false);
            }
            if h {
                if eaten.len() < inner0.len() {
                    assert(rest[0] == inner0[eaten.len() as int]);
                }
                assert(false);
            }
        }
        self.skip_char();
        let end_mark: Mark = self.mark;
        proof {
            let n = s0.len() - self.input.chars().len();
            assert(n == eaten.len() + 2);
            assert(s0.subrange(1, n - 1) =~= eaten);
            assert(inner0[eaten.len() as int] == rest[0]);
            assert(s0[n - 1] == inner0[n - 2]);
            if g {
                assert(s0[n - 1] == rest[0]);
                lemma_width_step(s0, n - 1);
            }
        }
        Ok(
            Token {
                data: TokenData::Scalar {
                    value: string,
                    style: if single {
                        ScalarStyle::SingleQuoted
                    } else {
                        ScalarStyle::DoubleQuoted
                    },
                },
                start_mark,
                end_mark,
            },
        )
    }

    /// Read an escape sequence of a double-quoted scalar (the input is at a
    /// backslash that does not precede a line break) and append what it
    /// stands for.
    fn scan_escape(&mut self, start_mark: Mark, string: &mut String) -> (r: Result<()>)
        requires
            old(self).wf(),
            old(self).ahead(0) == '\\',
        ensures
            final(self).moved_on(old(self)),
            r matches Err(e) ==> e.context == "while parsing a quoted scalar" && e.context_mark
                == start_mark,
            r is Ok ==> final(self).input.chars().len() < old(self).input.chars().len(),
            ({
                let s = old(self).input.chars();
                let e = nth_or_nul(s, 1);
                let l = escape_code_len(e);
                let digits = escape_digits(s, l);
                &&& simple_escape(e) is Some ==> {
                    &&& r is Ok
                    &&& final(string)@ == old(string)@.push(simple_escape(e)->0)
                    &&& final(self).input.chars() == s.skip(2)
                }
                &&& simple_escape(e) is None && l == 0 ==> r == Err::<(), Error>(
                    Error::scanner_spec(
                        "while parsing a quoted scalar",
                        start_mark,
                        "found unknown escape character",
                        old(self).mark,
                    ),
                )
                &&& l > 0 && r is Ok ==> forall|j: int| 0 <= j < l ==> hex_char(
                    #[trigger] digits[j],
                )
                &&& l > 0 && r is Ok ==> is_char_value(hex_number(digits) as u32)
                &&& l > 0 && r is Err ==> !is_char_value(hex_number(digits) as u32) || exists|
                    j: int,
                | 0 <= j < l && !hex_char(#[trigger] digits[j])
                &&& l > 0 && r is Ok ==> {
                    &&& final(string)@ == old(string)@.push(hex_number(digits) as char)
                    &&& final(self).input.chars() == s.skip(2 + l)
                }
            }),
    {
        let ghost s = self.input.chars();
        let mut code_length = 0usize;
        match self.input.peek_nth(1) {
            '0' => {
                string.push('\0');
            },
            'a' => {
                string.push('\x07');
            },
            'b' => {
                string.push('\x08');
            },
            't' | '\t' => {
                string.push('\t');
            },
            'n' => {
                string.push('\n');
            },
            'v' => {
                string.push('\x0B');
            },
            'f' => {
                string.push('\x0C');
            },
            'r' => {
                string.push('\r');
            },
            'e' => {
                string.push('\x1B');
            },
            ' ' => {
                string.push(' ');
            },
            '"' => {
                string.push('"');
            },
            '/' => {
                string.push('/');
            },
            '\\' => {
                string.push('\\');
            },
            // NEL (#x85)
            'N' => {
                string.push('\u{0085}');
            },
            // #xA0
            '_' => {
                string.push('\u{00a0}');
            },
            // LS (#x2028)
            'L' => {
                string.push('\u{2028}');
            },
            // PS (#x2029)
            'P' => {
                string.push('\u{2029}');
            },
            'x' => {
                code_length = 2;
            },
            'u' => {
                code_length = 4;
            },
            'U' => {
                code_length = 8;
            },
            _ => {
                return self.set_scanner_error(
                    "while parsing a quoted scalar",
                    start_mark,
                    "found unknown escape character",
                );
            },
        }
        self.skip_char();
        self.skip_char();
        proof {
            assert(s.drop_first().drop_first() =~= s.skip(2));
        }
        if code_length != 0 {
            let mut value: u32 = 0;
            let mut k: usize = 0;
            self.input.lookahead(code_length);
            let ghost s1 = self.input.chars();
            let ghost l = escape_code_len(nth_or_nul(s, 1));
            proof {
                assert(Seq::new(0, |j: int| nth_or_nul(s, 2 + j)) =~= Seq::<char>::empty());
            }
            while k < code_length
                invariant
                    self.moved_on(old(self)),
                    self.input.chars().len() < old(self).input.chars().len(),
                    self.input.chars() == s1,
                    s1 == s.skip(2),
                    s == old(self).input.chars(),
                    simple_escape(nth_or_nul(s, 1)) is None,
                    l == escape_code_len(nth_or_nul(s, 1)),
                    s.len() >= 2,
                    code_length == l,
                    code_length <= 8,
                    k <= code_length,
                    value < pow16(k as nat),
                    value == hex_number(Seq::new(k as nat, |j: int| nth_or_nul(s, 2 + j))),
                    forall|j: int| 0 <= j < k ==> hex_char(#[trigger] nth_or_nul(s1, j)),
                    forall|j: int| 0 <= j < k ==> hex_char(#[trigger] escape_digits(s, l)[j]),
                decreases code_length - k,
            {
                proof {
                    assert(nth_or_nul(s1, k as int) == nth_or_nul(s, 2 + k));
                }
                if !is_hex(self.input.peek_nth(k)) {
                    proof {
                        assert(!hex_char(escape_digits(s, l)[k as int]));
                    }
                    return self.set_scanner_error(
                        "while parsing a quoted scalar",
                        start_mark,
                        "did not find expected hexdecimal number",
                    );
                }
                let digit = as_hex(self.input.peek_nth(k));
                proof {
                    lemma_pow16_bound(k as nat);
                    assert(pow16(k as nat + 1) == 16 * pow16(k as nat));
                    assert(value < 0x1000_0000 ==> value << 4 == value * 16) by (bit_vector);
                    let f = |j: int| nth_or_nul(s, 2 + j);
                    assert(Seq::new(k as nat + 1, f).drop_last() =~= Seq::new(k as nat, f));
                    assert(Seq::new(k as nat + 1, f).last() == nth_or_nul(s, 2 + k));
                    assert(escape_digits(s, l)[k as int] == nth_or_nul(s, 2 + k));
                }
                value = (value << 4) + digit;
                k += 1;
            }
            proof {
                assert(Seq::new(k as nat, |j: int| nth_or_nul(s, 2 + j)) =~= escape_digits(s, l));
            }
            if let Some(ch) = core::char::from_u32(value) {
                proof {
                    vstd::utf8::char_u32_cast(ch, value);
                }
                string.push(ch);
            } else {
                return self.set_scanner_error(
                    "while parsing a quoted scalar",
                    start_mark,
                    "found invalid Unicode character escape code",
                );
            }

            proof {
                assert(nth_or_nul(s1, code_length - 1) != '\0');
            }
            k = 0;
            while k < code_length
                invariant
                    self.moved_on(old(self)),
                    self.input.chars().len() < old(self).input.chars().len(),
                    code_length <= s1.len(),
                    k <= code_length,
                    self.input.chars() == s1.skip(k as int),
                decreases code_length - k,
            {
                self.skip_char();
                proof {
                    assert(s1.skip(k as int).drop_first() =~= s1.skip(k + 1));
                }
                k += 1;
            }
            proof {
                assert(s1.skip(code_length as int) =~= s.skip(2 + code_length));
            }
        }
        Ok(())
    }

    /// What a plain scalar may start with: not the end, a whitespace, a line
    /// break or a comment, not a value indicator followed by a separator, no
    /// `:` or flow indicator inside a flow collection, and no document marker
    /// at the start of a line.
    closed spec fn plain_start(&self) -> bool {
        let c = self.ahead(0);
        &&& !self.at_end()
        &&& !blank_char(c)
        &&& !break_char(c)
        &&& c != '#'
        &&& !(c == ':' && blankz_char(self.ahead(1)))
        &&& !(self.flow_level != 0 && (c == ':' || flow_char(c)))
        &&& !(self.mark.column == 0 && self.at_document_indicator())
    }

    #[verifier::rlimit(100)]
    #[verifier::spinoff_prover]
    fn scan_plain_scalar(&mut self) -> (r: Result<Token>)
        requires
            old(self).wf_loose(),
            old(self).plain_start(),
        ensures
            final(self).wf(),
            final(self).stream_start_produced == old(self).stream_start_produced,
            final(self).stream_end_produced == old(self).stream_end_produced,
            final(self).flow_level == old(self).flow_level,
            final(self).tokens@ == old(self).tokens@,
            final(self).tokens_parsed == old(self).tokens_parsed,
            final(self).token_available == old(self).token_available,
            final(self).indents@ == old(self).indents@,
            final(self).indent == old(self).indent,
            final(self).simple_keys@ == old(self).simple_keys@,
            final(self).last_start == old(self).last_start,
            final(self).simple_key_allowed == old(self).simple_key_allowed
                || final(self).simple_key_allowed,
            final(self).input.nul_ends_input() == old(self).input.nul_ends_input(),
            mark_not_after(old(self).mark, final(self).mark),
            final(self).input.chars().len() < old(self).input.chars().len(),
            r matches Ok(t) ==> t.start_mark == old(self).mark && t.data is Scalar && (
            t.data->style == ScalarStyle::Plain),
            r matches Ok(t) ==> token_within(t, final(self).mark),
            plain_clear(old(self).input.chars(), old(self).flow_level != 0) ==> r is Ok,
            r is Ok ==> forall|p: int|
                0 <= p < old(self).input.chars().len() - final(self).input.chars().len()
                    && line_start_at(old(self).input.chars(), p, old(self).mark.column == 0)
                    ==> !#[trigger] marker_at(old(self).input.chars(), p),
            r is Ok ==> forall|p: int|
                0 <= p < old(self).input.chars().len() - final(self).input.chars().len()
                    ==> !#[trigger] plain_stop_at(old(self).input.chars(), p, old(self).in_flow()),
            r matches Ok(t) ==> t.data->Scalar_value@ == plain_value(
                old(self).input.chars().take(
                    old(self).input.chars().len() - final(self).input.chars().len(),
                ),
            ),
            r matches Ok(t) ==> visible(t.data->Scalar_value@) == visible(
                old(self).input.chars().take(
                    old(self).input.chars().len() - final(self).input.chars().len(),
                ),
            ),
            r matches Err(e) ==> e.context == "while scanning a plain scalar" && e.context_mark
                == old(self).mark && (e.problem == "found unexpected ':'" || e.problem
                == "found a tab character that violates indentation"),
    {
        let mut end_mark: Mark;
        let mut string = String::new();
        let mut leading_break = String::new();
        let mut trailing_breaks = String::new();
        let mut whitespaces = String::new();
        let mut leading_blanks = false;
        let indent: i32 = self.indent + 1;
        end_mark = self.mark;
        let start_mark: Mark = end_mark;
        let ghost mut first = true;
        let ghost s0 = self.input.chars();
        let ghost mut eaten: Seq<char> = Seq::empty();
        let ghost mut cut: int = 0;
        proof {
            assert(s0 =~= eaten + self.input.chars());
        }
        loop
            invariant
                self.wf_loose(),
                self.same_state(old(self)),
                self.input.nul_ends_input() == old(self).input.nul_ends_input(),
                mark_not_after(old(self).mark, self.mark),
                self.input.chars().len() <= old(self).input.chars().len(),
                s0 == old(self).input.chars(),
                first ==> *self == *old(self) && !leading_blanks && whitespaces@.len() == 0,
                !first ==> self.wf() && self.input.chars().len() < old(self).input.chars().len(),
                old(self).plain_start(),
                old(self).wf_loose(),
                start_mark == old(self).mark,
                mark_not_after(start_mark, end_mark),
                mark_not_after(end_mark, self.mark),
                s0 == eaten + self.input.chars(),
                s0 == old(self).input.chars(),
                visible(string@) == visible(eaten),
                0 <= cut <= eaten.len(),
                cut == 0 || !ws_char(eaten[cut - 1]),
                forall|q: int| cut <= q < eaten.len() ==> ws_char(#[trigger] eaten[q]),
                string@ == plain_value(eaten.take(cut)),
                eaten.len() > 0 && break_char(eaten.last()) ==> self.mark.column == 0,
                forall|p: int| 0 <= p < eaten.len() && line_start_at(s0, p, old(self).mark.column == 0) ==> !#[trigger] marker_at(s0, p),
                forall|p: int| 0 <= p < eaten.len() ==> !#[trigger] plain_stop_at(s0, p, old(self).in_flow()),
                !leading_blanks ==> breaks_in(eaten.skip(cut)).len() == 0 && whitespaces@ == eaten.skip(cut) && leading_break@.len() == 0 && trailing_breaks@.len() == 0,
                leading_blanks ==> breaks_in(eaten.skip(cut)).len() > 0 && leading_break@ == seq![breaks_in(eaten.skip(cut))[0]] && trailing_breaks@ == breaks_in(eaten.skip(cut)).drop_first() && whitespaces@.len() == 0,
                eaten.len() > cut && eaten.last() == '\r' ==> nth_or_nul(self.input.chars(), 0) != '\n',
                visible(leading_break@).len() == 0,
                visible(trailing_breaks@).len() == 0,
                visible(whitespaces@).len() == 0,
            ensures
                self.wf(),
                self.same_state(old(self)),
                self.input.nul_ends_input() == old(self).input.nul_ends_input(),
                mark_not_after(old(self).mark, self.mark),
                self.input.chars().len() < old(self).input.chars().len(),
                mark_not_after(start_mark, end_mark),
                mark_not_after(end_mark, self.mark),
                s0 == eaten + self.input.chars(),
                s0 == old(self).input.chars(),
                visible(string@) == visible(eaten),
                0 <= cut <= eaten.len(),
                cut == 0 || !ws_char(eaten[cut - 1]),
                forall|q: int| cut <= q < eaten.len() ==> ws_char(#[trigger] eaten[q]),
                string@ == plain_value(eaten.take(cut)),
                eaten.len() > 0 && break_char(eaten.last()) ==> self.mark.column == 0,
                forall|p: int| 0 <= p < eaten.len() && line_start_at(s0, p, old(self).mark.column == 0) ==> !#[trigger] marker_at(s0, p),
                forall|p: int| 0 <= p < eaten.len() ==> !#[trigger] plain_stop_at(s0, p, old(self).in_flow()),
                !leading_blanks ==> breaks_in(eaten.skip(cut)).len() == 0 && whitespaces@ == eaten.skip(cut) && leading_break@.len() == 0 && trailing_breaks@.len() == 0,
                leading_blanks ==> breaks_in(eaten.skip(cut)).len() > 0 && leading_break@ == seq![breaks_in(eaten.skip(cut))[0]] && trailing_breaks@ == breaks_in(eaten.skip(cut)).drop_first() && whitespaces@.len() == 0,
                eaten.len() > cut && eaten.last() == '\r' ==> nth_or_nul(self.input.chars(), 0) != '\n',
                visible(leading_break@).len() == 0,
                visible(trailing_breaks@).len() == 0,
                visible(whitespaces@).len() == 0,
            decreases self.input.chars().len(), if first {
                1int
            } else {
                0int
            },
        {
            let ghost iter_chars = self.input.chars();
            proof {
                assert(self.input.chars() =~= s0.skip(eaten.len() as int));
                if eaten.len() > 0 {
                    assert(s0[eaten.len() - 1] == eaten.last());
                }
            }
            self.input.lookahead(4);
            if self.mark.column == 0 && (self.input.nth_char_is(0, '-') && self.input.nth_char_is(
                1,
                '-',
            ) && self.input.nth_char_is(2, '-') || self.input.nth_char_is(0, '.')
                && self.input.nth_char_is(1, '.') && self.input.nth_char_is(2, '.'))
                && is_blank_or_breakz(self.input.peek_nth(3)) {
                break;
            }
            if self.input.next_char_is('#') {
                break;
            }
            while !self.input.next_is_blank_or_breakz()
                invariant
                    self.wf_loose(),
                    self.same_state(old(self)),
                    self.input.nul_ends_input() == old(self).input.nul_ends_input(),
                    mark_not_after(old(self).mark, self.mark),
                    self.input.chars().len() <= iter_chars.len(),
                    iter_chars.len() <= old(self).input.chars().len(),
                    first ==> (self.input.chars() == s0 ==> self.mark == old(self).mark
                        && !leading_blanks && whitespaces@.len() == 0),
                    first ==> (self.input.chars() == s0 || (self.wf()
                        && self.input.chars().len() < old(self).input.chars().len())),
                    first ==> iter_chars == s0,
                    first && self.input.chars() == s0 ==> self.plain_start(),
                    !first ==> self.wf() && self.input.chars().len() < old(self).input.chars().len(),
                    old(self).plain_start(),
                    old(self).wf_loose(),
                    start_mark == old(self).mark,
                    mark_not_after(start_mark, end_mark),
                    mark_not_after(end_mark, self.mark),
                    s0 == eaten + self.input.chars(),
                    s0 == old(self).input.chars(),
                    visible(string@) == visible(eaten),
                    0 <= cut <= eaten.len(),
                    cut == 0 || !ws_char(eaten[cut - 1]),
                    forall|q: int| cut <= q < eaten.len() ==> ws_char(#[trigger] eaten[q]),
                    string@ == plain_value(eaten.take(cut)),
                    eaten.len() > 0 && break_char(eaten.last()) ==> self.mark.column == 0,
                    forall|p: int| 0 <= p < eaten.len() && line_start_at(s0, p, old(self).mark.column == 0) ==> !#[trigger] marker_at(s0, p),
                    forall|p: int| 0 <= p < eaten.len() ==> !#[trigger] plain_stop_at(s0, p, old(self).in_flow()),
                    eaten.len() > 0 && ws_char(eaten.last()) ==> nth_or_nul(self.input.chars(), 0) != '#',
                    line_start_at(s0, eaten.len() as int, old(self).mark.column == 0) ==> !marker_at(s0, eaten.len() as int),
                    !leading_blanks ==> breaks_in(eaten.skip(cut)).len() == 0 && whitespaces@ == eaten.skip(cut) && leading_break@.len() == 0 && trailing_breaks@.len() == 0,
                    leading_blanks ==> breaks_in(eaten.skip(cut)).len() > 0 && leading_break@ == seq![breaks_in(eaten.skip(cut))[0]] && trailing_breaks@ == breaks_in(eaten.skip(cut)).drop_first() && whitespaces@.len() == 0,
                    eaten.len() > cut && eaten.last() == '\r' ==> nth_or_nul(self.input.chars(), 0) != '\n',
                    visible(leading_break@).len() == 0,
                    visible(trailing_breaks@).len() == 0,
                    visible(whitespaces@).len() == 0,
                ensures
                    self.wf(),
                    self.same_state(old(self)),
                    self.input.nul_ends_input() == old(self).input.nul_ends_input(),
                    mark_not_after(old(self).mark, self.mark),
                    self.input.chars().len() <= iter_chars.len(),
                    self.input.chars().len() < old(self).input.chars().len(),
                    mark_not_after(start_mark, end_mark),
                    mark_not_after(end_mark, self.mark),
                    s0 == eaten + self.input.chars(),
                    s0 == old(self).input.chars(),
                    visible(string@) == visible(eaten),
                    0 <= cut <= eaten.len(),
                    cut == 0 || !ws_char(eaten[cut - 1]),
                    forall|q: int| cut <= q < eaten.len() ==> ws_char(#[trigger] eaten[q]),
                    string@ == plain_value(eaten.take(cut)),
                    eaten.len() > 0 && break_char(eaten.last()) ==> self.mark.column == 0,
                    forall|p: int| 0 <= p < eaten.len() && line_start_at(s0, p, old(self).mark.column == 0) ==> !#[trigger] marker_at(s0, p),
                    forall|p: int| 0 <= p < eaten.len() ==> !#[trigger] plain_stop_at(s0, p, old(self).in_flow()),
                    !leading_blanks ==> breaks_in(eaten.skip(cut)).len() == 0 && whitespaces@ == eaten.skip(cut) && leading_break@.len() == 0 && trailing_breaks@.len() == 0,
                    leading_blanks ==> breaks_in(eaten.skip(cut)).len() > 0 && leading_break@ == seq![breaks_in(eaten.skip(cut))[0]] && trailing_breaks@ == breaks_in(eaten.skip(cut)).drop_first() && whitespaces@.len() == 0,
                    eaten.len() > cut && eaten.last() == '\r' ==> nth_or_nul(self.input.chars(), 0) != '\n',
                    visible(leading_break@).len() == 0,
                    visible(trailing_breaks@).len() == 0,
                    visible(whitespaces@).len() == 0,
                decreases self.input.chars().len(),
            {
                if self.flow_level != 0 && self.input.next_char_is(':') && (self.input.nth_char_is(
                    1,
                    ',',
                ) || self.input.nth_char_is(1, '?') || self.input.nth_char_is(1, '[')
                    || self.input.nth_char_is(1, ']') || self.input.nth_char_is(1, '{')
                    || self.input.nth_char_is(1, '}')) {
                    proof {
                        let e = eaten.len() as int;
                        assert(s0[e] == self.input.chars()[0]);
                        assert(nth_or_nul(s0, e + 1) == nth_or_nul(self.input.chars(), 1));
                        assert(self.flow_level == old(self).flow_level);
                    }
                    return self.set_scanner_error(
                        "while scanning a plain scalar",
                        start_mark,
                        "found unexpected ':'",
                    );
                }
                if self.input.next_char_is(':') && is_blank_or_breakz(self.input.peek_nth(1))
                    || self.flow_level != 0 && (self.input.next_char_is(',')
                    || self.input.next_char_is('[') || self.input.next_char_is(']')
                    || self.input.next_char_is('{') || self.input.next_char_is('}')) {
                    break;
                }
                let ghost pre_join = string@;
                let ghost wg = eaten.skip(cut);
                let ghost c_part = eaten.take(cut);
                if leading_blanks || !whitespaces.is_empty() {
                    if leading_blanks {
                        if str_first(leading_break.as_str()) == '\n' {
                            if trailing_breaks.is_empty() {
                                proof {
                                    lemma_visible_push(string@, ' ');
                                }
                                string.push(' ');
                            } else {
                                proof {
                                    lemma_visible_add_invisible(string@, trailing_breaks@);
                                }
                                string.push_str(trailing_breaks.as_str());
                                trailing_breaks.clear();
                            }
                            leading_break.clear();
                        } else {
                            proof {
                                lemma_visible_add_invisible(string@, leading_break@);
                                lemma_visible_add_invisible(
                                    string@ + leading_break@,
                                    trailing_breaks@,
                                );
                            }
                            string.push_str(leading_break.as_str());
                            string.push_str(trailing_breaks.as_str());
                            leading_break.clear();
                            trailing_breaks.clear();
                        }
                        leading_blanks = false;
                    } else {
                        proof {
                            lemma_visible_add_invisible(string@, whitespaces@);
                        }
                        string.push_str(whitespaces.as_str());
                        whitespaces.clear();
                    }
                }
                proof {
                    let bw = breaks_in(wg);
                    if bw.len() > 0 {
                        assert(bw =~= seq![bw[0]] + bw.drop_first());
                    }
                    assert(string@ =~= pre_join + folded_gap(wg));
                }
                let ghost pre = self.input.chars();
                let ghost pre_string = string@;
                self.read_char(&mut string);
                proof {
                    lemma_visible_push(eaten, pre[0]);
                    lemma_visible_push(pre_string, pre[0]);
                    assert(eaten =~= c_part + wg);
                    lemma_plain_value_step(c_part, wg, pre[0]);
                    assert(eaten.push(pre[0]) =~= c_part + wg + seq![pre[0]]);
                    assert(s0[eaten.len() as int] == pre[0]);
                    assert(nth_or_nul(s0, eaten.len() + 1 as int) == nth_or_nul(pre, 1));
                    if eaten.len() > 0 {
                        assert(s0[eaten.len() - 1] == eaten.last());
                    }
                    assert(!plain_stop_at(s0, eaten.len() as int, old(self).in_flow()));
                    assert forall|p: int| 0 <= p < eaten.len() + 1 implies !#[trigger] plain_stop_at(
                        s0,
                        p,
                        old(self).in_flow(),
                    ) by {
                        if p == eaten.len() {
                        }
                    }
                    eaten = eaten.push(pre[0]);
                    cut = eaten.len() as int;
                    assert(s0[eaten.len() - 1] == pre[0]);
                    assert(eaten.take(cut) =~= eaten);
                    assert(eaten.skip(cut) =~= Seq::<char>::empty());
                    assert(s0 =~= eaten + self.input.chars());
                }
                end_mark = self.mark;
                self.input.lookahead(2);
                proof {
                    Self::lemma_ok_is_loose(self);
                }
            }
            proof {
                first = false;
            }
            if !(self.input.next_is_blank() || self.input.next_is_break()) {
                break;
            }
            self.input.lookahead(1);
            let ghost pre_blank = self.input.chars().len();

            while self.input.next_is_blank() || self.input.next_is_break()
                invariant
                    self.wf(),
                    self.same_state(old(self)),
                    self.input.nul_ends_input() == old(self).input.nul_ends_input(),
                    mark_not_after(old(self).mark, self.mark),
                    self.input.chars().len() < old(self).input.chars().len(),
                    pre_blank <= iter_chars.len(),
                    self.input.chars().len() < pre_blank || (self.input.chars().len() == pre_blank
                        && (blank_char(self.ahead(0)) || break_char(self.ahead(0)))),
                    !first,
                    old(self).plain_start(),
                    old(self).wf_loose(),
                    start_mark == old(self).mark,
                    mark_not_after(start_mark, end_mark),
                    mark_not_after(end_mark, self.mark),
                    s0 == eaten + self.input.chars(),
                    s0 == old(self).input.chars(),
                    visible(string@) == visible(eaten),
                    0 <= cut <= eaten.len(),
                    cut == 0 || !ws_char(eaten[cut - 1]),
                    forall|q: int| cut <= q < eaten.len() ==> ws_char(#[trigger] eaten[q]),
                    string@ == plain_value(eaten.take(cut)),
                    eaten.len() > 0 && break_char(eaten.last()) ==> self.mark.column == 0,
                    forall|p: int| 0 <= p < eaten.len() && line_start_at(s0, p, old(self).mark.column == 0) ==> !#[trigger] marker_at(s0, p),
                    forall|p: int| 0 <= p < eaten.len() ==> !#[trigger] plain_stop_at(s0, p, old(self).in_flow()),
                    !leading_blanks ==> breaks_in(eaten.skip(cut)).len() == 0 && whitespaces@ == eaten.skip(cut) && leading_break@.len() == 0 && trailing_breaks@.len() == 0,
                    leading_blanks ==> breaks_in(eaten.skip(cut)).len() > 0 && leading_break@ == seq![breaks_in(eaten.skip(cut))[0]] && trailing_breaks@ == breaks_in(eaten.skip(cut)).drop_first() && whitespaces@.len() == 0,
                    eaten.len() > cut && eaten.last() == '\r' ==> nth_or_nul(self.input.chars(), 0) != '\n',
                    visible(leading_break@).len() == 0,
                    visible(trailing_breaks@).len() == 0,
                    visible(whitespaces@).len() == 0,
                decreases self.input.chars().len(),
            {
                if self.input.next_is_blank() {
                    if leading_blanks && (self.mark.column as i32) < indent
                        && self.input.next_char_is('\t') {
                        proof {
                            let e = eaten.len() as int;
                            assert(s0[e] == self.input.chars()[0]);
                            assert(s0.contains('\t'));
                        }
                        return self.set_scanner_error(
                            "while scanning a plain scalar",
                            start_mark,
                            "found a tab character that violates indentation",
                        );
                    } else if !leading_blanks {
                        let ghost pre = self.input.chars();
                        let ghost pre_ws = whitespaces@;
                        self.read_char(&mut whitespaces);
                        proof {
                            lemma_visible_push(eaten, pre[0]);
                            lemma_visible_push(pre_ws, pre[0]);
                            lemma_breaks_blank(eaten.skip(cut), pre[0]);
                            assert(eaten.push(pre[0]).skip(cut) =~= eaten.skip(cut).push(pre[0]));
                            assert(eaten.push(pre[0]).take(cut) =~= eaten.take(cut));
                            assert(s0[eaten.len() as int] == pre[0]);
                            lemma_ws_no_marker(s0, eaten.len() as int);
                            assert(!plain_stop_at(s0, eaten.len() as int, old(self).in_flow()));
                            assert forall|p: int| 0 <= p < eaten.len() + 1 implies !#[trigger] plain_stop_at(
                                s0,
                                p,
                                old(self).in_flow(),
                            ) by {
                                if p == eaten.len() {
                                }
                            }
                            eaten = eaten.push(pre[0]);
                            assert(s0 =~= eaten + self.input.chars());
                        }
                    } else {
                        let ghost pre = self.input.chars();
                        self.skip_char();
                        proof {
                            lemma_visible_push(eaten, pre[0]);
                            lemma_breaks_blank(eaten.skip(cut), pre[0]);
                            assert(eaten.push(pre[0]).skip(cut) =~= eaten.skip(cut).push(pre[0]));
                            assert(eaten.push(pre[0]).take(cut) =~= eaten.take(cut));
                            assert(s0[eaten.len() as int] == pre[0]);
                            lemma_ws_no_marker(s0, eaten.len() as int);
                            assert(!plain_stop_at(s0, eaten.len() as int, old(self).in_flow()));
                            assert forall|p: int| 0 <= p < eaten.len() + 1 implies !#[trigger] plain_stop_at(
                                s0,
                                p,
                                old(self).in_flow(),
                            ) by {
                                if p == eaten.len() {
                                }
                            }
                            eaten = eaten.push(pre[0]);
                            assert(s0 =~= eaten + self.input.chars());
                        }
                    }
                } else {
                    self.input.lookahead(2);

                    if leading_blanks {
                        let ghost pre = self.input.chars();
                        let ghost pre_tb = trailing_breaks@;
                        self.read_line_break(&mut trailing_breaks);
                        proof {
                            let taken = lemma_break_taken(
                                pre,
                                self.input.chars(),
                                pre_tb,
                                trailing_breaks@,
                            );
                            lemma_visible_add_invisible(eaten, taken);
                            assert(s0 =~= (eaten + taken) + self.input.chars());
                            let w = eaten.skip(cut);
                            if nth_or_nul(pre, 0) == '\r' && nth_or_nul(pre, 1) == '\n' {
                                assert(taken =~= seq!['\r', '\n']);
                            } else {
                                assert(taken =~= seq![pre[0]]);
                                if w.len() > 0 {
                                    assert(w.last() == eaten.last());
                                }
                            }
                            lemma_breaks_taken(w, taken);
                            assert((eaten + taken).skip(cut) =~= w + taken);
                            assert((eaten + taken).take(cut) =~= eaten.take(cut));
                            assert forall|q: int| cut <= q < (eaten + taken).len() implies ws_char(
                                #[trigger] (eaten + taken)[q],
                            ) by {
                                if q >= eaten.len() {
                                    assert((eaten + taken)[q] == taken[q - eaten.len()]);
                                }
                            }
                            let nb = breaks_in(w + taken);
                            assert(nb.drop_first() =~= breaks_in(w).drop_first().push(nb.last())
                                || breaks_in(w).len() == 0);
                            if (eaten + taken).last() == '\r' {
                                assert(taken.len() == 1);
                            }
                            assert(s0[eaten.len() as int] == pre[0]);
                            lemma_ws_no_marker(s0, eaten.len() as int);
                            if taken.len() == 2 {
                                assert(s0[eaten.len() + 1 as int] == pre[1]);
                                lemma_ws_no_marker(s0, eaten.len() + 1 as int);
                            }
                            assert forall|p: int| 0 <= p < eaten.len() + taken.len() implies !#[trigger] plain_stop_at(
                                s0,
                                p,
                                old(self).in_flow(),
                            ) by {
                                if p >= eaten.len() {
                                    assert(s0[p] == taken[p - eaten.len()]);
                                    assert(ws_char(taken[p - eaten.len()]));
                                }
                            }
                            eaten = eaten + taken;
                        }
                    } else {
                        whitespaces.clear();
                        let ghost pre = self.input.chars();
                        let ghost pre_lb = leading_break@;
                        self.read_line_break(&mut leading_break);
                        proof {
                            let taken = lemma_break_taken(
                                pre,
                                self.input.chars(),
                                pre_lb,
                                leading_break@,
                            );
                            lemma_visible_add_invisible(eaten, taken);
                            assert(s0 =~= (eaten + taken) + self.input.chars());
                            let w = eaten.skip(cut);
                            if nth_or_nul(pre, 0) == '\r' && nth_or_nul(pre, 1) == '\n' {
                                assert(taken =~= seq!['\r', '\n']);
                            } else {
                                assert(taken =~= seq![pre[0]]);
                                if w.len() > 0 {
                                    assert(w.last() == eaten.last());
                                }
                            }
                            lemma_breaks_taken(w, taken);
                            assert((eaten + taken).skip(cut) =~= w + taken);
                            assert((eaten + taken).take(cut) =~= eaten.take(cut));
                            assert forall|q: int| cut <= q < (eaten + taken).len() implies ws_char(
                                #[trigger] (eaten + taken)[q],
                            ) by {
                                if q >= eaten.len() {
                                    assert((eaten + taken)[q] == taken[q - eaten.len()]);
                                }
                            }
                            let nb = breaks_in(w + taken);
                            assert(nb.drop_first() =~= breaks_in(w).drop_first().push(nb.last())
                                || breaks_in(w).len() == 0);
                            if (eaten + taken).last() == '\r' {
                                assert(taken.len() == 1);
                            }
                            assert(s0[eaten.len() as int] == pre[0]);
                            lemma_ws_no_marker(s0, eaten.len() as int);
                            if taken.len() == 2 {
                                assert(s0[eaten.len() + 1 as int] == pre[1]);
                                lemma_ws_no_marker(s0, eaten.len() + 1 as int);
                            }
                            assert forall|p: int| 0 <= p < eaten.len() + taken.len() implies !#[trigger] plain_stop_at(
                                s0,
                                p,
                                old(self).in_flow(),
                            ) by {
                                if p >= eaten.len() {
                                    assert(s0[p] == taken[p - eaten.len()]);
                                    assert(ws_char(taken[p - eaten.len()]));
                                }
                            }
                            eaten = eaten + taken;
                        }
                        leading_blanks = true;
                    }
                }
                self.input.lookahead(1);
            }
            proof {
                Self::lemma_ok_is_loose(self);
            }
            if self.flow_level == 0 && (self.mark.column as i32) < indent {
                break;
            }
        }

        if leading_blanks {
            self.simple_key_allowed = true;
        }
        proof {
            assert(eaten =~= s0.take(s0.len() - self.input.chars().len()));
            lemma_plain_value_tail(eaten.take(cut), eaten.skip(cut));
            assert(eaten =~= eaten.take(cut) + eaten.skip(cut));
        }

        Ok(
            Token {
                data: TokenData::Scalar { value: string, style: ScalarStyle::Plain },
                start_mark,
                end_mark,
            },
        )
    }

    // -----------------------------------------------------------------------
    // Fetching tokens
    // -----------------------------------------------------------------------

    /// What a fetch step keeps: consistency, the stream flags, the count of
    /// handed-out tokens and the availability flag; it never moves backwards.
    /// The indentation levels open in block context, the current one last.
    closed spec fn levels(&self) -> Seq<i32> {
        self.indents@.push(self.indent)
    }

    /// The levels open before stay open, in place, and at most one more
    /// opens.
    closed spec fn levels_kept(&self, old: &Self) -> bool {
        &&& old.levels().len() <= self.levels().len() <= old.levels().len() + 1
        &&& forall|i: int| 0 <= i < old.levels().len() ==> self.levels()[i] == old.levels()[i]
    }

    closed spec fn fetch_kept(&self, old: &Self) -> bool {
        &&& self.wf()
        &&& self.stream_start_produced == old.stream_start_produced
        &&& self.stream_end_produced == old.stream_end_produced
        &&& self.tokens_parsed == old.tokens_parsed
        &&& self.token_available == old.token_available
        &&& self.input.nul_ends_input() == old.input.nul_ends_input()
        &&& self.input.chars().len() <= old.input.chars().len()
        &&& mark_not_after(old.mark, self.mark)
        &&& self.last_start == old.last_start
    }

    /// The stream end has been queued: the queue is not empty and every
    /// possible simple key lies on an earlier line than the position.
    closed spec fn stream_ending(&self) -> bool {
        &&& self.tokens@.len() > 0
        &&& forall|i: int|
            0 <= i < self.simple_keys@.len() && (#[trigger] self.simple_keys@[i]).possible
                ==> self.simple_keys@[i].mark.line < self.mark.line
    }

    /// A queued STREAM-END is the last token the scanner fetches: while one is
    /// queued, every possible simple key lies on an earlier line than the
    /// position, so nothing more is fetched before it is handed out.
    pub closed spec fn settled(&self) -> bool {
        !without_stream_end(self.tokens@) ==> self.stream_ending() && self.at_end()
    }

    /// An upper bound on the number of tokens other than STREAM-END that the
    /// scanner can still hand out: eight per remaining character, one per
    /// queued token, two per enclosing indentation level, and three each for
    /// a STREAM-START and a STREAM-END not yet queued.
    pub closed spec fn token_budget(&self) -> nat {
        8 * self.input.chars().len() + self.tokens@.len() + 2 * self.indents@.len() + (
        if without_stream_end(self.tokens@) {
            3nat
        } else {
            0nat
        }) + (if self.stream_start_produced {
            0nat
        } else {
            3nat
        })
    }

    /// A fresh scanner is settled and its queue lies behind its position, so
    /// every token it hands out runs forward within the input read so far;
    /// before its STREAM-END it hands out at most eight tokens per input
    /// character, plus five; and its tokens come out in the order in which
    /// they start in the input, as long as the token counter has room.
    pub proof fn law_fresh_scanner(s: &Self)
        requires
            s.is_fresh(),
        ensures
            s.settled(),
            s.marks_behind(),
            s.in_order(),
            s.token_budget() == 8 * s.source().chars().len() + 6,
            8 * s.source().chars().len() + 6 < usize::MAX ==> s.has_room(),
    {
    }

    /// Every queued token runs forward and ends no later than the position.
    pub closed spec fn marks_behind(&self) -> bool {
        forall|i: int|
            0 <= i < self.tokens@.len() ==> token_within(#[trigger] self.tokens@[i], self.mark)
    }

    /// The queued tokens start in order, none before the token handed out
    /// last; each possible simple key lies among them where the token it
    /// designates stands.
    pub closed spec fn in_order(&self) -> bool {
        &&& self.starts_in_order()
        &&& self.keys_in_order()
    }

    /// Where the token handed out last starts; the origin before any.
    pub closed spec fn handed_from(&self) -> Mark {
        self.last_start@
    }

    /// The number of tokens handed out, with the token budget, fits the
    /// token counter.
    pub closed spec fn has_room(&self) -> bool {
        self.tokens_parsed as int + self.token_budget() < usize::MAX
    }

    /// The queued tokens start in order, none before the token handed out
    /// last, which itself starts no later than the position.
    closed spec fn starts_in_order(&self) -> bool {
        &&& mark_not_after(self.last_start@, self.mark)
        &&& forall|i: int, j: int|
            #![trigger self.tokens@[i], self.tokens@[j]]
            0 <= i < j < self.tokens@.len() ==> mark_not_after(
                self.tokens@[i].start_mark,
                self.tokens@[j].start_mark,
            )
        &&& forall|i: int|
            0 <= i < self.tokens@.len() ==> mark_not_after(
                self.last_start@,
                (#[trigger] self.tokens@[i]).start_mark,
            )
    }

    /// The place in the queue of the token a simple key designates.
    closed spec fn key_slot(&self, k: SimpleKey) -> int {
        k.token_number.wrapping_sub(self.tokens_parsed) as int
    }

    /// Each possible simple key designates a queued token or the next one,
    /// carries a token number short of the counter's limit, and lies between
    /// the token handed out last and the position, after the queued tokens
    /// in front of the one it designates and before that one and the rest;
    /// possible keys of deeper flow levels come later, at later places.
    closed spec fn keys_in_order(&self) -> bool {
        &&& forall|q: int|
            0 <= q < self.simple_keys@.len() && (#[trigger] self.simple_keys@[q]).possible
                ==> self.key_slot(self.simple_keys@[q]) <= self.tokens@.len() && mark_not_after(
                self.last_start@,
                self.simple_keys@[q].mark,
            ) && mark_not_after(self.simple_keys@[q].mark, self.mark)
                && self.simple_keys@[q].token_number != usize::MAX
        &&& forall|q: int, j: int|
            #![trigger self.simple_keys@[q], self.tokens@[j]]
            0 <= q < self.simple_keys@.len() && self.simple_keys@[q].possible && 0 <= j
                < self.tokens@.len() ==> (j < self.key_slot(self.simple_keys@[q]) ==> mark_not_after(
                self.tokens@[j].start_mark,
                self.simple_keys@[q].mark,
            )) && (self.key_slot(self.simple_keys@[q]) <= j ==> mark_not_after(
                self.simple_keys@[q].mark,
                self.tokens@[j].start_mark,
            ))
        &&& forall|p: int, q: int|
            #![trigger self.simple_keys@[p], self.simple_keys@[q]]
            0 <= p < q < self.simple_keys@.len() && self.simple_keys@[p].possible
                && self.simple_keys@[q].possible ==> mark_not_after(
                self.simple_keys@[p].mark,
                self.simple_keys@[q].mark,
            ) && self.key_slot(self.simple_keys@[p]) <= self.key_slot(self.simple_keys@[q])
    }

    /// Every queued token and possible simple key, and the token handed out
    /// last, start no later than `m`.
    closed spec fn all_up_to(&self, m: Mark) -> bool {
        &&& mark_not_after(self.last_start@, m)
        &&& forall|i: int|
            0 <= i < self.tokens@.len() ==> mark_not_after(
                (#[trigger] self.tokens@[i]).start_mark,
                m,
            )
        &&& forall|q: int|
            0 <= q < self.simple_keys@.len() && (#[trigger] self.simple_keys@[q]).possible
                ==> mark_not_after(self.simple_keys@[q].mark, m)
    }

    /// With the tokens behind the position and in order, everything queued
    /// starts no later than the position.
    proof fn lemma_up_to_position(a: &Self)
        requires
            a.marks_behind(),
            a.in_order(),
        ensures
            a.all_up_to(a.mark),
    {
        assert forall|i: int| 0 <= i < a.tokens@.len() implies mark_not_after(
            (#[trigger] a.tokens@[i]).start_mark,
            a.mark,
        ) by {
            assert(token_within(a.tokens@[i], a.mark));
        }
    }

    /// Whether a token starting at `m` can be put at place `p` of the queue
    /// with the order kept: between its neighbours, after the token handed
    /// out last, and behind every possible simple key's place and mark.
    closed spec fn fits_at(&self, p: int, m: Mark) -> bool {
        &&& 0 <= p <= self.tokens@.len()
        &&& mark_not_after(self.last_start@, m)
        &&& p > 0 ==> mark_not_after(self.tokens@[p - 1].start_mark, m)
        &&& p < self.tokens@.len() ==> mark_not_after(m, self.tokens@[p].start_mark)
        &&& forall|q: int|
            0 <= q < self.simple_keys@.len() && (#[trigger] self.simple_keys@[q]).possible
                ==> self.key_slot(self.simple_keys@[q]) <= p && mark_not_after(
                self.simple_keys@[q].mark,
                m,
            )
    }

    /// Moving forward keeps the queued tokens behind the position, and their
    /// order.
    proof fn lemma_marks_move(a: &Self, b: &Self)
        requires
            a.marks_behind(),
            b.tokens@ == a.tokens@,
            mark_not_after(a.mark, b.mark),
        ensures
            b.marks_behind(),
            a.in_order() && b.simple_keys@ == a.simple_keys@ && b.tokens_parsed == a.tokens_parsed
                && b.last_start == a.last_start ==> b.in_order(),
    {
        assert forall|i: int| 0 <= i < b.tokens@.len() implies token_within(
            #[trigger] b.tokens@[i],
            b.mark,
        ) by {
            assert(token_within(a.tokens@[i], a.mark));
        }
        if a.in_order() && b.simple_keys@ == a.simple_keys@ && b.tokens_parsed == a.tokens_parsed
            && b.last_start == a.last_start {
            assert forall|q: int|
                0 <= q < b.simple_keys@.len() && (#[trigger] b.simple_keys@[q]).possible implies b.key_slot(b.simple_keys@[q]) <= b.tokens@.len()
                && mark_not_after(b.last_start@, b.simple_keys@[q].mark) && mark_not_after(
                b.simple_keys@[q].mark,
                b.mark,
            ) && b.simple_keys@[q].token_number != usize::MAX by {
                assert(a.simple_keys@[q] == b.simple_keys@[q]);
            }
        }
    }

    /// Queuing a token that lies behind the position keeps the queue behind
    /// it; when the token starts no earlier than anything queued, the order
    /// is kept too.
    proof fn lemma_marks_push(a: &Self, b: &Self, t: Token)
        requires
            a.marks_behind(),
            b.mark == a.mark,
            b.tokens@ == a.tokens@.push(t),
            token_within(t, a.mark),
        ensures
            b.marks_behind(),
            a.in_order() && a.all_up_to(t.start_mark) && b.simple_keys@ == a.simple_keys@
                && b.tokens_parsed == a.tokens_parsed && b.last_start == a.last_start
                ==> b.in_order(),
    {
        assert forall|i: int| 0 <= i < b.tokens@.len() implies token_within(
            #[trigger] b.tokens@[i],
            b.mark,
        ) by {
            if i < a.tokens@.len() {
                assert(b.tokens@[i] == a.tokens@[i]);
                assert(token_within(a.tokens@[i], a.mark));
            }
        }
        if a.in_order() && a.all_up_to(t.start_mark) && b.simple_keys@ == a.simple_keys@
            && b.tokens_parsed == a.tokens_parsed && b.last_start == a.last_start {
            Self::lemma_order_push(a, b, t);
        }
    }

    /// Queuing a token that starts no earlier than anything queued keeps the
    /// order.
    proof fn lemma_order_push(a: &Self, b: &Self, t: Token)
        requires
            a.in_order(),
            a.all_up_to(t.start_mark),
            b.mark == a.mark,
            b.tokens@ == a.tokens@.push(t),
            b.simple_keys@ == a.simple_keys@,
            b.tokens_parsed == a.tokens_parsed,
            b.last_start == a.last_start,
        ensures
            b.in_order(),
    {
        let n = a.tokens@.len() as int;
        assert forall|i: int, j: int|
            #![trigger b.tokens@[i], b.tokens@[j]]
            0 <= i < j < b.tokens@.len() implies mark_not_after(
            b.tokens@[i].start_mark,
            b.tokens@[j].start_mark,
        ) by {
            assert(b.tokens@[i] == a.tokens@[i]);
            if j < n {
                assert(b.tokens@[j] == a.tokens@[j]);
                assert(mark_not_after(a.tokens@[i].start_mark, a.tokens@[j].start_mark));
            } else {
                assert(mark_not_after(a.tokens@[i].start_mark, t.start_mark));
            }
        }
        assert forall|i: int| 0 <= i < b.tokens@.len() implies mark_not_after(
            b.last_start@,
            (#[trigger] b.tokens@[i]).start_mark,
        ) by {
            if i < n {
                assert(b.tokens@[i] == a.tokens@[i]);
                assert(mark_not_after(a.last_start@, a.tokens@[i].start_mark));
            }
        }
        assert forall|q: int|
            0 <= q < b.simple_keys@.len() && (#[trigger] b.simple_keys@[q]).possible implies b.key_slot(b.simple_keys@[q]) <= b.tokens@.len()
            && mark_not_after(b.last_start@, b.simple_keys@[q].mark) && mark_not_after(
            b.simple_keys@[q].mark,
            b.mark,
        ) && b.simple_keys@[q].token_number != usize::MAX by {
            assert(a.simple_keys@[q] == b.simple_keys@[q]);
        }
        assert forall|q: int, j: int|
            #![trigger b.simple_keys@[q], b.tokens@[j]]
            0 <= q < b.simple_keys@.len() && b.simple_keys@[q].possible && 0 <= j
                < b.tokens@.len() implies (j < b.key_slot(b.simple_keys@[q]) ==> mark_not_after(
            b.tokens@[j].start_mark,
            b.simple_keys@[q].mark,
        )) && (b.key_slot(b.simple_keys@[q]) <= j ==> mark_not_after(
            b.simple_keys@[q].mark,
            b.tokens@[j].start_mark,
        )) by {
            let k = a.simple_keys@[q];
            assert(k == b.simple_keys@[q]);
            assert(a.key_slot(k) <= n);
            if j < n {
                assert(b.tokens@[j] == a.tokens@[j]);
                assert(a.simple_keys@[q].possible && 0 <= j < a.tokens@.len());
                assert(j < a.key_slot(k) ==> mark_not_after(a.tokens@[j].start_mark, k.mark));
                assert(a.key_slot(k) <= j ==> mark_not_after(k.mark, a.tokens@[j].start_mark));
            } else {
                assert(mark_not_after(k.mark, t.start_mark));
            }
        }
        assert forall|p: int, q: int|
            #![trigger b.simple_keys@[p], b.simple_keys@[q]]
            0 <= p < q < b.simple_keys@.len() && b.simple_keys@[p].possible
                && b.simple_keys@[q].possible implies mark_not_after(
            b.simple_keys@[p].mark,
            b.simple_keys@[q].mark,
        ) && b.key_slot(b.simple_keys@[p]) <= b.key_slot(b.simple_keys@[q]) by {
            assert(a.simple_keys@[p] == b.simple_keys@[p]);
            assert(a.simple_keys@[q] == b.simple_keys@[q]);
        }
    }

    /// Putting a token that lies behind the position in the queue keeps the
    /// queue behind it; where it fits, the order is kept too.
    proof fn lemma_marks_insert(a: &Self, b: &Self, p: int, t: Token)
        requires
            a.marks_behind(),
            b.mark == a.mark,
            0 <= p <= a.tokens@.len(),
            b.tokens@ == a.tokens@.insert(p, t),
            token_within(t, a.mark),
        ensures
            b.marks_behind(),
            a.in_order() && a.fits_at(p, t.start_mark) && b.simple_keys@ == a.simple_keys@
                && b.tokens_parsed == a.tokens_parsed && b.last_start == a.last_start
                ==> b.in_order(),
    {
        assert forall|i: int| 0 <= i < b.tokens@.len() implies token_within(
            #[trigger] b.tokens@[i],
            b.mark,
        ) by {
            if i < p {
                assert(b.tokens@[i] == a.tokens@[i]);
                assert(token_within(a.tokens@[i], a.mark));
            } else if i > p {
                assert(b.tokens@[i] == a.tokens@[i - 1]);
                assert(token_within(a.tokens@[i - 1], a.mark));
            }
        }
        if a.in_order() && a.fits_at(p, t.start_mark) && b.simple_keys@ == a.simple_keys@
            && b.tokens_parsed == a.tokens_parsed && b.last_start == a.last_start {
            Self::lemma_order_insert(a, b, p, t);
        }
    }

    /// Putting a token in the queue where it fits keeps the order.
    proof fn lemma_order_insert(a: &Self, b: &Self, p: int, t: Token)
        requires
            a.in_order(),
            a.fits_at(p, t.start_mark),
            b.mark == a.mark,
            0 <= p <= a.tokens@.len(),
            b.tokens@ == a.tokens@.insert(p, t),
            b.simple_keys@ == a.simple_keys@,
            b.tokens_parsed == a.tokens_parsed,
            b.last_start == a.last_start,
        ensures
            b.in_order(),
    {
        assert forall|i: int, j: int|
            #![trigger b.tokens@[i], b.tokens@[j]]
            0 <= i < j < b.tokens@.len() implies mark_not_after(
            b.tokens@[i].start_mark,
            b.tokens@[j].start_mark,
        ) by {
            if j < p {
                assert(b.tokens@[i] == a.tokens@[i] && b.tokens@[j] == a.tokens@[j]);
                assert(mark_not_after(a.tokens@[i].start_mark, a.tokens@[j].start_mark));
            } else if j == p {
                assert(b.tokens@[i] == a.tokens@[i]);
                if i < p - 1 {
                    assert(mark_not_after(a.tokens@[i].start_mark, a.tokens@[p - 1].start_mark));
                }
            } else if i < p {
                assert(b.tokens@[i] == a.tokens@[i] && b.tokens@[j] == a.tokens@[j - 1]);
                assert(mark_not_after(a.tokens@[i].start_mark, a.tokens@[j - 1].start_mark));
            } else if i == p {
                assert(b.tokens@[j] == a.tokens@[j - 1]);
                if j - 1 > p {
                    assert(mark_not_after(a.tokens@[p].start_mark, a.tokens@[j - 1].start_mark));
                }
            } else {
                assert(b.tokens@[i] == a.tokens@[i - 1] && b.tokens@[j] == a.tokens@[j - 1]);
                assert(mark_not_after(a.tokens@[i - 1].start_mark, a.tokens@[j - 1].start_mark));
            }
        }
        assert forall|i: int| 0 <= i < b.tokens@.len() implies mark_not_after(
            b.last_start@,
            (#[trigger] b.tokens@[i]).start_mark,
        ) by {
            if i < p {
                assert(b.tokens@[i] == a.tokens@[i]);
                assert(mark_not_after(a.last_start@, a.tokens@[i].start_mark));
            } else if i > p {
                assert(b.tokens@[i] == a.tokens@[i - 1]);
                assert(mark_not_after(a.last_start@, a.tokens@[i - 1].start_mark));
            }
        }
        assert forall|q: int|
            0 <= q < b.simple_keys@.len() && (#[trigger] b.simple_keys@[q]).possible implies b.key_slot(b.simple_keys@[q]) <= b.tokens@.len()
            && mark_not_after(b.last_start@, b.simple_keys@[q].mark) && mark_not_after(
            b.simple_keys@[q].mark,
            b.mark,
        ) && b.simple_keys@[q].token_number != usize::MAX by {
            assert(a.simple_keys@[q] == b.simple_keys@[q]);
        }
        assert forall|q: int, j: int|
            #![trigger b.simple_keys@[q], b.tokens@[j]]
            0 <= q < b.simple_keys@.len() && b.simple_keys@[q].possible && 0 <= j
                < b.tokens@.len() implies (j < b.key_slot(b.simple_keys@[q]) ==> mark_not_after(
            b.tokens@[j].start_mark,
            b.simple_keys@[q].mark,
        )) && (b.key_slot(b.simple_keys@[q]) <= j ==> mark_not_after(
            b.simple_keys@[q].mark,
            b.tokens@[j].start_mark,
        )) by {
            let k = a.simple_keys@[q];
            assert(k == b.simple_keys@[q]);
            assert(a.key_slot(k) <= p && mark_not_after(k.mark, t.start_mark));
            if j < p {
                assert(b.tokens@[j] == a.tokens@[j]);
                assert(a.simple_keys@[q].possible && 0 <= j < a.tokens@.len());
                assert(j < a.key_slot(k) ==> mark_not_after(a.tokens@[j].start_mark, k.mark));
                assert(a.key_slot(k) <= j ==> mark_not_after(k.mark, a.tokens@[j].start_mark));
            } else if j > p {
                assert(b.tokens@[j] == a.tokens@[j - 1]);
                assert(a.simple_keys@[q].possible && 0 <= j - 1 < a.tokens@.len());
                assert(a.key_slot(k) <= j - 1 ==> mark_not_after(
                    k.mark,
                    a.tokens@[j - 1].start_mark,
                ));
            }
        }
        assert forall|pp: int, q: int|
            #![trigger b.simple_keys@[pp], b.simple_keys@[q]]
            0 <= pp < q < b.simple_keys@.len() && b.simple_keys@[pp].possible
                && b.simple_keys@[q].possible implies mark_not_after(
            b.simple_keys@[pp].mark,
            b.simple_keys@[q].mark,
        ) && b.key_slot(b.simple_keys@[pp]) <= b.key_slot(b.simple_keys@[q]) by {
            assert(a.simple_keys@[pp] == b.simple_keys@[pp]);
            assert(a.simple_keys@[q] == b.simple_keys@[q]);
        }
    }

    /// Taking possible simple keys away, or adding impossible ones, keeps
    /// the order.
    proof fn lemma_order_keys_off(a: &Self, b: &Self)
        requires
            a.in_order(),
            b.tokens@ == a.tokens@,
            b.mark == a.mark,
            b.tokens_parsed == a.tokens_parsed,
            b.last_start == a.last_start,
            forall|q: int|
                0 <= q < b.simple_keys@.len() && (#[trigger] b.simple_keys@[q]).possible ==> q
                    < a.simple_keys@.len() && b.simple_keys@[q] == a.simple_keys@[q],
        ensures
            b.in_order(),
    {
        assert forall|q: int|
            0 <= q < b.simple_keys@.len() && (#[trigger] b.simple_keys@[q]).possible implies b.key_slot(b.simple_keys@[q]) <= b.tokens@.len()
            && mark_not_after(b.last_start@, b.simple_keys@[q].mark) && mark_not_after(
            b.simple_keys@[q].mark,
            b.mark,
        ) && b.simple_keys@[q].token_number != usize::MAX by {
            assert(a.simple_keys@[q] == b.simple_keys@[q]);
        }
        assert forall|q: int, j: int|
            #![trigger b.simple_keys@[q], b.tokens@[j]]
            0 <= q < b.simple_keys@.len() && b.simple_keys@[q].possible && 0 <= j
                < b.tokens@.len() implies (j < b.key_slot(b.simple_keys@[q]) ==> mark_not_after(
            b.tokens@[j].start_mark,
            b.simple_keys@[q].mark,
        )) && (b.key_slot(b.simple_keys@[q]) <= j ==> mark_not_after(
            b.simple_keys@[q].mark,
            b.tokens@[j].start_mark,
        )) by {
            assert(a.simple_keys@[q] == b.simple_keys@[q]);
            assert(a.tokens@[j] == b.tokens@[j]);
        }
        assert forall|p: int, q: int|
            #![trigger b.simple_keys@[p], b.simple_keys@[q]]
            0 <= p < q < b.simple_keys@.len() && b.simple_keys@[p].possible
                && b.simple_keys@[q].possible implies mark_not_after(
            b.simple_keys@[p].mark,
            b.simple_keys@[q].mark,
        ) && b.key_slot(b.simple_keys@[p]) <= b.key_slot(b.simple_keys@[q]) by {
            assert(a.simple_keys@[p] == b.simple_keys@[p]);
            assert(a.simple_keys@[q] == b.simple_keys@[q]);
        }
    }

    /// Saving a simple key, on top of the stack, at the position and for the
    /// next token to be queued keeps the order.
    proof fn lemma_order_key_saved(a: &Self, b: &Self)
        requires
            a.marks_behind(),
            a.in_order(),
            b.tokens@ == a.tokens@,
            b.mark == a.mark,
            b.tokens_parsed == a.tokens_parsed,
            b.last_start == a.last_start,
            a.simple_keys@.len() > 0,
            b.simple_keys@.len() == a.simple_keys@.len(),
            b.simple_keys@.drop_last() == a.simple_keys@.drop_last(),
            b.simple_keys@.last().mark == a.mark,
            b.key_slot(b.simple_keys@.last()) == a.tokens@.len(),
            b.simple_keys@.last().token_number != usize::MAX,
        ensures
            b.in_order(),
    {
        let top = b.simple_keys@.len() - 1;
        Self::lemma_up_to_position(a);
        assert forall|q: int| 0 <= q < top implies #[trigger] b.simple_keys@[q]
            == a.simple_keys@[q] by {
            assert(b.simple_keys@[q] == b.simple_keys@.drop_last()[q]);
            assert(a.simple_keys@[q] == a.simple_keys@.drop_last()[q]);
        }
        assert forall|q: int|
            0 <= q < b.simple_keys@.len() && (#[trigger] b.simple_keys@[q]).possible implies b.key_slot(b.simple_keys@[q]) <= b.tokens@.len()
            && mark_not_after(b.last_start@, b.simple_keys@[q].mark) && mark_not_after(
            b.simple_keys@[q].mark,
            b.mark,
        ) && b.simple_keys@[q].token_number != usize::MAX by {
            if q < top {
                assert(a.simple_keys@[q] == b.simple_keys@[q]);
            }
        }
        assert forall|q: int, j: int|
            #![trigger b.simple_keys@[q], b.tokens@[j]]
            0 <= q < b.simple_keys@.len() && b.simple_keys@[q].possible && 0 <= j
                < b.tokens@.len() implies (j < b.key_slot(b.simple_keys@[q]) ==> mark_not_after(
            b.tokens@[j].start_mark,
            b.simple_keys@[q].mark,
        )) && (b.key_slot(b.simple_keys@[q]) <= j ==> mark_not_after(
            b.simple_keys@[q].mark,
            b.tokens@[j].start_mark,
        )) by {
            assert(a.tokens@[j] == b.tokens@[j]);
            if q < top {
                assert(a.simple_keys@[q] == b.simple_keys@[q]);
            } else {
                assert(mark_not_after(a.tokens@[j].start_mark, a.mark));
            }
        }
        assert forall|p: int, q: int|
            #![trigger b.simple_keys@[p], b.simple_keys@[q]]
            0 <= p < q < b.simple_keys@.len() && b.simple_keys@[p].possible
                && b.simple_keys@[q].possible implies mark_not_after(
            b.simple_keys@[p].mark,
            b.simple_keys@[q].mark,
        ) && b.key_slot(b.simple_keys@[p]) <= b.key_slot(b.simple_keys@[q]) by {
            assert(a.simple_keys@[p] == b.simple_keys@[p]);
            if q < top {
                assert(a.simple_keys@[q] == b.simple_keys@[q]);
            }
        }
    }

    /// Handing out the front token, which no possible simple key designates,
    /// keeps the order, the handed-out token now the last one.
    proof fn lemma_order_pop(a: &Self, b: &Self)
        requires
            a.in_order(),
            a.tokens@.len() > 0,
            b.tokens@ == a.tokens@.subrange(1, a.tokens@.len() as int),
            b.mark == a.mark,
            b.simple_keys@ == a.simple_keys@,
            b.tokens_parsed == a.tokens_parsed.wrapping_add(1),
            b.last_start@ == a.tokens@[0].start_mark,
            mark_not_after(a.tokens@[0].start_mark, a.mark),
            forall|q: int|
                0 <= q < a.simple_keys@.len() && (#[trigger] a.simple_keys@[q]).possible
                    ==> a.simple_keys@[q].token_number != a.tokens_parsed,
        ensures
            b.in_order(),
    {
        let s = a.tokens@;
        assert forall|i: int, j: int|
            #![trigger b.tokens@[i], b.tokens@[j]]
            0 <= i < j < b.tokens@.len() implies mark_not_after(
            b.tokens@[i].start_mark,
            b.tokens@[j].start_mark,
        ) by {
            assert(b.tokens@[i] == s[i + 1] && b.tokens@[j] == s[j + 1]);
            assert(mark_not_after(s[i + 1].start_mark, s[j + 1].start_mark));
        }
        assert forall|i: int| 0 <= i < b.tokens@.len() implies mark_not_after(
            b.last_start@,
            (#[trigger] b.tokens@[i]).start_mark,
        ) by {
            assert(b.tokens@[i] == s[i + 1]);
            assert(mark_not_after(s[0].start_mark, s[i + 1].start_mark));
        }
        assert forall|q: int|
            0 <= q < a.simple_keys@.len() && (#[trigger] a.simple_keys@[q]).possible implies b.key_slot(a.simple_keys@[q]) + 1
            == a.key_slot(a.simple_keys@[q]) by {
            let x = a.simple_keys@[q].token_number;
            let y = a.tokens_parsed;
            assert(x != y);
            assert(x.wrapping_sub(y) as int == x.wrapping_sub(y.wrapping_add(1)) as int + 1);
        }
        assert forall|q: int|
            0 <= q < b.simple_keys@.len() && (#[trigger] b.simple_keys@[q]).possible implies b.key_slot(b.simple_keys@[q]) <= b.tokens@.len()
            && mark_not_after(b.last_start@, b.simple_keys@[q].mark) && mark_not_after(
            b.simple_keys@[q].mark,
            b.mark,
        ) && b.simple_keys@[q].token_number != usize::MAX by {
            let k = a.simple_keys@[q];
            assert(b.key_slot(k) + 1 == a.key_slot(k));
            assert(a.simple_keys@[q].possible && 0 <= 0 < a.tokens@.len());
            assert(0 < a.key_slot(k) ==> mark_not_after(s[0].start_mark, k.mark));
        }
        assert forall|q: int, j: int|
            #![trigger b.simple_keys@[q], b.tokens@[j]]
            0 <= q < b.simple_keys@.len() && b.simple_keys@[q].possible && 0 <= j
                < b.tokens@.len() implies (j < b.key_slot(b.simple_keys@[q]) ==> mark_not_after(
            b.tokens@[j].start_mark,
            b.simple_keys@[q].mark,
        )) && (b.key_slot(b.simple_keys@[q]) <= j ==> mark_not_after(
            b.simple_keys@[q].mark,
            b.tokens@[j].start_mark,
        )) by {
            let k = a.simple_keys@[q];
            assert(b.key_slot(k) + 1 == a.key_slot(k));
            assert(b.tokens@[j] == s[j + 1]);
            assert(a.simple_keys@[q].possible && 0 <= j + 1 < a.tokens@.len());
            assert(j + 1 < a.key_slot(k) ==> mark_not_after(s[j + 1].start_mark, k.mark));
            assert(a.key_slot(k) <= j + 1 ==> mark_not_after(k.mark, s[j + 1].start_mark));
        }
        assert forall|p: int, q: int|
            #![trigger b.simple_keys@[p], b.simple_keys@[q]]
            0 <= p < q < b.simple_keys@.len() && b.simple_keys@[p].possible
                && b.simple_keys@[q].possible implies mark_not_after(
            b.simple_keys@[p].mark,
            b.simple_keys@[q].mark,
        ) && b.key_slot(b.simple_keys@[p]) <= b.key_slot(b.simple_keys@[q]) by {
            assert(b.key_slot(a.simple_keys@[p]) + 1 == a.key_slot(a.simple_keys@[p]));
            assert(b.key_slot(a.simple_keys@[q]) + 1 == a.key_slot(a.simple_keys@[q]));
        }
    }

    /// A token at the top simple key's mark fits at the place of the token
    /// that key designates.
    proof fn lemma_key_fits(a: &Self)
        requires
            a.in_order(),
            a.simple_keys@.len() > 0,
            a.simple_keys@.last().possible,
        ensures
            a.fits_at(a.key_slot(a.simple_keys@.last()), a.simple_keys@.last().mark),
    {
        let top = a.simple_keys@.len() - 1;
        let k = a.simple_keys@[top];
        let p = a.key_slot(k);
        if p > 0 {
            assert(a.simple_keys@[top].possible && 0 <= p - 1 < a.tokens@.len());
        }
        if p < a.tokens@.len() {
            assert(a.simple_keys@[top].possible && 0 <= p < a.tokens@.len());
        }
        assert forall|q: int|
            0 <= q < a.simple_keys@.len() && (#[trigger] a.simple_keys@[q]).possible implies a.key_slot(a.simple_keys@[q]) <= p
            && mark_not_after(a.simple_keys@[q].mark, k.mark) by {
            if q < top {
                assert(a.simple_keys@[q].possible && a.simple_keys@[top].possible);
            }
        }
    }

    /// Once a token is put where it fits and simple keys are only dropped,
    /// a token starting where that one starts fits in front of it.
    proof fn lemma_fits_after_insert(a: &Self, b: &Self, p: int, t: Token)
        requires
            a.fits_at(p, t.start_mark),
            b.tokens@ == a.tokens@.insert(p, t),
            b.tokens_parsed == a.tokens_parsed,
            b.last_start == a.last_start,
            forall|q: int|
                0 <= q < b.simple_keys@.len() && (#[trigger] b.simple_keys@[q]).possible ==> q
                    < a.simple_keys@.len() && b.simple_keys@[q] == a.simple_keys@[q],
        ensures
            b.fits_at(p, t.start_mark),
    {
        if p > 0 {
            assert(b.tokens@[p - 1] == a.tokens@[p - 1]);
        }
        assert(b.tokens@[p] == t);
        assert forall|q: int|
            0 <= q < b.simple_keys@.len() && (#[trigger] b.simple_keys@[q]).possible implies b.key_slot(b.simple_keys@[q]) <= p
            && mark_not_after(b.simple_keys@[q].mark, t.start_mark) by {
            assert(a.simple_keys@[q] == b.simple_keys@[q]);
        }
    }

    /// Unrolling to column -1 outside a flow collection closes every
    /// indentation level.
    proof fn lemma_unrolled_all(a: &Self, b: &Self)
        requires
            a.stack_ok(),
            b.indent <= -1,
            b.indents@.len() <= a.indents@.len(),
            b.indents@.push(b.indent) == a.indents@.push(a.indent).take(b.indents@.len() + 1 as int),
        ensures
            b.indents@.len() == 0,
    {
        let st = a.indents@.push(a.indent);
        let m = b.indents@.len() as int;
        assert(b.indents@.push(b.indent)[m] == st[m]);
        if m > 0 {
            assert(st[0] < st[m]);
        }
    }

    /// Turning simple keys impossible keeps a settled scanner settled.
    proof fn lemma_settled_keys_off(a: &Self, b: &Self)
        requires
            a.settled(),
            b.input.chars() == a.input.chars(),
            b.input.nul_ends_input() == a.input.nul_ends_input(),
            b.tokens@ == a.tokens@,
            b.mark == a.mark,
            b.simple_keys@.len() == a.simple_keys@.len(),
            forall|i: int|
                0 <= i < b.simple_keys@.len() ==> ((#[trigger] b.simple_keys@[i]).possible
                    ==> a.simple_keys@[i].possible && b.simple_keys@[i].mark
                    == a.simple_keys@[i].mark),
        ensures
            b.settled(),
    {
        if !without_stream_end(b.tokens@) {
            assert forall|i: int|
                0 <= i < b.simple_keys@.len() && (#[trigger] b.simple_keys@[i]).possible
                implies b.simple_keys@[i].mark.line < b.mark.line by {
                assert(a.simple_keys@[i].possible);
            }
        }
    }

    /// Handing out the front token keeps a settled scanner settled, and
    /// lowers the budget by one when that token is not STREAM-END.
    proof fn lemma_front_budget(a: &Self, b: &Self)
        requires
            a.tokens@.len() > 0,
            b.tokens@ == a.tokens@.subrange(1, a.tokens@.len() as int),
            b.input.chars() == a.input.chars(),
            b.input.nul_ends_input() == a.input.nul_ends_input(),
            b.mark == a.mark,
            b.indents@ == a.indents@,
            b.stream_start_produced == a.stream_start_produced,
            b.simple_keys@ == a.simple_keys@,
        ensures
            a.settled() ==> b.settled(),
            !(a.tokens@[0].data is StreamEnd) ==> b.token_budget() + 1 == a.token_budget(),
            a.marks_behind() ==> b.marks_behind() && token_within(a.tokens@[0], b.mark),
    {
        let s = a.tokens@;
        if a.marks_behind() {
            assert(token_within(s[0], a.mark));
            assert forall|i: int| 0 <= i < b.tokens@.len() implies token_within(
                #[trigger] b.tokens@[i],
                b.mark,
            ) by {
                assert(b.tokens@[i] == s[i + 1]);
                assert(token_within(s[i + 1], a.mark));
            }
        }
        if !without_stream_end(b.tokens@) {
            let i = choose|i: int|
                0 <= i < b.tokens@.len() && (#[trigger] b.tokens@[i]).data is StreamEnd;
            assert(s[i + 1] == b.tokens@[i]);
        }
        if !(s[0].data is StreamEnd) {
            if !without_stream_end(s) {
                let i = choose|i: int| 0 <= i < s.len() && (#[trigger] s[i]).data is StreamEnd;
                assert(b.tokens@[i - 1] == s[i]);
            }
            if without_stream_end(s) {
                assert forall|i: int| 0 <= i < b.tokens@.len() implies !((
                #[trigger] b.tokens@[i]).data is StreamEnd) by {
                    assert(b.tokens@[i] == s[i + 1]);
                }
            }
        }
    }

    /// Queuing more tokens, and moving forward over nothing, keeps a
    /// consistent scanner consistent.
    proof fn lemma_queue_grows(a: &Self, b: &Self)
        requires
            a.wf(),
            a.stream_start_produced,
            b.input == a.input,
            b.budget_ok(),
            mark_not_after(a.mark, b.mark),
            b.stream_start_produced,
            b.flow_level == a.flow_level,
            b.tokens@.len() >= a.tokens@.len(),
            b.tokens_parsed == a.tokens_parsed,
            !b.token_available,
            b.simple_keys@ == a.simple_keys@,
            b.stack_ok(),
        ensures
            b.wf(),
    {
        Self::lemma_keys_follow(a, b);
    }

    fn fetch_stream_end(&mut self) -> (r: Result<()>)
        requires
            old(self).wf(),
            old(self).stream_start_produced,
            !old(self).token_available,
            old(self).at_end(),
        ensures
            final(self).fetch_kept(old(self)),
            old(self).marks_behind() ==> final(self).marks_behind(),
            old(self).marks_behind() && old(self).in_order() ==> final(self).in_order(),
            r is Err && without_stream_end(old(self).tokens@) ==> without_stream_end(
                final(self).tokens@,
            ),
            r is Ok ==> final(self).tokens@.len() + 2 * final(self).indents@.len() <= old(
                self,
            ).tokens@.len() + 2 * old(self).indents@.len() + 1,
            final(self).input.chars() == old(self).input.chars(),
            r is Err <==> (old(self).simple_keys@.last().possible
                && old(self).simple_keys@.last().required),
            r is Ok ==> final(self).stream_ending() && final(self).at_end(),
            r is Ok ==> final(self).tokens@.last() == (Token {
                data: TokenData::StreamEnd,
                start_mark: final(self).mark,
                end_mark: final(self).mark,
            }),
            r is Ok ==> final(self).mark.column == 0 && !final(self).simple_key_allowed,
            r is Ok ==> final(self).tokens@ == (old(self).tokens@ + Self::block_ends(
                if old(self).flow_level == 0 {
                    old(self).indents@.len()
                } else {
                    0
                },
                final(self).mark,
            )).push(final(self).tokens@.last()),
            r is Ok ==> final(self).simple_keys@.len() == old(self).simple_keys@.len()
                && final(self).simple_keys@.drop_last() == old(self).simple_keys@.drop_last()
                && !final(self).simple_keys@.last().possible,
            old(self).keys_idle() && r is Ok ==> final(self).keys_idle(),
            old(self).flow_level == 0 && old(self).indent <= old(self).mark.column && r is Ok
                ==> final(self).indent <= final(self).tokens@.last().start_mark.column,
    {
        if self.mark.column != 0_u64 {
            self.mark.column = 0_u64;
            self.mark.line += 1;
        }
        proof {
            if old(self).marks_behind() {
                Self::lemma_marks_move(old(self), self);
            }
        }
        let ghost pre_unroll = *self;
        self.unroll_indent(-1_i64);
        proof {
            if pre_unroll.flow_level == 0 {
                Self::lemma_unrolled_all(&pre_unroll, self);
            } else {
                assert(Self::block_ends(0, pre_unroll.mark) =~= Seq::<Token>::empty());
                assert(self.tokens@ =~= pre_unroll.tokens@ + Self::block_ends(0, pre_unroll.mark));
            }
            Self::lemma_queue_grows(old(self), self);
        }
        self.remove_simple_key()?;
        self.simple_key_allowed = false;
        let token = Token { data: TokenData::StreamEnd, start_mark: self.mark, end_mark: self.mark };
        let ghost before = *self;
        self.tokens.push_back(token);
        proof {
            Self::lemma_queue_grows(&before, self);
            if before.marks_behind() && before.in_order() {
                Self::lemma_up_to_position(&before);
            }
            if before.marks_behind() {
                Self::lemma_marks_push(&before, self, token);
            }
            assert forall|i: int|
                0 <= i < self.simple_keys@.len() && (#[trigger] self.simple_keys@[i]).possible
                implies self.simple_keys@[i].mark.line < self.mark.line by {
                assert(self.key_ok(self.simple_keys@[i]));
            }
        }
        Ok(())
    }

    fn fetch_directive(&mut self) -> (r: Result<()>)
        requires
            old(self).wf(),
            old(self).stream_start_produced,
            !old(self).token_available,
            old(self).ahead(0) == '%',
        ensures
            final(self).fetch_kept(old(self)),
            old(self).marks_behind() ==> final(self).marks_behind(),
            old(self).marks_behind() && old(self).in_order() ==> final(self).in_order(),
            without_stream_end(old(self).tokens@) ==> without_stream_end(final(self).tokens@),
            r is Ok ==> final(self).tokens@.len() + 2 * final(self).indents@.len() <= old(
                self,
            ).tokens@.len() + 2 * old(self).indents@.len() + 5,
            r is Ok ==> final(self).input.chars().len() < old(self).input.chars().len(),
            r is Ok ==> final(self).tokens@ == (old(self).tokens@ + Self::block_ends(
                if old(self).flow_level == 0 {
                    old(self).indents@.len()
                } else {
                    0
                },
                old(self).mark,
            )).push(final(self).tokens@.last()),
            r is Ok ==> final(self).tokens@.last().start_mark == old(self).mark,
            r is Err <==> (old(self).simple_keys@.last().possible
                && old(self).simple_keys@.last().required) || !directive_ok(
                old(self).input.chars().skip(1),
                old(self).input.nul_ends_input(),
            ),
            r is Ok ==> final(self).tokens@.last().data is VersionDirective
                || final(self).tokens@.last().data is TagDirective,
            r is Ok ==> ({
                let text = old(self).input.chars().skip(1);
                let v = text.skip(alpha_run(text));
                let t = final(self).tokens@.last();
                &&& t.data is VersionDirective ==> text.take(alpha_run(text)) == seq![
                    'Y',
                    'A',
                    'M',
                    'L',
                ] && t.data->major == version_major(v) && t.data->minor == version_minor(v)
                &&& t.data is TagDirective ==> text.take(alpha_run(text)) == seq!['T', 'A', 'G']
                    && tag_value_of(
                    t.data->TagDirective_handle@,
                    t.data->TagDirective_prefix@,
                    v,
                    old(self).input.nul_ends_input(),
                )
            }),
            old(self).keys_idle() && r is Ok ==> final(self).keys_idle(),
            old(self).flow_level == 0 && old(self).indent <= old(self).mark.column && r is Ok
                ==> final(self).indent <= final(self).tokens@.last().start_mark.column,
    {
        self.unroll_indent(-1_i64);
        proof {
            if old(self).flow_level == 0 {
                Self::lemma_unrolled_all(old(self), self);
            } else {
                assert(Self::block_ends(0, old(self).mark) =~= Seq::<Token>::empty());
                assert(self.tokens@ =~= old(self).tokens@ + Self::block_ends(0, old(self).mark));
            }
            Self::lemma_queue_grows(old(self), self);
        }
        self.remove_simple_key()?;
        self.simple_key_allowed = false;
        let ghost pre_scan = *self;
        let scanned = self.scan_directive();
        proof {
            if pre_scan.marks_behind() {
                Self::lemma_marks_move(&pre_scan, self);
            }
        }
        let token = scanned?;
        let ghost before = *self;
        self.tokens.push_back(token);
        proof {
            Self::lemma_queue_grows(&before, self);
            if pre_scan.marks_behind() && pre_scan.in_order() {
                Self::lemma_up_to_position(&pre_scan);
            }
            if before.marks_behind() {
                Self::lemma_marks_push(&before, self, token);
            }
        }
        Ok(())
    }

    fn fetch_document_indicator(&mut self, data: TokenData) -> (r: Result<()>)
        requires
            old(self).wf(),
            old(self).stream_start_produced,
            !old(self).token_available,
            data is DocumentStart || data is DocumentEnd,
            old(self).at_document_indicator(),
        ensures
            final(self).fetch_kept(old(self)),
            old(self).marks_behind() ==> final(self).marks_behind(),
            old(self).marks_behind() && old(self).in_order() ==> final(self).in_order(),
            without_stream_end(old(self).tokens@) ==> without_stream_end(final(self).tokens@),
            r is Ok ==> final(self).tokens@.len() + 2 * final(self).indents@.len() <= old(
                self,
            ).tokens@.len() + 2 * old(self).indents@.len() + 5,
            r is Ok ==> final(self).input.chars() == old(self).input.chars().skip(3),
            r is Err <==> (old(self).simple_keys@.last().possible
                && old(self).simple_keys@.last().required),
            r is Ok ==> final(self).tokens@ == (old(self).tokens@ + Self::block_ends(
                if old(self).flow_level == 0 {
                    old(self).indents@.len()
                } else {
                    0
                },
                old(self).mark,
            )).push(final(self).tokens@.last()),
            r is Ok ==> final(self).tokens@.last() == (Token {
                data,
                start_mark: old(self).mark,
                end_mark: final(self).mark,
            }),
            old(self).keys_idle() && r is Ok ==> final(self).keys_idle(),
            old(self).flow_level == 0 && old(self).indent <= old(self).mark.column && r is Ok
                ==> final(self).indent <= final(self).tokens@.last().start_mark.column,
    {
        self.unroll_indent(-1_i64);
        proof {
            if old(self).flow_level == 0 {
                Self::lemma_unrolled_all(old(self), self);
            } else {
                assert(Self::block_ends(0, old(self).mark) =~= Seq::<Token>::empty());
                assert(self.tokens@ =~= old(self).tokens@ + Self::block_ends(0, old(self).mark));
            }
            Self::lemma_queue_grows(old(self), self);
        }
        self.remove_simple_key()?;
        self.simple_key_allowed = false;
        let start_mark: Mark = self.mark;
        let ghost s0 = self.input.chars();
        let ghost pre_token = *self;
        let ghost pre_skip = *self;
        self.skip_char();
        proof {
            if pre_skip.marks_behind() {
                Self::lemma_marks_move(&pre_skip, self);
            }
        }
        let ghost pre_skip = *self;
        self.skip_char();
        proof {
            if pre_skip.marks_behind() {
                Self::lemma_marks_move(&pre_skip, self);
            }
        }
        let ghost pre_skip = *self;
        self.skip_char();
        proof {
            if pre_skip.marks_behind() {
                Self::lemma_marks_move(&pre_skip, self);
            }
        }
        proof {
            assert(s0.drop_first().drop_first().drop_first() =~= s0.skip(3));
        }
        let end_mark: Mark = self.mark;

        let token = Token { data, start_mark, end_mark };
        let ghost before = *self;
        self.tokens.push_back(token);
        proof {
            Self::lemma_queue_grows(&before, self);
            if pre_token.marks_behind() && pre_token.in_order() {
                Self::lemma_up_to_position(&pre_token);
            }
            if before.marks_behind() {
                Self::lemma_marks_push(&before, self, token);
            }
        }
        Ok(())
    }


    fn fetch_flow_collection_start(&mut self, data: TokenData) -> (r: Result<()>)
        requires
            old(self).wf(),
            old(self).stream_start_produced,
            !old(self).token_available,
            data is FlowSequenceStart || data is FlowMappingStart,
            old(self).ahead(0) == '[' || old(self).ahead(0) == '{',
        ensures
            final(self).fetch_kept(old(self)),
            old(self).marks_behind() ==> final(self).marks_behind(),
            old(self).marks_behind() && old(self).in_order() && old(self).tokens_parsed as int
                + old(self).tokens@.len() < usize::MAX ==> final(self).in_order(),
            without_stream_end(old(self).tokens@) ==> without_stream_end(final(self).tokens@),
            r is Ok ==> final(self).tokens@.len() + 2 * final(self).indents@.len() <= old(
                self,
            ).tokens@.len() + 2 * old(self).indents@.len() + 5,
            r is Err <==> (old(self).simple_key_allowed && old(self).simple_keys@.last().possible
                && old(self).simple_keys@.last().required),
            r is Ok ==> final(self).input.chars() == old(self).input.chars().drop_first(),
            r is Ok ==> final(self).flow_level == old(self).flow_level + 1,
            r is Ok ==> final(self).simple_key_allowed,
            r is Ok ==> final(self).tokens@ == old(self).tokens@.push(
                Token { data, start_mark: old(self).mark, end_mark: final(self).mark },
            ),
            old(self).keys_idle() && !old(self).simple_key_allowed && r is Ok ==> final(self).keys_idle(),
            old(self).flow_level == 0 && old(self).indent <= old(self).mark.column && r is Ok
                ==> final(self).indent <= final(self).tokens@.last().start_mark.column,
            r is Ok ==> final(self).levels_kept(old(self)),
            r is Ok ==> !final(self).simple_keys@.last().possible,
            r is Ok ==> final(self).simple_keys@.drop_last() == if old(self).simple_key_allowed {
                old(self).simple_keys@.drop_last().push(
                    (SimpleKey {
                        possible: true,
                        required: old(self).flow_level == 0 && old(self).indent as u64
                            == old(self).mark.column,
                        token_number: old(self).tokens_parsed.wrapping_add(
                            old(self).tokens@.len() as usize,
                        ),
                        mark: old(self).mark,
                    }),
                )
            } else {
                old(self).simple_keys@
            },
    {
        self.save_simple_key()?;
        self.increase_flow_level()?;
        self.simple_key_allowed = true;
        let start_mark: Mark = self.mark;
        let ghost mid = *self;
        let ghost pre_skip = *self;
        self.skip_char();
        proof {
            if pre_skip.marks_behind() {
                Self::lemma_marks_move(&pre_skip, self);
            }
        }
        proof {
            Self::lemma_assemble(&mid, self);
        }
        let end_mark: Mark = self.mark;
        let token = Token { data, start_mark, end_mark };
        let ghost before = *self;
        self.tokens.push_back(token);
        proof {
            Self::lemma_queue_grows(&before, self);
            if pre_skip.marks_behind() && pre_skip.in_order() {
                Self::lemma_up_to_position(&pre_skip);
            }
            if before.marks_behind() {
                Self::lemma_marks_push(&before, self, token);
            }
        }
        Ok(())
    }

    fn fetch_flow_collection_end(&mut self, data: TokenData) -> (r: Result<()>)
        requires
            old(self).wf(),
            old(self).stream_start_produced,
            !old(self).token_available,
            data is FlowSequenceEnd || data is FlowMappingEnd,
            old(self).ahead(0) == ']' || old(self).ahead(0) == '}',
        ensures
            final(self).fetch_kept(old(self)),
            old(self).marks_behind() ==> final(self).marks_behind(),
            old(self).marks_behind() && old(self).in_order() ==> final(self).in_order(),
            without_stream_end(old(self).tokens@) ==> without_stream_end(final(self).tokens@),
            r is Ok ==> final(self).tokens@.len() + 2 * final(self).indents@.len() <= old(
                self,
            ).tokens@.len() + 2 * old(self).indents@.len() + 5,
            r is Err <==> (old(self).simple_keys@.last().possible
                && old(self).simple_keys@.last().required),
            r is Ok ==> final(self).input.chars() == old(self).input.chars().drop_first(),
            r is Ok ==> final(self).flow_level == if old(self).flow_level != 0 {
                old(self).flow_level - 1
            } else {
                0
            },
            r is Ok ==> !final(self).simple_key_allowed,
            r is Ok ==> final(self).tokens@ == old(self).tokens@.push(
                Token { data, start_mark: old(self).mark, end_mark: final(self).mark },
            ),
            old(self).keys_idle() && r is Ok ==> final(self).keys_idle(),
            old(self).flow_level == 0 && old(self).indent <= old(self).mark.column && r is Ok
                ==> final(self).indent <= final(self).tokens@.last().start_mark.column,
            r is Ok ==> final(self).levels_kept(old(self)),
            r is Ok ==> final(self).simple_keys@ == if old(self).flow_level != 0 {
                old(self).simple_keys@.drop_last()
            } else {
                old(self).simple_keys@.drop_last().push(
                    (SimpleKey { possible: false, ..old(self).simple_keys@.last() }),
                )
            },
    {
        self.remove_simple_key()?;
        self.decrease_flow_level();
        self.simple_key_allowed = false;
        let start_mark: Mark = self.mark;
        let ghost pre_skip = *self;
        self.skip_char();
        proof {
            if pre_skip.marks_behind() {
                Self::lemma_marks_move(&pre_skip, self);
            }
        }
        let end_mark: Mark = self.mark;
        let token = Token { data, start_mark, end_mark };
        let ghost before = *self;
        self.tokens.push_back(token);
        proof {
            Self::lemma_queue_grows(&before, self);
            if pre_skip.marks_behind() && pre_skip.in_order() {
                Self::lemma_up_to_position(&pre_skip);
            }
            if before.marks_behind() {
                Self::lemma_marks_push(&before, self, token);
            }
        }
        Ok(())
    }

    fn fetch_flow_entry(&mut self) -> (r: Result<()>)
        requires
            old(self).wf(),
            old(self).stream_start_produced,
            !old(self).token_available,
            old(self).ahead(0) == ',',
        ensures
            final(self).fetch_kept(old(self)),
            old(self).marks_behind() ==> final(self).marks_behind(),
            old(self).marks_behind() && old(self).in_order() ==> final(self).in_order(),
            without_stream_end(old(self).tokens@) ==> without_stream_end(final(self).tokens@),
            r is Ok ==> final(self).tokens@.len() + 2 * final(self).indents@.len() <= old(
                self,
            ).tokens@.len() + 2 * old(self).indents@.len() + 5,
            r is Err <==> (old(self).simple_keys@.last().possible
                && old(self).simple_keys@.last().required),
            r is Ok ==> final(self).input.chars() == old(self).input.chars().drop_first(),
            r is Ok ==> final(self).simple_key_allowed,
            r is Ok ==> final(self).tokens@ == old(self).tokens@.push(
                Token {
                    data: TokenData::FlowEntry,
                    start_mark: old(self).mark,
                    end_mark: final(self).mark,
                },
            ),
            old(self).keys_idle() && r is Ok ==> final(self).keys_idle(),
            old(self).flow_level == 0 && old(self).indent <= old(self).mark.column && r is Ok
                ==> final(self).indent <= final(self).tokens@.last().start_mark.column,
            r is Ok ==> final(self).levels_kept(old(self)),
            r is Ok ==> final(self).simple_keys@ == old(self).simple_keys@.drop_last().push(
                (SimpleKey { possible: false, ..old(self).simple_keys@.last() }),
            ),
    {
        self.remove_simple_key()?;
        self.simple_key_allowed = true;
        let start_mark: Mark = self.mark;
        let ghost pre_skip = *self;
        self.skip_char();
        proof {
            if pre_skip.marks_behind() {
                Self::lemma_marks_move(&pre_skip, self);
            }
        }
        let end_mark: Mark = self.mark;
        let token = Token { data: TokenData::FlowEntry, start_mark, end_mark };
        let ghost before = *self;
        self.tokens.push_back(token);
        proof {
            Self::lemma_queue_grows(&before, self);
            if pre_skip.marks_behind() && pre_skip.in_order() {
                Self::lemma_up_to_position(&pre_skip);
            }
            if before.marks_behind() {
                Self::lemma_marks_push(&before, self, token);
            }
        }
        Ok(())
    }

    fn fetch_block_entry(&mut self) -> (r: Result<()>)
        requires
            old(self).wf(),
            old(self).stream_start_produced,
            !old(self).token_available,
            old(self).ahead(0) == '-',
        ensures
            final(self).fetch_kept(old(self)),
            old(self).marks_behind() ==> final(self).marks_behind(),
            old(self).marks_behind() && old(self).in_order() ==> final(self).in_order(),
            without_stream_end(old(self).tokens@) ==> without_stream_end(final(self).tokens@),
            r is Ok ==> final(self).tokens@.len() + 2 * final(self).indents@.len() <= old(
                self,
            ).tokens@.len() + 2 * old(self).indents@.len() + 5,
            r is Err <==> (old(self).flow_level == 0 && !old(self).simple_key_allowed) || (old(
                self,
            ).simple_keys@.last().possible && old(self).simple_keys@.last().required),
            old(self).flow_level == 0 && !old(self).simple_key_allowed ==> r == Err::<(), Error>(
                Error::scanner_spec(
                    "",
                    old(self).mark,
                    "block sequence entries are not allowed in this context",
                    old(self).mark,
                ),
            ),
            r is Ok ==> final(self).input.chars() == old(self).input.chars().drop_first(),
            r is Ok ==> final(self).simple_key_allowed,
            r is Ok ==> final(self).tokens@.len() > old(self).tokens@.len(),
            r is Ok ==> final(self).tokens@ == if old(self).flow_level == 0 && old(self).indent
                < old(self).mark.column {
                old(self).tokens@.push(
                    Token {
                        data: TokenData::BlockSequenceStart,
                        start_mark: old(self).mark,
                        end_mark: old(self).mark,
                    },
                ).push(final(self).tokens@.last())
            } else {
                old(self).tokens@.push(final(self).tokens@.last())
            },
            r is Ok ==> final(self).tokens@.last() == (Token {
                data: TokenData::BlockEntry,
                start_mark: old(self).mark,
                end_mark: final(self).mark,
            }),
            old(self).keys_idle() && r is Ok ==> final(self).keys_idle(),
            old(self).flow_level == 0 && old(self).indent <= old(self).mark.column && r is Ok
                ==> final(self).indent <= final(self).tokens@.last().start_mark.column,
            r is Ok ==> final(self).levels_kept(old(self)),
            r is Ok ==> final(self).simple_keys@ == old(self).simple_keys@.drop_last().push(
                (SimpleKey { possible: false, ..old(self).simple_keys@.last() }),
            ),
    {
        if self.flow_level == 0 {
            if !self.simple_key_allowed {
                return self.set_scanner_error(
                    "",
                    self.mark,
                    "block sequence entries are not allowed in this context",
                );
            }
            self.roll_indent(
                self.mark.column as i64,
                -1_i64,
                TokenData::BlockSequenceStart,
                self.mark,
            )?;
            proof {
                Self::lemma_queue_grows(old(self), self);
            }
        }
        self.remove_simple_key()?;
        self.simple_key_allowed = true;
        let start_mark: Mark = self.mark;
        let ghost pre_skip = *self;
        self.skip_char();
        proof {
            if pre_skip.marks_behind() {
                Self::lemma_marks_move(&pre_skip, self);
            }
        }
        let end_mark: Mark = self.mark;
        let token = Token { data: TokenData::BlockEntry, start_mark, end_mark };
        let ghost before = *self;
        self.tokens.push_back(token);
        proof {
            Self::lemma_queue_grows(&before, self);
            if pre_skip.marks_behind() && pre_skip.in_order() {
                Self::lemma_up_to_position(&pre_skip);
            }
            if before.marks_behind() {
                Self::lemma_marks_push(&before, self, token);
            }
        }
        Ok(())
    }

    fn fetch_key(&mut self) -> (r: Result<()>)
        requires
            old(self).wf(),
            old(self).stream_start_produced,
            !old(self).token_available,
            old(self).ahead(0) == '?',
        ensures
            final(self).fetch_kept(old(self)),
            old(self).marks_behind() ==> final(self).marks_behind(),
            old(self).marks_behind() && old(self).in_order() ==> final(self).in_order(),
            without_stream_end(old(self).tokens@) ==> without_stream_end(final(self).tokens@),
            r is Ok ==> final(self).tokens@.len() + 2 * final(self).indents@.len() <= old(
                self,
            ).tokens@.len() + 2 * old(self).indents@.len() + 5,
            r is Err <==> (old(self).flow_level == 0 && !old(self).simple_key_allowed) || (old(
                self,
            ).simple_keys@.last().possible && old(self).simple_keys@.last().required),
            old(self).flow_level == 0 && !old(self).simple_key_allowed ==> r == Err::<(), Error>(
                Error::scanner_spec(
                    "",
                    old(self).mark,
                    "mapping keys are not allowed in this context",
                    old(self).mark,
                ),
            ),
            r is Ok ==> final(self).input.chars() == old(self).input.chars().drop_first(),
            r is Ok ==> final(self).simple_key_allowed == (old(self).flow_level == 0),
            r is Ok ==> final(self).tokens@.len() > old(self).tokens@.len(),
            r is Ok ==> final(self).tokens@ == if old(self).flow_level == 0 && old(self).indent
                < old(self).mark.column {
                old(self).tokens@.push(
                    Token {
                        data: TokenData::BlockMappingStart,
                        start_mark: old(self).mark,
                        end_mark: old(self).mark,
                    },
                ).push(final(self).tokens@.last())
            } else {
                old(self).tokens@.push(final(self).tokens@.last())
            },
            r is Ok ==> final(self).tokens@.last() == (Token {
                data: TokenData::Key,
                start_mark: old(self).mark,
                end_mark: final(self).mark,
            }),
            old(self).keys_idle() && r is Ok ==> final(self).keys_idle(),
            old(self).flow_level == 0 && old(self).indent <= old(self).mark.column && r is Ok
                ==> final(self).indent <= final(self).tokens@.last().start_mark.column,
            r is Ok ==> final(self).levels_kept(old(self)),
            r is Ok ==> final(self).simple_keys@ == old(self).simple_keys@.drop_last().push(
                (SimpleKey { possible: false, ..old(self).simple_keys@.last() }),
            ),
    {
        if self.flow_level == 0 {
            if !self.simple_key_allowed {
                return self.set_scanner_error(
                    "",
                    self.mark,
                    "mapping keys are not allowed in this context",
                );
            }
            self.roll_indent(
                self.mark.column as i64,
                -1_i64,
                TokenData::BlockMappingStart,
                self.mark,
            )?;
            proof {
                Self::lemma_queue_grows(old(self), self);
            }
        }
        self.remove_simple_key()?;
        self.simple_key_allowed = self.flow_level == 0;
        let start_mark: Mark = self.mark;
        let ghost pre_skip = *self;
        self.skip_char();
        proof {
            if pre_skip.marks_behind() {
                Self::lemma_marks_move(&pre_skip, self);
            }
        }
        let end_mark: Mark = self.mark;
        let token = Token { data: TokenData::Key, start_mark, end_mark };
        let ghost before = *self;
        self.tokens.push_back(token);
        proof {
            Self::lemma_queue_grows(&before, self);
            if pre_skip.marks_behind() && pre_skip.in_order() {
                Self::lemma_up_to_position(&pre_skip);
            }
            if before.marks_behind() {
                Self::lemma_marks_push(&before, self, token);
            }
        }
        Ok(())
    }


    /// The KEY token that a value turns a saved simple key into.
    spec fn key_token(k: SimpleKey) -> Token {
        Token { data: TokenData::Key, start_mark: k.mark, end_mark: k.mark }
    }

    #[verifier::rlimit(40)]
    fn fetch_value(&mut self) -> (r: Result<()>)
        requires
            old(self).wf(),
            old(self).stream_start_produced,
            !old(self).token_available,
            old(self).ahead(0) == ':',
        ensures
            final(self).fetch_kept(old(self)),
            old(self).marks_behind() ==> final(self).marks_behind(),
            old(self).marks_behind() && old(self).in_order() ==> final(self).in_order(),
            without_stream_end(old(self).tokens@) ==> without_stream_end(final(self).tokens@),
            r is Ok ==> final(self).tokens@.len() + 2 * final(self).indents@.len() <= old(
                self,
            ).tokens@.len() + 2 * old(self).indents@.len() + 5,
            r is Err <==> !old(self).simple_keys@.last().possible && old(self).flow_level == 0
                && !old(self).simple_key_allowed,
            !old(self).simple_keys@.last().possible && old(self).flow_level == 0
                && !old(self).simple_key_allowed ==> r == Err::<(), Error>(
                Error::scanner_spec(
                    "",
                    old(self).mark,
                    "mapping values are not allowed in this context",
                    old(self).mark,
                ),
            ),
            r is Ok ==> final(self).input.chars() == old(self).input.chars().drop_first(),
            r is Ok ==> final(self).tokens@.len() > old(self).tokens@.len(),
            r is Ok ==> final(self).tokens@.last() == (Token {
                data: TokenData::Value,
                start_mark: old(self).mark,
                end_mark: final(self).mark,
            }),
            r is Ok ==> !final(self).simple_keys@.last().possible,
            ({
                let k = old(self).simple_keys@.last();
                r is Ok && k.possible ==> {
                    &&& !final(self).simple_key_allowed
                    &&& !(old(self).flow_level == 0 && old(self).indent < k.mark.column)
                        ==> final(self).tokens@ == old(self).tokens@.insert(
                        k.token_number.wrapping_sub(old(self).tokens_parsed) as int,
                        Self::key_token(k),
                    ).push(final(self).tokens@.last())
                    &&& old(self).flow_level == 0 && old(self).indent < k.mark.column
                        ==> final(self).tokens@ == Self::queue_with(
                        old(self).tokens@.insert(
                            k.token_number.wrapping_sub(old(self).tokens_parsed) as int,
                            Self::key_token(k),
                        ),
                        k.token_number as i64,
                        old(self).tokens_parsed,
                        Token {
                            data: TokenData::BlockMappingStart,
                            start_mark: k.mark,
                            end_mark: k.mark,
                        },
                    ).push(final(self).tokens@.last())
                }
            }),
            r is Ok && !old(self).simple_keys@.last().possible ==> final(self).simple_key_allowed
                == (old(self).flow_level == 0),
            r is Ok && !old(self).simple_keys@.last().possible ==> final(self).tokens@ == if old(
                self,
            ).flow_level == 0 && old(self).indent < old(self).mark.column {
                old(self).tokens@.push(
                    Token {
                        data: TokenData::BlockMappingStart,
                        start_mark: old(self).mark,
                        end_mark: old(self).mark,
                    },
                ).push(final(self).tokens@.last())
            } else {
                old(self).tokens@.push(final(self).tokens@.last())
            },
            old(self).keys_idle() && r is Ok ==> final(self).keys_idle(),
            old(self).flow_level == 0 && old(self).indent <= old(self).mark.column && (old(
                self,
            ).simple_keys@.last().possible ==> old(self).simple_keys@.last().mark.column <= old(
                self,
            ).mark.column) && r is Ok ==> final(self).indent <= final(self).tokens@.last().start_mark.column,
            r is Ok ==> final(self).levels_kept(old(self)),
    {
        let n = self.simple_keys.len();
        let simple_key = self.simple_keys[n - 1];
        if simple_key.possible {
            proof {
                assert(self.key_ok(self.simple_keys@[n - 1]));
            }
            let token = Token {
                data: TokenData::Key,
                start_mark: simple_key.mark,
                end_mark: simple_key.mark,
            };
            let ghost pre_insert = *self;
            let slot = simple_key.token_number.wrapping_sub(self.tokens_parsed);
            self.tokens.insert(slot, token);
            proof {
                if pre_insert.in_order() {
                    Self::lemma_key_fits(&pre_insert);
                }
                if pre_insert.marks_behind() {
                    Self::lemma_marks_insert(&pre_insert, self, slot as int, token);
                }
            }
            let mark_column = simple_key.mark.column as i64;
            let token_number = simple_key.token_number as i64;
            let mark = simple_key.mark;
            let ghost before = *self;
            self.simple_keys.set(
                n - 1,
                SimpleKey {
                    possible: false,
                    required: simple_key.required,
                    token_number: simple_key.token_number,
                    mark: simple_key.mark,
                },
            );
            proof {
                let x = simple_key.token_number;
                assert((x as i64) as usize == x) by (bit_vector);
                assert forall|j: int| 0 <= j < self.simple_keys@.len() implies #[trigger] self.key_ok(
                    self.simple_keys@[j],
                ) by {
                    assert(old(self).key_ok(old(self).simple_keys@[j]));
                }
            }
            proof {
                if pre_insert.in_order() {
                    assert forall|q: int|
                        0 <= q < self.simple_keys@.len() && (#[trigger] self.simple_keys@[q]).possible
                        implies q < pre_insert.simple_keys@.len() && self.simple_keys@[q]
                        == pre_insert.simple_keys@[q] by {
                        assert(q != n - 1);
                    }
                    Self::lemma_fits_after_insert(&pre_insert, self, slot as int, token);
                    if before.in_order() {
                        Self::lemma_order_keys_off(&before, self);
                    }
                    let x = simple_key.token_number;
                    assert(x != usize::MAX);
                    assert((x as i64) == -1 ==> (x as u64) == 0xffff_ffff_ffff_ffffu64) by (bit_vector);
                    assert(Self::queue_slot(token_number, self.tokens_parsed) == slot as int);
                }
            }
            let ghost mid = *self;
            self.roll_indent(mark_column, token_number, TokenData::BlockMappingStart, mark)?;
            proof {
                Self::lemma_queue_grows(&mid, self);
            }
            self.simple_key_allowed = false;
        } else {
            if self.flow_level == 0 {
                if !self.simple_key_allowed {
                    return self.set_scanner_error(
                        "",
                        self.mark,
                        "mapping values are not allowed in this context",
                    );
                }
                self.roll_indent(
                    self.mark.column as i64,
                    -1_i64,
                    TokenData::BlockMappingStart,
                    self.mark,
                )?;
                proof {
                    Self::lemma_queue_grows(old(self), self);
                }
            }
            self.simple_key_allowed = self.flow_level == 0;
        }
        let start_mark: Mark = self.mark;
        let ghost pre_skip = *self;
        self.skip_char();
        proof {
            if pre_skip.marks_behind() {
                Self::lemma_marks_move(&pre_skip, self);
            }
        }
        let end_mark: Mark = self.mark;
        let token = Token { data: TokenData::Value, start_mark, end_mark };
        let ghost before = *self;
        self.tokens.push_back(token);
        proof {
            Self::lemma_queue_grows(&before, self);
            if pre_skip.marks_behind() && pre_skip.in_order() {
                Self::lemma_up_to_position(&pre_skip);
            }
            if before.marks_behind() {
                Self::lemma_marks_push(&before, self, token);
            }
        }
        Ok(())
    }

    fn fetch_anchor(&mut self, fetch_alias_instead_of_anchor: bool) -> (r: Result<()>)
        requires
            old(self).wf(),
            old(self).stream_start_produced,
            !old(self).token_available,
            old(self).ahead(0) == if fetch_alias_instead_of_anchor {
                '*'
            } else {
                '&'
            },
        ensures
            final(self).fetch_kept(old(self)),
            old(self).marks_behind() ==> final(self).marks_behind(),
            old(self).marks_behind() && old(self).in_order() && old(self).tokens_parsed as int
                + old(self).tokens@.len() < usize::MAX ==> final(self).in_order(),
            without_stream_end(old(self).tokens@) ==> without_stream_end(final(self).tokens@),
            r is Ok ==> final(self).tokens@.len() + 2 * final(self).indents@.len() <= old(
                self,
            ).tokens@.len() + 2 * old(self).indents@.len() + 5,
            r is Ok ==> final(self).input.chars().len() < old(self).input.chars().len(),
            r is Ok ==> !final(self).simple_key_allowed,
            r is Err <==> (old(self).simple_key_allowed && old(self).simple_keys@.last().possible
                && old(self).simple_keys@.last().required) || !anchor_ok(
                old(self).input.chars(),
                old(self).input.nul_ends_input(),
            ),
            r is Ok ==> final(self).tokens@.len() == old(self).tokens@.len() + 1,
            r is Ok ==> final(self).tokens@.last().start_mark == old(self).mark,
            r is Ok ==> final(self).tokens@.last().end_mark == final(self).mark,
            r is Ok ==> if fetch_alias_instead_of_anchor {
                final(self).tokens@.last().data is Alias
            } else {
                final(self).tokens@.last().data is Anchor
            },
            r is Ok ==> ({
                let s = old(self).input.chars();
                let t = final(self).tokens@.last();
                let v = if fetch_alias_instead_of_anchor {
                    t.data->Alias_value@
                } else {
                    t.data->Anchor_value@
                };
                &&& anchor_name_of(v, s)
                &&& final(self).input.chars() == s.skip(1 + v.len() as int)
            }),
            old(self).keys_idle() && !old(self).simple_key_allowed && r is Ok ==> final(self).keys_idle(),
            r is Ok && old(self).simple_key_allowed ==> final(self).simple_keys@.len() == old(
                self,
            ).simple_keys@.len() && final(self).simple_keys@.drop_last() == old(
                self,
            ).simple_keys@.drop_last() && final(self).simple_keys@.last() == (SimpleKey {
                possible: true,
                required: old(self).flow_level == 0 && old(self).indent as u64
                    == old(self).mark.column,
                token_number: old(self).tokens_parsed.wrapping_add(old(self).tokens@.len() as usize),
                mark: old(self).mark,
            }),
            r is Ok && !old(self).simple_key_allowed ==> final(self).simple_keys@ == old(
                self,
            ).simple_keys@,
            old(self).flow_level == 0 && old(self).indent <= old(self).mark.column && r is Ok
                ==> final(self).indent <= final(self).tokens@.last().start_mark.column,
            r is Ok ==> final(self).levels_kept(old(self)),
    {
        self.save_simple_key()?;
        self.simple_key_allowed = false;
        let ghost pre_scan = *self;
        let scanned = self.scan_anchor(fetch_alias_instead_of_anchor);
        proof {
            if pre_scan.marks_behind() {
                Self::lemma_marks_move(&pre_scan, self);
            }
        }
        let token = scanned?;
        let ghost before = *self;
        self.tokens.push_back(token);
        proof {
            Self::lemma_queue_grows(&before, self);
            if pre_scan.marks_behind() && pre_scan.in_order() {
                Self::lemma_up_to_position(&pre_scan);
            }
            if before.marks_behind() {
                Self::lemma_marks_push(&before, self, token);
            }
        }
        Ok(())
    }

    fn fetch_tag(&mut self) -> (r: Result<()>)
        requires
            old(self).wf(),
            old(self).stream_start_produced,
            !old(self).token_available,
            old(self).ahead(0) == '!',
        ensures
            final(self).fetch_kept(old(self)),
            old(self).marks_behind() ==> final(self).marks_behind(),
            old(self).marks_behind() && old(self).in_order() && old(self).tokens_parsed as int
                + old(self).tokens@.len() < usize::MAX ==> final(self).in_order(),
            without_stream_end(old(self).tokens@) ==> without_stream_end(final(self).tokens@),
            r is Ok ==> final(self).tokens@.len() + 2 * final(self).indents@.len() <= old(
                self,
            ).tokens@.len() + 2 * old(self).indents@.len() + 5,
            r is Ok ==> final(self).input.chars().len() < old(self).input.chars().len(),
            r is Ok ==> !final(self).simple_key_allowed,
            r is Ok ==> final(self).tokens@.len() == old(self).tokens@.len() + 1,
            r is Ok ==> final(self).tokens@.last().start_mark == old(self).mark,
            r is Ok ==> final(self).tokens@.last().end_mark == final(self).mark,
            r is Ok ==> final(self).tokens@.last().data is Tag,
            r is Err <==> (old(self).simple_key_allowed && old(self).simple_keys@.last().possible
                && old(self).simple_keys@.last().required) || !tag_ok(
                old(self).input.chars(),
                old(self).input.nul_ends_input(),
                old(self).flow_level != 0,
            ),
            r is Ok ==> tag_parts_of(
                final(self).tokens@.last().data->Tag_handle@,
                final(self).tokens@.last().data->Tag_suffix@,
                old(self).input.chars(),
                old(self).input.chars().len() - final(self).input.chars().len(),
            ),
            old(self).keys_idle() && !old(self).simple_key_allowed && r is Ok ==> final(self).keys_idle(),
            r is Ok && old(self).simple_key_allowed ==> final(self).simple_keys@.len() == old(
                self,
            ).simple_keys@.len() && final(self).simple_keys@.drop_last() == old(
                self,
            ).simple_keys@.drop_last() && final(self).simple_keys@.last() == (SimpleKey {
                possible: true,
                required: old(self).flow_level == 0 && old(self).indent as u64
                    == old(self).mark.column,
                token_number: old(self).tokens_parsed.wrapping_add(old(self).tokens@.len() as usize),
                mark: old(self).mark,
            }),
            r is Ok && !old(self).simple_key_allowed ==> final(self).simple_keys@ == old(
                self,
            ).simple_keys@,
            old(self).flow_level == 0 && old(self).indent <= old(self).mark.column && r is Ok
                ==> final(self).indent <= final(self).tokens@.last().start_mark.column,
            r is Ok ==> final(self).levels_kept(old(self)),
    {
        self.save_simple_key()?;
        self.simple_key_allowed = false;
        let ghost pre_scan = *self;
        let scanned = self.scan_tag();
        proof {
            if pre_scan.marks_behind() {
                Self::lemma_marks_move(&pre_scan, self);
            }
        }
        let token = scanned?;
        let ghost before = *self;
        self.tokens.push_back(token);
        proof {
            Self::lemma_queue_grows(&before, self);
            if pre_scan.marks_behind() && pre_scan.in_order() {
                Self::lemma_up_to_position(&pre_scan);
            }
            if before.marks_behind() {
                Self::lemma_marks_push(&before, self, token);
            }
        }
        Ok(())
    }

    fn fetch_block_scalar(&mut self, literal: bool) -> (r: Result<()>)
        requires
            old(self).wf(),
            old(self).stream_start_produced,
            !old(self).token_available,
            old(self).ahead(0) == if literal {
                '|'
            } else {
                '>'
            },
        ensures
            final(self).fetch_kept(old(self)),
            old(self).marks_behind() ==> final(self).marks_behind(),
            old(self).marks_behind() && old(self).in_order() ==> final(self).in_order(),
            without_stream_end(old(self).tokens@) ==> without_stream_end(final(self).tokens@),
            r is Ok ==> final(self).tokens@.len() + 2 * final(self).indents@.len() <= old(
                self,
            ).tokens@.len() + 2 * old(self).indents@.len() + 5,
            r is Ok ==> final(self).input.chars().len() < old(self).input.chars().len(),
            r is Ok ==> final(self).simple_key_allowed,
            r is Ok ==> final(self).tokens@.len() == old(self).tokens@.len() + 1,
            r is Ok ==> !(old(self).simple_keys@.last().possible
                && old(self).simple_keys@.last().required) && block_header_ok(
                old(self).input.chars(),
                old(self).input.nul_ends_input(),
            ),
            !(old(self).simple_keys@.last().possible && old(self).simple_keys@.last().required)
                && block_header_ok(old(self).input.chars(), old(self).input.nul_ends_input())
                && !old(self).input.chars().contains('\t') ==> r is Ok,
            r is Ok ==> final(self).tokens@.last().start_mark == old(self).mark,
            r is Ok ==> final(self).tokens@.last().data is Scalar
                && final(self).tokens@.last().data->style == if literal {
                ScalarStyle::Literal
            } else {
                ScalarStyle::Folded
            },
            r is Ok ==> ({
                let s = old(self).input.chars();
                let h = first_line_len(s, old(self).input.nul_ends_input());
                let n = s.len() - final(self).input.chars().len();
                &&& h <= n
                &&& visible(final(self).tokens@.last().data->Scalar_value@) == visible(
                    s.subrange(h, n),
                )
            }),
            old(self).keys_idle() && r is Ok ==> final(self).keys_idle(),
            r is Ok ==> (block_chomp(old(self).input.chars()) != '+' ==> !({
                let v = final(self).tokens@.last().data->Scalar_value@;
                v.len() >= 2 && break_char(v[v.len() - 1]) && break_char(v[v.len() - 2])
            })),
            r is Ok ==> (block_chomp(old(self).input.chars()) == '-' ==> ({
                let v = final(self).tokens@.last().data->Scalar_value@;
                v.len() == 0 || !break_char(v.last())
            })),
            r is Ok ==> ({
                let s = old(self).input.chars();
                let body = s.subrange(
                    first_line_len(s, old(self).input.nul_ends_input()),
                    s.len() - final(self).input.chars().len(),
                );
                let v = final(self).tokens@.last().data->Scalar_value@;
                block_chomp(s) != '-' && block_chomp(s) != '+' && visible(body).len() > 0
                    && body.len() > 0 && break_char(body.last()) ==> v.len() > 0 && break_char(
                    v.last(),
                )
            }),
            old(self).flow_level == 0 && old(self).indent <= old(self).mark.column && r is Ok
                ==> final(self).indent <= final(self).tokens@.last().start_mark.column,
            r is Ok ==> final(self).levels_kept(old(self)),
    {
        self.remove_simple_key()?;
        self.simple_key_allowed = true;
        let ghost pre_scan = *self;
        let scanned = self.scan_block_scalar(literal);
        proof {
            if pre_scan.marks_behind() {
                Self::lemma_marks_move(&pre_scan, self);
            }
        }
        let token = scanned?;
        let ghost before = *self;
        self.tokens.push_back(token);
        proof {
            Self::lemma_queue_grows(&before, self);
            if pre_scan.marks_behind() && pre_scan.in_order() {
                Self::lemma_up_to_position(&pre_scan);
            }
            if before.marks_behind() {
                Self::lemma_marks_push(&before, self, token);
            }
        }
        Ok(())
    }

    fn fetch_flow_scalar(&mut self, single: bool) -> (r: Result<()>)
        requires
            old(self).wf(),
            old(self).stream_start_produced,
            !old(self).token_available,
            old(self).ahead(0) == if single {
                '\''
            } else {
                '"'
            },
        ensures
            final(self).fetch_kept(old(self)),
            old(self).marks_behind() ==> final(self).marks_behind(),
            old(self).marks_behind() && old(self).in_order() && old(self).tokens_parsed as int
                + old(self).tokens@.len() < usize::MAX ==> final(self).in_order(),
            without_stream_end(old(self).tokens@) ==> without_stream_end(final(self).tokens@),
            r is Ok ==> final(self).tokens@.len() + 2 * final(self).indents@.len() <= old(
                self,
            ).tokens@.len() + 2 * old(self).indents@.len() + 5,
            r is Ok ==> final(self).input.chars().len() < old(self).input.chars().len(),
            r is Ok ==> !final(self).simple_key_allowed,
            r is Ok ==> final(self).tokens@.len() == old(self).tokens@.len() + 1,
            r is Ok ==> final(self).tokens@.last().start_mark == old(self).mark,
            r is Ok ==> final(self).tokens@.last().end_mark == final(self).mark,
            r is Ok ==> final(self).tokens@.last().data is Scalar
                && final(self).tokens@.last().data->style == if single {
                ScalarStyle::SingleQuoted
            } else {
                ScalarStyle::DoubleQuoted
            },
            r is Ok ==> ({
                let s = old(self).input.chars();
                let n = s.len() - final(self).input.chars().len();
                let inner = s.subrange(1, n - 1);
                &&& 2 <= n
                &&& s[n - 1] == s[0]
                &&& visible(final(self).tokens@.last().data->Scalar_value@) == visible(
                    quoted_decoded(inner, single),
                )
            }),
            r is Ok ==> ({
                let s = old(self).input.chars();
                let inner = s.subrange(1, s.len() - final(self).input.chars().len() - 1);
                escape_free(inner, single) ==> final(self).tokens@.last().data->Scalar_value@
                    == quoted_folded(quoted_decoded(inner, single))
            }),
            old(self).simple_key_allowed && old(self).simple_keys@.last().possible
                && old(self).simple_keys@.last().required ==> r is Err,
            !(old(self).simple_key_allowed && old(self).simple_keys@.last().possible
                && old(self).simple_keys@.last().required) && quoted_clear(
                old(self).input.chars().drop_first(),
                single,
            ) ==> r is Ok,
            old(self).keys_idle() && !old(self).simple_key_allowed && r is Ok ==> final(self).keys_idle(),
            r is Ok && old(self).simple_key_allowed ==> final(self).simple_keys@.len() == old(
                self,
            ).simple_keys@.len() && final(self).simple_keys@.drop_last() == old(
                self,
            ).simple_keys@.drop_last() && final(self).simple_keys@.last() == (SimpleKey {
                possible: true,
                required: old(self).flow_level == 0 && old(self).indent as u64
                    == old(self).mark.column,
                token_number: old(self).tokens_parsed.wrapping_add(old(self).tokens@.len() as usize),
                mark: old(self).mark,
            }),
            r is Ok && !old(self).simple_key_allowed ==> final(self).simple_keys@ == old(
                self,
            ).simple_keys@,
            old(self).flow_level == 0 && old(self).indent <= old(self).mark.column && r is Ok
                ==> final(self).indent <= final(self).tokens@.last().start_mark.column,
            r is Ok ==> final(self).levels_kept(old(self)),
    {
        self.save_simple_key()?;
        self.simple_key_allowed = false;
        let ghost pre_scan = *self;
        let scanned = self.scan_flow_scalar(single);
        proof {
            if pre_scan.marks_behind() {
                Self::lemma_marks_move(&pre_scan, self);
            }
        }
        let token = scanned?;
        let ghost before = *self;
        self.tokens.push_back(token);
        proof {
            Self::lemma_queue_grows(&before, self);
            if pre_scan.marks_behind() && pre_scan.in_order() {
                Self::lemma_up_to_position(&pre_scan);
            }
            if before.marks_behind() {
                Self::lemma_marks_push(&before, self, token);
            }
        }
        Ok(())
    }

    fn fetch_plain_scalar(&mut self) -> (r: Result<()>)
        requires
            old(self).wf(),
            old(self).stream_start_produced,
            !old(self).token_available,
            old(self).plain_start(),
        ensures
            final(self).fetch_kept(old(self)),
            old(self).marks_behind() ==> final(self).marks_behind(),
            old(self).marks_behind() && old(self).in_order() && old(self).tokens_parsed as int
                + old(self).tokens@.len() < usize::MAX ==> final(self).in_order(),
            without_stream_end(old(self).tokens@) ==> without_stream_end(final(self).tokens@),
            r is Ok ==> final(self).tokens@.len() + 2 * final(self).indents@.len() <= old(
                self,
            ).tokens@.len() + 2 * old(self).indents@.len() + 5,
            r is Ok ==> final(self).input.chars().len() < old(self).input.chars().len(),
            r is Ok ==> final(self).tokens@.len() == old(self).tokens@.len() + 1,
            old(self).simple_key_allowed && old(self).simple_keys@.last().possible
                && old(self).simple_keys@.last().required ==> r is Err,
            !(old(self).simple_key_allowed && old(self).simple_keys@.last().possible
                && old(self).simple_keys@.last().required) && plain_clear(
                old(self).input.chars(),
                old(self).flow_level != 0,
            ) ==> r is Ok,
            r is Ok ==> final(self).tokens@.last().start_mark == old(self).mark,
            r is Ok ==> final(self).tokens@.last().data is Scalar
                && final(self).tokens@.last().data->style == ScalarStyle::Plain,
            r is Ok ==> forall|p: int|
                0 <= p < old(self).input.chars().len() - final(self).input.chars().len()
                    ==> !#[trigger] plain_stop_at(old(self).input.chars(), p, old(self).in_flow()),
            r is Ok ==> final(self).tokens@.last().data->Scalar_value@ == plain_value(
                old(self).input.chars().take(
                    old(self).input.chars().len() - final(self).input.chars().len(),
                ),
            ),
            r is Ok ==> visible(final(self).tokens@.last().data->Scalar_value@) == visible(
                old(self).input.chars().take(
                    old(self).input.chars().len() - final(self).input.chars().len(),
                ),
            ),
            old(self).keys_idle() && !old(self).simple_key_allowed && r is Ok ==> final(self).keys_idle(),
            r is Ok && old(self).simple_key_allowed ==> final(self).simple_keys@.len() == old(
                self,
            ).simple_keys@.len() && final(self).simple_keys@.drop_last() == old(
                self,
            ).simple_keys@.drop_last() && final(self).simple_keys@.last() == (SimpleKey {
                possible: true,
                required: old(self).flow_level == 0 && old(self).indent as u64
                    == old(self).mark.column,
                token_number: old(self).tokens_parsed.wrapping_add(old(self).tokens@.len() as usize),
                mark: old(self).mark,
            }),
            r is Ok && !old(self).simple_key_allowed ==> final(self).simple_keys@ == old(
                self,
            ).simple_keys@,
            r is Ok ==> forall|p: int|
                0 <= p < old(self).input.chars().len() - final(self).input.chars().len()
                    && line_start_at(old(self).input.chars(), p, old(self).mark.column == 0)
                    ==> !#[trigger] marker_at(old(self).input.chars(), p),
            old(self).flow_level == 0 && old(self).indent <= old(self).mark.column && r is Ok
                ==> final(self).indent <= final(self).tokens@.last().start_mark.column,
            r is Ok ==> final(self).levels_kept(old(self)),
    {
        self.save_simple_key()?;
        self.simple_key_allowed = false;
        let ghost pre_scan = *self;
        let scanned = self.scan_plain_scalar();
        proof {
            if pre_scan.marks_behind() {
                Self::lemma_marks_move(&pre_scan, self);
            }
            assert(pre_scan.flow_level == old(self).flow_level);
            assert(pre_scan.in_flow() == old(self).in_flow());
            assert(pre_scan.input.chars() == old(self).input.chars());
        }
        let token = scanned?;
        let ghost before = *self;
        self.tokens.push_back(token);
        proof {
            Self::lemma_queue_grows(&before, self);
            if pre_scan.marks_behind() && pre_scan.in_order() {
                Self::lemma_up_to_position(&pre_scan);
            }
            if before.marks_behind() {
                Self::lemma_marks_push(&before, self, token);
            }
        }
        Ok(())
    }


    #[verifier::rlimit(100)]
    #[verifier::spinoff_prover]
    fn fetch_next_token(&mut self) -> (r: Result<()>)
        requires
            old(self).wf(),
            !old(self).token_available,
        ensures
            final(self).wf(),
            final(self).stream_start_produced,
            final(self).stream_end_produced == old(self).stream_end_produced,
            final(self).tokens_parsed == old(self).tokens_parsed,
            !final(self).token_available,
            final(self).input.nul_ends_input() == old(self).input.nul_ends_input(),
            final(self).input.chars().len() <= old(self).input.chars().len(),
            mark_not_after(old(self).mark, final(self).mark),
            !old(self).stream_start_produced ==> {
                &&& r is Ok
                &&& final(self).input.chars() == old(self).input.chars()
                &&& final(self).mark == old(self).mark
                &&& final(self).tokens@ == seq![stream_start_token(old(self).mark)]
                &&& forall|i: int|
                    0 <= i < final(self).simple_keys@.len() ==> !(
                    #[trigger] final(self).simple_keys@[i]).possible
            },
            old(self).stream_start_produced && r is Ok ==> final(self).input.chars().len() < old(
                self,
            ).input.chars().len() || final(self).stream_ending(),
            without_stream_end(old(self).tokens@) ==> without_stream_end(final(self).tokens@) || (
            r is Ok && final(self).stream_ending() && final(self).at_end()),
            without_stream_end(old(self).tokens@) && r is Ok ==> final(self).token_budget() < old(
                self,
            ).token_budget(),
            old(self).marks_behind() ==> final(self).marks_behind(),
            final(self).last_start == old(self).last_start,
            old(self).marks_behind() && old(self).in_order() && old(self).has_room() ==> final(self).in_order(),
            old(self).stream_start_produced && r is Ok ==> exists|k: int|
                0 <= k <= old(self).input.chars().len() && (token_kind_at(
                    final(self).tokens@.last().data,
                    #[trigger] old(self).input.chars().skip(k),
                    true,
                    old(self).flow_level != 0,
                    old(self).input.nul_ends_input(),
                ) || token_kind_at(
                    final(self).tokens@.last().data,
                    old(self).input.chars().skip(k),
                    false,
                    old(self).flow_level != 0,
                    old(self).input.nul_ends_input(),
                )),
            old(self).stream_start_produced && old(self).at_end() && !old(self).key_pending()
                ==> r is Ok && final(self).stream_ending() && !final(self).key_pending(),
            old(self).stream_start_produced && starts_clean(old(self).input.chars()) && old(
                self,
            ).keys_idle() && (!old(self).simple_key_allowed || !saves_key_at(
                old(self).input.chars(),
                old(self).mark.column == 0,
                old(self).flow_level != 0,
                old(self).input.nul_ends_input(),
            )) && r is Ok ==> final(self).keys_idle() && final(self).tokens@.len() > 0,
            old(self).stream_start_produced && starts_clean(old(self).input.chars()) && old(
                self,
            ).keys_idle() && old(self).tokens@.len() == 0 && (old(self).flow_level != 0 || (old(
                self,
            ).indent as i64) <= (old(self).mark.column as i64)) && r is Ok ==> front_kind_at(
                final(self).tokens@[0].data,
                old(self).input.chars(),
                old(self).mark.column == 0,
                old(self).flow_level != 0,
                old(self).input.nul_ends_input(),
            ),
            old(self).stream_start_produced && starts_clean(old(self).input.chars())
                && !old(self).key_overdue() && token_owed(
                old(self).input.chars(),
                old(self).mark.column == 0,
                old(self).flow_level != 0,
                old(self).input.nul_ends_input(),
                old(self).simple_key_allowed,
                old(self).simple_keys@.last().possible && old(self).simple_keys@.last().required,
                old(self).simple_keys@.last().possible && !Self::is_stale(
                    old(self).simple_keys@.last(),
                    old(self).mark,
                ),
            ) ==> r is Ok,
            old(self).stream_start_produced && starts_clean(old(self).input.chars())
                && !old(self).key_overdue() ==> ({
                let c = old(self).ahead(0);
                let key_due = old(self).simple_keys@.last().possible
                    && old(self).simple_keys@.last().required;
                let col0 = old(self).mark.column == 0;
                let in_flow = old(self).flow_level != 0;
                let nul = old(self).input.nul_ends_input();
                &&& r is Ok ==> token_kind_at(
                    final(self).tokens@.last().data,
                    old(self).input.chars(),
                    col0,
                    in_flow,
                    nul,
                )
                &&& (c == '[' || c == '{') ==> (r is Err <==> old(self).simple_key_allowed
                    && key_due)
                &&& (c == ']' || c == '}' || c == ',') ==> (r is Err <==> key_due)
                &&& no_token_at(old(self).input.chars(), col0, in_flow, nul) && (in_flow
                    || (old(self).indent as i64) <= (old(self).mark.column as i64))
                    ==> final(self).tokens@ == old(self).tokens@
                &&& no_token_at(old(self).input.chars(), col0, in_flow, nul) ==> r == Err::<
                    (),
                    Error,
                >(
                    Error::scanner_spec(
                        "while scanning for the next token",
                        old(self).mark,
                        "found character that cannot start any token",
                        old(self).mark,
                    ),
                )
            }),
            old(self).stream_start_produced && old(self).flow_level == 0 && r is Ok
                ==> final(self).indent <= final(self).tokens@.last().start_mark.column,
            old(self).stream_start_produced && old(self).flow_level == 0 && r is Ok && !closes_all(
                final(self).tokens@.last().data,
            ) ==> forall|i: int|
                0 <= i < old(self).levels().len() && old(self).levels()[i]
                    <= final(self).tokens@.last().start_mark.column ==> i < final(self).levels().len()
                    && #[trigger] final(self).levels()[i] == old(self).levels()[i],
    {
        self.input.lookahead(1);
        if !self.stream_start_produced {
            self.fetch_stream_start();
            proof {
                assert(old(self).tokens@.push(stream_start_token(old(self).mark)) =~= seq![
                    stream_start_token(old(self).mark),
                ]);
            }
            return Ok(());
        }
        let ghost pre_scan = *self;
        self.scan_to_next_token()?;
        proof {
            if pre_scan.marks_behind() {
                Self::lemma_marks_move(&pre_scan, self);
            }
        }
        let ghost pre_stale = *self;
        proof {
            if old(self).at_end() && !old(self).key_pending() {
                assert(starts_clean(old(self).input.chars()));
                if old(self).key_overdue() {
                    let q = choose|q: int|
                        0 <= q < old(self).simple_keys@.len() && Self::is_stale(
                            #[trigger] old(self).simple_keys@[q],
                            old(self).mark,
                        ) && old(self).simple_keys@[q].required;
                    assert(old(self).simple_keys@[q].possible);
                }
            }
        }
        let stale = self.stale_simple_keys();
        proof {
            if old(self).keys_idle() && stale is Ok {
                assert forall|q: int| 0 <= q < self.simple_keys@.len() implies !(
                #[trigger] self.simple_keys@[q]).possible by {
                    assert(!pre_stale.simple_keys@[q].possible);
                }
            }
            if old(self).at_end() && !old(self).key_pending() && stale is Ok {
                if self.key_pending() {
                    let q = choose|q: int|
                        0 <= q < self.simple_keys@.len() && (#[trigger] self.simple_keys@[q]).possible
                            && self.simple_keys@[q].required;
                    assert(pre_stale.simple_keys@[q].possible);
                    assert(old(self).simple_keys@[q].possible);
                }
            }
            if starts_clean(old(self).input.chars()) && !old(self).key_overdue() {
                assert(pre_stale.mark == old(self).mark);
                assert(pre_stale.simple_keys@ == old(self).simple_keys@);
                if stale is Err {
                    let i = choose|i: int|
                        0 <= i < pre_stale.simple_keys@.len() && Self::is_stale(
                            #[trigger] pre_stale.simple_keys@[i],
                            pre_stale.mark,
                        ) && pre_stale.simple_keys@[i].required;
                    assert(Self::is_stale(old(self).simple_keys@[i], old(self).mark));
                }
                assert(stale is Ok);
                let last = pre_stale.simple_keys@.len() - 1;
                assert(pre_stale.simple_keys@[last] == old(self).simple_keys@.last());
                assert(self.simple_keys@[last] == self.simple_keys@.last());
            }
        }
        stale?;
        let ghost pre_unroll = *self;
        self.unroll_indent(self.mark.column as i64);
        proof {
            Self::lemma_queue_grows(&pre_unroll, self);
            if without_stream_end(pre_unroll.tokens@) {
                assert forall|i: int| 0 <= i < self.tokens@.len() implies !((
                #[trigger] self.tokens@[i]).data is StreamEnd) by {
                    if i >= pre_unroll.tokens@.len() {
                        assert(self.tokens@[i].data is BlockEnd);
                    } else {
                        assert(self.tokens@[i] == pre_unroll.tokens@[i]);
                    }
                }
            }
        }
        proof {
            assert(pre_unroll.token_budget() <= old(self).token_budget());
            if pre_unroll.flow_level == 0 {
                let n = (pre_unroll.indents@.len() - self.indents@.len()) as nat;
                assert(Self::block_ends(n, pre_unroll.mark).len() == n);
                assert(self.tokens@.len() == pre_unroll.tokens@.len() + n);
            }
            if !without_stream_end(pre_unroll.tokens@) {
                let i = choose|i: int|
                    0 <= i < pre_unroll.tokens@.len() && (
                    #[trigger] pre_unroll.tokens@[i]).data is StreamEnd;
                assert(self.tokens@[i] == pre_unroll.tokens@[i]);
            }
            assert(without_stream_end(pre_unroll.tokens@) == without_stream_end(self.tokens@));
            assert(self.token_budget() <= pre_unroll.token_budget());
            assert(self.tokens@.len() <= self.token_budget());
        }
        let ghost here = *self;
        proof {
            let last = here.simple_keys@.len() - 1;
            assert(here.simple_keys@[last] == here.simple_keys@.last());
            assert(here.key_ok(here.simple_keys@[last]));
            if here.simple_keys@.last().possible {
                assert(pre_stale.simple_keys@[last].possible);
                assert(!Self::is_stale(pre_stale.simple_keys@[last], pre_stale.mark));
            }
        }
        let r = self.fetch_token_here();
        proof {
            if old(self).at_end() && !old(self).key_pending() {
                assert(here.at_end());
                assert(!here.key_pending());
                let last = here.simple_keys@.len() - 1;
                assert(here.simple_keys@[last] == here.simple_keys@.last());
                if here.simple_keys@.last().possible && here.simple_keys@.last().required {
                    assert(here.simple_keys@[last].possible);
                }
                if r is Ok && self.key_pending() {
                    let q = choose|q: int|
                        0 <= q < self.simple_keys@.len() && (#[trigger] self.simple_keys@[q]).possible
                            && self.simple_keys@[q].required;
                    if q < last {
                        assert(self.simple_keys@.drop_last()[q] == self.simple_keys@[q]);
                        assert(here.simple_keys@.drop_last()[q] == here.simple_keys@[q]);
                    }
                }
            }
            let k = old(self).input.chars().len() - here.input.chars().len();
            assert(here.input.chars() == old(self).input.chars().skip(k));
            if r is Ok {
                assert(token_kind_at(
                    self.tokens@.last().data,
                    old(self).input.chars().skip(k),
                    here.mark.column == 0,
                    old(self).flow_level != 0,
                    old(self).input.nul_ends_input(),
                ));
            }
            if old(self).flow_level == 0 && r is Ok && !closes_all(self.tokens@.last().data) {
                assert(pre_unroll.levels() == old(self).levels());
                assert forall|i: int|
                    0 <= i < old(self).levels().len() && old(self).levels()[i]
                        <= self.tokens@.last().start_mark.column implies i < self.levels().len()
                    && #[trigger] self.levels()[i] == old(self).levels()[i] by {
                    assert(i <= here.indents@.len());
                    assert(here.levels()[i] == old(self).levels()[i]);
                }
            }
        }
        r
    }

    /// Fetch the token that starts at the position, which is past any
    /// whitespace and comment: the choice goes by the characters ahead.
    #[verifier::rlimit(100)]
    #[verifier::spinoff_prover]
    fn fetch_token_here(&mut self) -> (r: Result<()>)
        requires
            old(self).wf(),
            old(self).stream_start_produced,
            !old(self).token_available,
            !break_char(old(self).ahead(0)),
        ensures
            final(self).fetch_kept(old(self)),
            final(self).stream_start_produced,
            old(self).marks_behind() ==> final(self).marks_behind(),
            old(self).marks_behind() && old(self).in_order() && old(self).has_room() ==> final(self).in_order(),
            r is Ok ==> final(self).input.chars().len() < old(self).input.chars().len()
                || final(self).stream_ending(),
            without_stream_end(old(self).tokens@) ==> without_stream_end(final(self).tokens@) || (
            r is Ok && final(self).stream_ending() && final(self).at_end()),
            without_stream_end(old(self).tokens@) && r is Ok ==> final(self).token_budget() < old(
                self,
            ).token_budget(),
            r is Ok ==> token_kind_at(
                final(self).tokens@.last().data,
                old(self).input.chars(),
                old(self).mark.column == 0,
                old(self).flow_level != 0,
                old(self).input.nul_ends_input(),
            ),
            ({
                let c = old(self).ahead(0);
                let key_due = old(self).simple_keys@.last().possible
                    && old(self).simple_keys@.last().required;
                &&& (c == '[' || c == '{') ==> (r is Err <==> old(self).simple_key_allowed
                    && key_due)
                &&& (c == ']' || c == '}' || c == ',') ==> (r is Err <==> key_due)
                &&& (c == '*' || c == '&') ==> (r is Err <==> (old(self).simple_key_allowed
                    && key_due) || !anchor_ok(
                    old(self).input.chars(),
                    old(self).input.nul_ends_input(),
                ))
                &&& c == '!' ==> (r is Err <==> (old(self).simple_key_allowed && key_due)
                    || !tag_ok(
                    old(self).input.chars(),
                    old(self).input.nul_ends_input(),
                    old(self).flow_level != 0,
                ))
            }),
            token_owed(
                old(self).input.chars(),
                old(self).mark.column == 0,
                old(self).flow_level != 0,
                old(self).input.nul_ends_input(),
                old(self).simple_key_allowed,
                old(self).simple_keys@.last().possible && old(self).simple_keys@.last().required,
                old(self).simple_keys@.last().possible,
            ) ==> r is Ok,
            old(self).at_end() ==> (r is Err <==> old(self).simple_keys@.last().possible
                && old(self).simple_keys@.last().required),
            old(self).at_end() && r is Ok ==> {
                &&& final(self).stream_ending()
                &&& final(self).simple_keys@.len() == old(self).simple_keys@.len()
                &&& final(self).simple_keys@.drop_last() == old(self).simple_keys@.drop_last()
                &&& !final(self).simple_keys@.last().possible
            },
            no_token_at(
                old(self).input.chars(),
                old(self).mark.column == 0,
                old(self).flow_level != 0,
                old(self).input.nul_ends_input(),
            ) ==> r == Err::<(), Error>(
                Error::scanner_spec(
                    "while scanning for the next token",
                    old(self).mark,
                    "found character that cannot start any token",
                    old(self).mark,
                ),
            ) && final(self).tokens@ == old(self).tokens@,
            old(self).keys_idle() && (!old(self).simple_key_allowed || !saves_key_at(
                old(self).input.chars(),
                old(self).mark.column == 0,
                old(self).flow_level != 0,
                old(self).input.nul_ends_input(),
            )) && r is Ok ==> final(self).keys_idle(),
            r is Ok ==> final(self).tokens@.len() > old(self).tokens@.len(),
            old(self).keys_idle() && old(self).tokens@.len() == 0 && r is Ok ==> front_kind_at(
                final(self).tokens@[0].data,
                old(self).input.chars(),
                old(self).mark.column == 0,
                old(self).flow_level != 0,
                old(self).input.nul_ends_input(),
            ),
            old(self).flow_level == 0 && old(self).indent <= old(self).mark.column && (old(
                self,
            ).simple_keys@.last().possible ==> old(self).simple_keys@.last().mark.column <= old(
                self,
            ).mark.column) && r is Ok ==> final(self).indent <= final(self).tokens@.last().start_mark.column,
            r is Ok && !closes_all(final(self).tokens@.last().data) ==> final(self).levels_kept(
                old(self),
            ) && final(self).tokens@.last().start_mark == old(self).mark,
    {
        proof {
            assert(self.tokens@.len() <= self.token_budget());
        }
        self.input.lookahead(4);
        if self.input.next_is_z() {
            return self.fetch_stream_end();
        }
        if self.mark.column == 0_u64 && self.input.next_char_is('%') {
            return self.fetch_directive();
        }
        if self.mark.column == 0_u64 && self.input.nth_char_is(0, '-') && self.input.nth_char_is(
            1,
            '-',
        ) && self.input.nth_char_is(2, '-') && is_blank_or_breakz(self.input.peek_nth(3)) {
            return self.fetch_document_indicator(TokenData::DocumentStart);
        }
        if self.mark.column == 0_u64 && self.input.nth_char_is(0, '.') && self.input.nth_char_is(
            1,
            '.',
        ) && self.input.nth_char_is(2, '.') && is_blank_or_breakz(self.input.peek_nth(3)) {
            return self.fetch_document_indicator(TokenData::DocumentEnd);
        }
        if self.input.next_char_is('[') {
            return self.fetch_flow_collection_start(TokenData::FlowSequenceStart);
        }
        if self.input.next_char_is('{') {
            return self.fetch_flow_collection_start(TokenData::FlowMappingStart);
        }
        if self.input.next_char_is(']') {
            return self.fetch_flow_collection_end(TokenData::FlowSequenceEnd);
        }
        if self.input.next_char_is('}') {
            return self.fetch_flow_collection_end(TokenData::FlowMappingEnd);
        }
        if self.input.next_char_is(',') {
            return self.fetch_flow_entry();
        }
        if self.input.next_char_is('-') && is_blank_or_breakz(self.input.peek_nth(1)) {
            return self.fetch_block_entry();
        }
        if self.input.next_char_is('?') && (self.flow_level != 0 || is_blank_or_breakz(
            self.input.peek_nth(1),
        )) {
            return self.fetch_key();
        }
        if self.input.next_char_is(':') && (self.flow_level != 0 || is_blank_or_breakz(
            self.input.peek_nth(1),
        )) {
            return self.fetch_value();
        }
        if self.input.next_char_is('*') {
            return self.fetch_anchor(true);
        }
        if self.input.next_char_is('&') {
            return self.fetch_anchor(false);
        }
        if self.input.next_char_is('!') {
            return self.fetch_tag();
        }
        if self.input.next_char_is('|') && self.flow_level == 0 {
            return self.fetch_block_scalar(true);
        }
        if self.input.next_char_is('>') && self.flow_level == 0 {
            return self.fetch_block_scalar(false);
        }
        if self.input.next_char_is('\'') {
            return self.fetch_flow_scalar(true);
        }
        if self.input.next_char_is('"') {
            return self.fetch_flow_scalar(false);
        }
        if !(self.input.next_is_blank_or_breakz() || self.input.next_char_is('-')
            || self.input.next_char_is('?') || self.input.next_char_is(':')
            || self.input.next_char_is(',') || self.input.next_char_is('[')
            || self.input.next_char_is(']') || self.input.next_char_is('{')
            || self.input.next_char_is('}') || self.input.next_char_is('#')
            || self.input.next_char_is('&') || self.input.next_char_is('*')
            || self.input.next_char_is('!') || self.input.next_char_is('|')
            || self.input.next_char_is('>') || self.input.next_char_is('\'')
            || self.input.next_char_is('"') || self.input.next_char_is('%')
            || self.input.next_char_is('@') || self.input.next_char_is('`'))
            || self.input.next_char_is('-') && !is_blank(self.input.peek_nth(1))
            || self.flow_level == 0 && (self.input.next_char_is('?') || self.input.next_char_is(
            ':',
        )) && !is_blank_or_breakz(self.input.peek_nth(1)) {
            return self.fetch_plain_scalar();
        }
        self.set_scanner_error(
            "while scanning for the next token",
            self.mark,
            "found character that cannot start any token",
        )
    }

    /// Fetch tokens until the front of the queue can be handed out: the queue
    /// is not empty and no possible simple key still designates its front.
    fn fetch_more_tokens(&mut self) -> (r: Result<()>)
        requires
            old(self).wf(),
            old(self).stream_start_produced || old(self).tokens@.len() == 0,
        ensures
            final(self).wf(),
            final(self).stream_start_produced,
            final(self).stream_end_produced == old(self).stream_end_produced,
            final(self).tokens_parsed == old(self).tokens_parsed,
            r is Ok ==> final(self).token_available,
            !old(self).token_available ==> (r is Ok <==> final(self).token_available),
            r is Ok ==> final(self).tokens@.len() > 0,
            r is Ok ==> forall|i: int|
                0 <= i < final(self).simple_keys@.len() && (#[trigger] final(self).simple_keys@[i]).possible
                    ==> final(self).simple_keys@[i].token_number != final(self).tokens_parsed,
            final(self).input.chars().len() <= old(self).input.chars().len(),
            mark_not_after(old(self).mark, final(self).mark),
            !old(self).stream_start_produced ==> {
                &&& r is Ok
                &&& final(self).input.chars() == old(self).input.chars()
                &&& final(self).mark == old(self).mark
                &&& final(self).tokens@ == seq![stream_start_token(old(self).mark)]
            },
            old(self).settled() ==> final(self).settled(),
            old(self).settled() && r is Ok ==> final(self).token_budget() <= old(
                self,
            ).token_budget(),
            old(self).marks_behind() ==> final(self).marks_behind(),
            final(self).last_start == old(self).last_start,
            old(self).marks_behind() && old(self).in_order() && old(self).settled() && old(self).has_room() ==> final(self).in_order(),
            old(self).settled() && old(self).has_room() && r is Ok ==> final(self).has_room(),
            old(self).stream_start_produced && old(self).front_ready() && !old(self).key_overdue()
                ==> r is Ok && final(self).tokens@ == old(self).tokens@ && final(self).input
                == old(self).input && final(self).mark == old(self).mark,
            old(self).stream_start_produced && old(self).tokens@.len() == 0 && old(self).at_end()
                && !old(self).key_pending() ==> r is Ok,
            old(self).stream_start_produced && old(self).tokens@.len() == 0 && old(self).keys_idle()
                && starts_clean(old(self).input.chars()) && (!old(self).simple_key_allowed
                || !saves_key_at(
                old(self).input.chars(),
                old(self).mark.column == 0,
                old(self).flow_level != 0,
                old(self).input.nul_ends_input(),
            )) && token_owed(
                old(self).input.chars(),
                old(self).mark.column == 0,
                old(self).flow_level != 0,
                old(self).input.nul_ends_input(),
                old(self).simple_key_allowed,
                false,
                false,
            ) ==> r is Ok,
            old(self).stream_start_produced && old(self).tokens@.len() == 0 && old(self).keys_idle()
                && starts_clean(old(self).input.chars()) && old(self).closes_no_block() && (!old(
                self,
            ).simple_key_allowed || !saves_key_at(
                old(self).input.chars(),
                old(self).mark.column == 0,
                old(self).flow_level != 0,
                old(self).input.nul_ends_input(),
            )) && token_owed(
                old(self).input.chars(),
                old(self).mark.column == 0,
                old(self).flow_level != 0,
                old(self).input.nul_ends_input(),
                old(self).simple_key_allowed,
                false,
                false,
            ) ==> front_kind_at(
                final(self).tokens@[0].data,
                old(self).input.chars(),
                old(self).mark.column == 0,
                old(self).flow_level != 0,
                old(self).input.nul_ends_input(),
            ),
    {
        let mut need_more_tokens: bool;
        loop
            invariant_except_break
                old(self).stream_start_produced && old(self).tokens@.len() == 0 && old(self).keys_idle()
                && starts_clean(old(self).input.chars()) && (!old(self).simple_key_allowed
                || !saves_key_at(
                old(self).input.chars(),
                old(self).mark.column == 0,
                old(self).flow_level != 0,
                old(self).input.nul_ends_input(),
            )) && token_owed(
                old(self).input.chars(),
                old(self).mark.column == 0,
                old(self).flow_level != 0,
                old(self).input.nul_ends_input(),
                old(self).simple_key_allowed,
                false,
                false,
            ) ==> ({
                    &&& self.tokens@.len() == 0
                    &&& self.input == old(self).input
                    &&& self.mark == old(self).mark
                    &&& self.simple_keys@ == old(self).simple_keys@
                    &&& self.simple_key_allowed == old(self).simple_key_allowed
                    &&& self.flow_level == old(self).flow_level
                    &&& self.indent == old(self).indent
                } || (self.keys_idle() && self.tokens@.len() > 0 && (old(self).closes_no_block()
                    ==> front_kind_at(
                    self.tokens@[0].data,
                    old(self).input.chars(),
                    old(self).mark.column == 0,
                    old(self).flow_level != 0,
                    old(self).input.nul_ends_input(),
                )))),
                old(self).stream_start_produced && old(self).tokens@.len() == 0 && old(
                    self,
                ).at_end() && !old(self).key_pending() ==> ({
                    &&& self.tokens@.len() == 0
                    &&& self.input == old(self).input
                    &&& self.simple_keys@ == old(self).simple_keys@
                    &&& self.stream_start_produced
                } || (self.stream_ending() && !self.key_pending())),
                old(self).stream_start_produced && old(self).front_ready() && !old(
                    self,
                ).key_overdue() ==> {
                    &&& self.tokens@ == old(self).tokens@
                    &&& self.input == old(self).input
                    &&& self.mark == old(self).mark
                    &&& self.simple_keys@ == old(self).simple_keys@
                },
            invariant
                self.wf(),
                self.token_available == old(self).token_available,
                self.stream_end_produced == old(self).stream_end_produced,
                self.tokens_parsed == old(self).tokens_parsed,
                self.input.chars().len() <= old(self).input.chars().len(),
                mark_not_after(old(self).mark, self.mark),
                old(self).stream_start_produced ==> self.stream_start_produced,
                !self.stream_start_produced ==> self.input.chars() == old(self).input.chars()
                    && self.mark == old(self).mark,
                old(self).settled() ==> self.settled() && self.token_budget() <= old(
                    self,
                ).token_budget(),
                old(self).marks_behind() ==> self.marks_behind(),
                self.last_start == old(self).last_start,
                old(self).marks_behind() && old(self).in_order() && old(self).settled() && old(self).has_room() ==> self.in_order() && self.has_room(),
                !old(self).stream_start_produced && self.stream_start_produced ==> {
                    &&& self.input.chars() == old(self).input.chars()
                    &&& self.mark == old(self).mark
                    &&& self.tokens@ == seq![stream_start_token(old(self).mark)]
                    &&& forall|i: int|
                        0 <= i < self.simple_keys@.len() ==> !(
                        #[trigger] self.simple_keys@[i]).possible
                },
            ensures
                old(self).stream_start_produced && old(self).tokens@.len() == 0 && old(self).keys_idle()
                    && starts_clean(old(self).input.chars()) && old(self).closes_no_block() && (
                !old(self).simple_key_allowed || !saves_key_at(
                    old(self).input.chars(),
                    old(self).mark.column == 0,
                    old(self).flow_level != 0,
                    old(self).input.nul_ends_input(),
                )) && token_owed(
                    old(self).input.chars(),
                    old(self).mark.column == 0,
                    old(self).flow_level != 0,
                    old(self).input.nul_ends_input(),
                    old(self).simple_key_allowed,
                    false,
                    false,
                ) ==> front_kind_at(
                    self.tokens@[0].data,
                    old(self).input.chars(),
                    old(self).mark.column == 0,
                    old(self).flow_level != 0,
                    old(self).input.nul_ends_input(),
                ),
                self.wf(),
                self.token_available == old(self).token_available,
                self.stream_end_produced == old(self).stream_end_produced,
                self.tokens_parsed == old(self).tokens_parsed,
                self.stream_start_produced,
                self.tokens@.len() > 0,
                self.input.chars().len() <= old(self).input.chars().len(),
                mark_not_after(old(self).mark, self.mark),
                forall|i: int|
                    0 <= i < self.simple_keys@.len() && (#[trigger] self.simple_keys@[i]).possible
                        ==> self.simple_keys@[i].token_number != self.tokens_parsed,
                !old(self).stream_start_produced ==> {
                    &&& self.input.chars() == old(self).input.chars()
                    &&& self.mark == old(self).mark
                    &&& self.tokens@ == seq![stream_start_token(old(self).mark)]
                },
                old(self).settled() ==> self.settled() && self.token_budget() <= old(
                    self,
                ).token_budget(),
                old(self).marks_behind() ==> self.marks_behind(),
                self.last_start == old(self).last_start,
                old(self).marks_behind() && old(self).in_order() && old(self).settled() && old(self).has_room() ==> self.in_order() && self.has_room(),
                old(self).stream_start_produced && old(self).front_ready() && !old(
                    self,
                ).key_overdue() ==> self.tokens@ == old(self).tokens@ && self.input == old(
                    self,
                ).input && self.mark == old(self).mark,
            decreases
                self.input.chars().len(),
                if self.stream_start_produced {
                    0int
                } else {
                    1int
                },
                if self.stream_ending() {
                    0int
                } else {
                    1int
                },
        {
            let ghost pre = *self;
            need_more_tokens = false;
            if self.tokens.len() == 0 {
                need_more_tokens = true;
            } else {
                let stale = self.stale_simple_keys();
                proof {
                    if old(self).settled() {
                        Self::lemma_settled_keys_off(&pre, self);
                    }
                    if pre.keys_idle() && stale is Err {
                        let q = choose|q: int|
                            0 <= q < pre.simple_keys@.len() && Self::is_stale(
                                #[trigger] pre.simple_keys@[q],
                                pre.mark,
                            ) && pre.simple_keys@[q].required;
                        assert(!pre.simple_keys@[q].possible);
                    }
                    if old(self).stream_start_produced && old(self).tokens@.len() == 0 && old(
                        self,
                    ).at_end() && !old(self).key_pending() && stale is Err {
                        let q = choose|q: int|
                            0 <= q < pre.simple_keys@.len() && Self::is_stale(
                                #[trigger] pre.simple_keys@[q],
                                pre.mark,
                            ) && pre.simple_keys@[q].required;
                        assert(pre.simple_keys@[q].possible);
                    }
                    if old(self).stream_start_produced && old(self).front_ready() && !old(
                        self,
                    ).key_overdue() && stale is Err {
                        let q = choose|q: int|
                            0 <= q < pre.simple_keys@.len() && Self::is_stale(
                                #[trigger] pre.simple_keys@[q],
                                pre.mark,
                            ) && pre.simple_keys@[q].required;
                        assert(Self::is_stale(old(self).simple_keys@[q], old(self).mark));
                    }
                }
                stale?;
                proof {
                    if pre.stream_ending() {
                        assert forall|j: int| 0 <= j < self.simple_keys@.len() implies !(
                        #[trigger] self.simple_keys@[j]).possible by {
                            assert(Self::is_stale(pre.simple_keys@[j], pre.mark)
                                || !pre.simple_keys@[j].possible);
                        }
                    }
                }
                let n = self.simple_keys.len();
                let mut i: usize = 0;
                while i < n && !need_more_tokens
                    invariant
                        0 <= i <= n,
                        n == self.simple_keys@.len(),
                        !need_more_tokens ==> forall|j: int|
                            0 <= j < i ==> !((#[trigger] self.simple_keys@[j]).possible
                                && self.simple_keys@[j].token_number == self.tokens_parsed),
                        need_more_tokens ==> exists|j: int|
                            0 <= j < n && (#[trigger] self.simple_keys@[j]).possible
                                && self.simple_keys@[j].token_number == self.tokens_parsed,
                    decreases n - i,
                {
                    let simple_key = self.simple_keys[i];
                    if simple_key.possible && simple_key.token_number == self.tokens_parsed {
                        need_more_tokens = true;
                    }
                    i += 1;
                }
                proof {
                    if pre.keys_idle() && need_more_tokens {
                        let q = choose|q: int|
                            0 <= q < n && (#[trigger] self.simple_keys@[q]).possible
                                && self.simple_keys@[q].token_number == self.tokens_parsed;
                        assert(pre.simple_keys@[q].possible);
                        assert(!pre.simple_keys@[q].possible);
                    }
                    if old(self).stream_start_produced && old(self).tokens@.len() == 0 && old(
                        self,
                    ).at_end() && !old(self).key_pending() && need_more_tokens {
                        let q = choose|q: int|
                            0 <= q < n && (#[trigger] self.simple_keys@[q]).possible
                                && self.simple_keys@[q].token_number == self.tokens_parsed;
                        assert(pre.simple_keys@[q].possible);
                        assert(Self::is_stale(pre.simple_keys@[q], pre.mark));
                    }
                    if old(self).stream_start_produced && old(self).front_ready() && !old(
                        self,
                    ).key_overdue() && need_more_tokens {
                        let q = choose|q: int|
                            0 <= q < n && (#[trigger] self.simple_keys@[q]).possible
                                && self.simple_keys@[q].token_number == self.tokens_parsed;
                        assert(pre.simple_keys@[q].possible);
                        assert(old(self).simple_keys@[q].possible);
                    }
                }
            }
            if !need_more_tokens {
                break;
            }
            proof {
                if old(self).settled() && !without_stream_end(self.tokens@) {
                    assert(pre.stream_ending());
                }
            }
            proof {
                if self.tokens@.len() == 0 && self.stream_start_produced && self.keys_idle() {
                    let last = self.simple_keys@.len() - 1;
                    assert(self.simple_keys@[last] == self.simple_keys@.last());
                    assert(!self.simple_keys@[last].possible);
                    if self.key_overdue() {
                        let q = choose|q: int|
                            0 <= q < self.simple_keys@.len() && Self::is_stale(
                                #[trigger] self.simple_keys@[q],
                                self.mark,
                            ) && self.simple_keys@[q].required;
                        assert(!self.simple_keys@[q].possible);
                    }
                }
            }
            self.fetch_next_token()?;
        }
        self.token_available = true;
        Ok(())
    }


    // -----------------------------------------------------------------------
    // Public scanning API
    // -----------------------------------------------------------------------

    /// Scan the input stream and produce the next token.
    ///
    /// Call the function subsequently to produce a sequence of tokens
    /// corresponding to the input stream. The initial token has the type
    /// [`TokenData::StreamStart`] while the ending token has the type
    /// [`TokenData::StreamEnd`].
    pub fn scan(&mut self) -> (r: Result<Token>)
        requires
            old(self).wf(),
        ensures
            final(self).wf(),
            final(self).source().chars().len() <= old(self).source().chars().len(),
            mark_not_after(old(self).position(), final(self).position()),
            old(self).ended() ==> r == Ok::<Token, Error>(final_stream_end()) && *final(self)
                == *old(self),
            !old(self).ended() ==> final(self).started() && !final(self).available(),
            !old(self).ended() && !old(self).started() ==> {
                &&& r == Ok::<Token, Error>(stream_start_token(old(self).position()))
                &&& final(self).queued().len() == 0
                &&& final(self).position() == old(self).position()
                &&& final(self).source().chars() == old(self).source().chars()
            },
            !old(self).ended() && old(self).available() ==> {
                &&& r == Ok::<Token, Error>(old(self).queued()[0])
                &&& final(self).queued() == old(self).queued().drop_first()
                &&& final(self).position() == old(self).position()
                &&& final(self).source() == old(self).source()
            },
            !old(self).ended() ==> match r {
                Ok(t) => final(self).ended() == (t.data is StreamEnd),
                Err(_) => !final(self).ended(),
            },
            old(self).settled() ==> final(self).settled(),
            old(self).settled() ==> (r matches Ok(t) ==> (t.data is StreamEnd || final(self).token_budget() < old(self).token_budget())),
            !old(self).ended() && old(self).settled() ==> (r matches Ok(t) ==> (t.data is StreamEnd
                ==> input_at_end(&final(self).source()))),
            old(self).marks_behind() ==> final(self).marks_behind(),
            old(self).marks_behind() && old(self).in_order() && old(self).settled() && old(self).has_room() ==> final(self).in_order(),
            !old(self).ended() && old(self).marks_behind() && old(self).in_order() && old(self).settled() && old(self).has_room() ==> (r matches Ok(t) ==> mark_not_after(
                old(self).handed_from(),
                t.start_mark,
            ) && final(self).handed_from() == t.start_mark),
            old(self).settled() && old(self).has_room() ==> (r matches Ok(t) ==> t.data is StreamEnd
                || final(self).has_room()),
            old(self).marks_behind() ==> (r matches Ok(t) ==> token_within(
                t,
                final(self).position(),
            )),
            !old(self).ended() && old(self).started() && old(self).queued().len() == 0
                && input_at_end(&old(self).source()) && !old(self).key_pending() ==> r is Ok,
            !old(self).ended() && r is Ok ==> final(self).handed_out() == old(self).handed_out().wrapping_add(1),
            !old(self).ended() && old(self).next_fetch_owed() ==> r is Ok,
            !old(self).ended() && old(self).next_fetch_owed() && old(self).closes_no_block() ==> (r matches Ok(
                t,
            ) && front_kind_at(
                t.data,
                old(self).source().chars(),
                old(self).position().column == 0,
                old(self).in_flow(),
                old(self).source().nul_ends_input(),
            )),
            r is Err ==> final(self).handed_out() == old(self).handed_out(),
            !old(self).ended() && old(self).started() && old(self).front_ready() && !old(
                self,
            ).key_overdue() ==> {
                &&& r == Ok::<Token, Error>(old(self).queued()[0])
                &&& final(self).queued() == old(self).queued().drop_first()
                &&& final(self).position() == old(self).position()
            },
    {
        if self.stream_end_produced {
            return Ok(
                Token {
                    data: TokenData::StreamEnd,
                    start_mark: Mark::default(),
                    end_mark: Mark::default(),
                },
            );
        }
        if !self.token_available {
            self.fetch_more_tokens()?;
        }
        let ghost before = *self;
        let token = self.tokens.pop_front().unwrap();
        self.last_start = Ghost(token.start_mark);
        self.token_available = false;
        self.tokens_parsed = self.tokens_parsed.wrapping_add(1);
        if let TokenData::StreamEnd = token.data {
            self.stream_end_produced = true;
        }
        proof {
            Self::lemma_front_taken(&before, self);
            Self::lemma_front_budget(&before, self);
            assert(self.tokens@ =~= before.tokens@.drop_first());
            if before.marks_behind() && before.in_order() {
                assert(token_within(before.tokens@[0], before.mark));
                Self::lemma_order_pop(&before, self);
            }
            if token.data is StreamEnd {
                assert(!without_stream_end(before.tokens@));
            }
        }
        Ok(token)
    }

    /// Taking the available front token off the queue keeps a consistent
    /// scanner consistent: no possible simple key designates that token.
    proof fn lemma_front_taken(a: &Self, b: &Self)
        requires
            a.wf(),
            a.front_ready(),
            b.input == a.input,
            b.mark == a.mark,
            b.stream_start_produced == a.stream_start_produced,
            b.flow_level == a.flow_level,
            b.tokens@ == a.tokens@.subrange(1, a.tokens@.len() as int),
            b.tokens_parsed == a.tokens_parsed.wrapping_add(1),
            !b.token_available,
            b.indents@ == a.indents@,
            b.indent == a.indent,
            b.simple_keys@ == a.simple_keys@,
        ensures
            b.wf(),
    {
        assert forall|i: int| 0 <= i < b.simple_keys@.len() implies #[trigger] b.key_ok(
            b.simple_keys@[i],
        ) by {
            assert(a.key_ok(a.simple_keys@[i]));
        }
    }

    /// Look at the next token without handing it out.
    ///
    /// A parser looks at the next token this way before deciding what to do.
    pub fn peek(&mut self) -> (r: Result<&Token>)
        requires
            old(self).wf(),
        ensures
            final(self).wf(),
            final(self).ended() == old(self).ended(),
            final(self).source().chars().len() <= old(self).source().chars().len(),
            mark_not_after(old(self).position(), final(self).position()),
            old(self).available() ==> *final(self) == *old(self),
            r matches Ok(t) ==> final(self).available() && *t == final(self).queued()[0],
            r is Err ==> !final(self).available(),
            !old(self).started() ==> (r matches Ok(t) && *t == stream_start_token(
                old(self).position(),
            )),
            old(self).settled() ==> final(self).settled(),
            old(self).settled() && r is Ok ==> final(self).token_budget() <= old(
                self,
            ).token_budget(),
            old(self).marks_behind() ==> final(self).marks_behind(),
            final(self).handed_from() == old(self).handed_from(),
            old(self).marks_behind() && old(self).in_order() && old(self).settled() && old(self).has_room() ==> final(self).in_order(),
            old(self).settled() && old(self).has_room() && r is Ok ==> final(self).has_room(),
            old(self).marks_behind() ==> (r matches Ok(t) ==> token_within(
                *t,
                final(self).position(),
            )),
            old(self).started() && old(self).front_ready() && !old(self).key_overdue() ==> (r matches Ok(
                t,
            ) && *t == old(self).queued()[0] && final(self).queued() == old(self).queued()),
            r is Ok ==> final(self).front_ready(),
            final(self).handed_out() == old(self).handed_out(),
            old(self).next_fetch_owed() ==> r is Ok,
            old(self).started() && old(self).queued().len() == 0 && input_at_end(
                &old(self).source(),
            ) && !old(self).key_pending() ==> r is Ok,
    {
        if self.token_available {
            proof {
                if self.marks_behind() {
                    assert(token_within(self.tokens@[0], self.mark));
                }
            }
            return Ok(&self.tokens[0]);
        }
        self.fetch_more_tokens()?;
        proof {
            if self.marks_behind() {
                assert(token_within(self.tokens@[0], self.mark));
            }
        }
        Ok(&self.tokens[0])
    }

    /// Hand out the token that [`Scanner::peek`] showed.
    ///
    /// A parser consumes a token this way once it has looked at it.
    pub fn skip_token(&mut self)
        requires
            old(self).wf(),
            old(self).front_ready(),
        ensures
            final(self).wf(),
            !final(self).available(),
            final(self).queued() == old(self).queued().drop_first(),
            final(self).ended() == (old(self).queued()[0].data is StreamEnd),
            final(self).started() == old(self).started(),
            final(self).position() == old(self).position(),
            final(self).source() == old(self).source(),
            old(self).settled() ==> final(self).settled(),
            !(old(self).queued()[0].data is StreamEnd) ==> final(self).token_budget() + 1 == old(
                self,
            ).token_budget(),
            old(self).marks_behind() ==> final(self).marks_behind(),
            old(self).marks_behind() && old(self).in_order() ==> final(self).in_order(),
            old(self).in_order() ==> mark_not_after(
                old(self).handed_from(),
                old(self).queued()[0].start_mark,
            ),
            final(self).handed_from() == old(self).queued()[0].start_mark,
            old(self).has_room() && !(old(self).queued()[0].data is StreamEnd) ==> final(self).has_room(),
            final(self).handed_out() == old(self).handed_out().wrapping_add(1),
    {
        let ghost before = *self;
        self.token_available = false;
        self.tokens_parsed = self.tokens_parsed.wrapping_add(1);
        let skipped = self.tokens.pop_front().unwrap();
        self.last_start = Ghost(skipped.start_mark);
        self.stream_end_produced = match skipped.data {
            TokenData::StreamEnd => true,
            _ => false,
        };
        proof {
            Self::lemma_front_taken(&before, self);
            Self::lemma_front_budget(&before, self);
            assert(self.tokens@ =~= before.tokens@.drop_first());
            if before.marks_behind() && before.in_order() {
                assert(token_within(before.tokens@[0], before.mark));
                Self::lemma_order_pop(&before, self);
            }
        }
    }

    /// The next token, or `None` once STREAM-END has been handed out; the
    /// scanner's iteration, as in [`Scanner::scan`].
    pub fn next(&mut self) -> (r: Option<Result<Token>>)
        requires
            old(self).wf(),
        ensures
            final(self).wf(),
            r is None <==> old(self).ended(),
            old(self).ended() ==> *final(self) == *old(self),
            !old(self).ended() ==> final(self).started() && !final(self).available(),
            !old(self).ended() && !old(self).started() ==> r == Some(
                Ok::<Token, Error>(stream_start_token(old(self).position())),
            ),
            !old(self).ended() && old(self).available() ==> r == Some(
                Ok::<Token, Error>(old(self).queued()[0]),
            ) && final(self).queued() == old(self).queued().drop_first(),
            r matches Some(Ok(t)) ==> final(self).ended() == (t.data is StreamEnd),
            r matches Some(Err(_)) ==> !final(self).ended(),
            old(self).settled() ==> final(self).settled(),
            old(self).settled() ==> (r matches Some(Ok(t)) ==> (t.data is StreamEnd || final(self).token_budget() < old(self).token_budget())),
            old(self).settled() ==> (r matches Some(Ok(t)) ==> (t.data is StreamEnd
                ==> input_at_end(&final(self).source()))),
            old(self).marks_behind() ==> final(self).marks_behind(),
            old(self).marks_behind() && old(self).in_order() && old(self).settled() && old(self).has_room() ==> final(self).in_order(),
            old(self).marks_behind() && old(self).in_order() && old(self).settled() && old(self).has_room() ==> (r matches Some(Ok(t)) ==> mark_not_after(
                old(self).handed_from(),
                t.start_mark,
            ) && final(self).handed_from() == t.start_mark),
            old(self).settled() && old(self).has_room() ==> (r matches Some(Ok(t)) ==> t.data is StreamEnd
                || final(self).has_room()),
            old(self).marks_behind() ==> (r matches Some(Ok(t)) ==> token_within(
                t,
                final(self).position(),
            )),
            !old(self).ended() && old(self).started() && old(self).queued().len() == 0
                && input_at_end(&old(self).source()) && !old(self).key_pending() ==> r matches Some(
                Ok(_),
            ),
            !old(self).ended() && old(self).next_fetch_owed() ==> r matches Some(Ok(_)),
            !old(self).ended() && old(self).started() && old(self).front_ready() && !old(
                self,
            ).key_overdue() ==> r == Some(Ok::<Token, Error>(old(self).queued()[0]))
                && final(self).queued() == old(self).queued().drop_first(),
    {
        if self.stream_end_produced {
            None
        } else {
            Some(self.scan())
        }
    }


    /// Look at the next token without handing it out, so that it can be changed.
    ///
    /// A parser uses this to adjust the next token before consuming it.
    pub fn peek_mut(&mut self) -> (r: Result<&mut Token>)
        requires
            old(self).wf(),
        ensures
            final(self).ended() == old(self).ended(),
            final(self).source().chars().len() <= old(self).source().chars().len(),
            mark_not_after(old(self).position(), final(self).position()),
            r is Err ==> final(self).wf() && !final(self).available(),
            r is Err && old(self).settled() ==> final(self).settled(),
            r is Err && old(self).marks_behind() ==> final(self).marks_behind(),
            r matches Ok(t) ==> {
                &&& final(self).wf()
                &&& final(self).available()
                &&& final(self).queued()[0] == *final(t)
            },
            old(self).available() ==> (r matches Ok(t) && *t == old(self).queued()[0]
                && final(self).queued() == old(self).queued().update(0, *final(t))),
            old(self).started() && old(self).front_ready() && !old(self).key_overdue() ==> (r matches Ok(
                t,
            ) && *t == old(self).queued()[0] && final(self).queued() == old(self).queued().update(
                0,
                *final(t),
            )),
            old(self).next_fetch_owed() ==> r is Ok,
    {
        if !self.token_available {
            self.fetch_more_tokens()?;
        }
        Ok(queue_front_mut(&mut self.tokens))
    }

}

/// The front of a non-empty token queue, to be changed in place.
///
/// Calls `VecDeque`'s `IndexMut::index_mut` at index 0; the contract claims that
/// the reference designates the first element and that whatever is written
/// through it becomes the queue's first element, the rest staying as they were.
#[verifier::external_body]
fn queue_front_mut(queue: &mut VecDeque<Token>) -> (r: &mut Token)
    requires
        old(queue)@.len() > 0,
    ensures
        *r == old(queue)@[0],
        final(queue)@ == old(queue)@.update(0, *final(r)),
{
    &mut queue[0]
}

} // verus!
