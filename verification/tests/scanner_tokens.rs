use libyaml_safer::{
    Encoding, Error, ErrorKind, Mark, OwnedStrInput, ScalarStyle, Scanner, StrInput, Token,
    TokenData,
};

fn mark(index: u64, line: u64, column: u64) -> Mark {
    Mark {
        index,
        line,
        column,
    }
}

fn tok(data: TokenData, start: Mark, end: Mark) -> Token {
    Token {
        data,
        start_mark: start,
        end_mark: end,
    }
}

fn plain(value: &str) -> TokenData {
    TokenData::Scalar {
        value: value.to_string(),
        style: ScalarStyle::Plain,
    }
}

fn scalar(value: &str, style: ScalarStyle) -> TokenData {
    TokenData::Scalar {
        value: value.to_string(),
        style,
    }
}

fn stream_start() -> TokenData {
    TokenData::StreamStart {
        encoding: Encoding::Utf8,
    }
}

/// Scan until STREAM-END (included) or the first error.
fn scan_all(yaml: &str) -> Result<Vec<Token>, Error> {
    let mut scanner = Scanner::new(StrInput::new(yaml));
    let mut out = Vec::new();
    loop {
        let token = scanner.scan()?;
        let end = matches!(token.data, TokenData::StreamEnd);
        out.push(token);
        if end {
            return Ok(out);
        }
    }
}

fn kinds(yaml: &str) -> Vec<TokenData> {
    scan_all(yaml)
        .unwrap()
        .into_iter()
        .map(|t| t.data)
        .collect()
}

fn scan_error(yaml: &str) -> Error {
    match scan_all(yaml) {
        Ok(tokens) => panic!("expected an error, got {tokens:?}"),
        Err(e) => e,
    }
}

#[test]
fn test_scanner_with_str_input() {
    let yaml = "key: value";
    let mut scanner = Scanner::new(StrInput::new(yaml));

    let token = scanner.next().unwrap().unwrap();
    assert!(matches!(token.data, TokenData::StreamStart { .. }));
}

#[test]
fn block_mapping_tokens_and_marks() {
    let tokens = scan_all("key: value").unwrap();
    assert_eq!(
        tokens,
        vec![
            tok(stream_start(), mark(0, 0, 0), mark(0, 0, 0)),
            tok(TokenData::BlockMappingStart, mark(0, 0, 0), mark(0, 0, 0)),
            tok(TokenData::Key, mark(0, 0, 0), mark(0, 0, 0)),
            tok(plain("key"), mark(0, 0, 0), mark(3, 0, 3)),
            tok(TokenData::Value, mark(3, 0, 3), mark(4, 0, 4)),
            tok(plain("value"), mark(5, 0, 5), mark(10, 0, 10)),
            tok(TokenData::BlockEnd, mark(10, 1, 0), mark(10, 1, 0)),
            tok(TokenData::StreamEnd, mark(10, 1, 0), mark(10, 1, 0)),
        ]
    );
}

#[test]
fn stream_end_repeats_after_the_end() {
    let mut scanner = Scanner::new(StrInput::new("a"));
    let mut count = 0;
    loop {
        let token = scanner.scan().unwrap();
        count += 1;
        if matches!(token.data, TokenData::StreamEnd) {
            assert_eq!(token.start_mark, mark(1, 1, 0));
            break;
        }
    }
    assert_eq!(count, 3);
    for _ in 0..3 {
        let again = scanner.scan().unwrap();
        assert_eq!(
            again,
            tok(TokenData::StreamEnd, Mark::default(), Mark::default())
        );
    }
}

#[test]
fn next_is_none_after_stream_end() {
    let mut scanner = Scanner::new(StrInput::new(""));
    let first = scanner.next().unwrap().unwrap();
    assert_eq!(first, tok(stream_start(), mark(0, 0, 0), mark(0, 0, 0)));
    let second = scanner.next().unwrap().unwrap();
    assert_eq!(second, tok(TokenData::StreamEnd, mark(0, 0, 0), mark(0, 0, 0)));
    assert!(scanner.next().is_none());
    assert!(scanner.next().is_none());
}

#[test]
fn reset_starts_a_new_stream() {
    let mut scanner = Scanner::new(StrInput::new("[x]"));
    while !matches!(scanner.scan().unwrap().data, TokenData::StreamEnd) {}
    scanner.reset(StrInput::new("y"));
    assert_eq!(
        scanner.scan().unwrap(),
        tok(stream_start(), mark(0, 0, 0), mark(0, 0, 0))
    );
    assert_eq!(
        scanner.scan().unwrap(),
        tok(plain("y"), mark(0, 0, 0), mark(1, 0, 1))
    );
}

#[test]
fn peek_then_skip_matches_scan() {
    let mut a = Scanner::new(StrInput::new("- a\n- b"));
    let mut b = Scanner::new(StrInput::new("- a\n- b"));
    loop {
        let peeked = a.peek().unwrap().clone();
        assert_eq!(a.peek().unwrap(), &peeked);
        a.skip_token();
        let scanned = b.scan().unwrap();
        assert_eq!(peeked, scanned);
        if matches!(scanned.data, TokenData::StreamEnd) {
            break;
        }
    }
}

#[test]
fn peek_mut_changes_the_front_token() {
    let mut scanner = Scanner::new(StrInput::new("a"));
    scanner.scan().unwrap();
    let front = scanner.peek_mut().unwrap();
    assert_eq!(front.data, plain("a"));
    front.data = plain("b");
    assert_eq!(scanner.scan().unwrap().data, plain("b"));
}

#[test]
fn flow_sequence_tokens() {
    let tokens = scan_all("[a, b]").unwrap();
    assert_eq!(
        tokens,
        vec![
            tok(stream_start(), mark(0, 0, 0), mark(0, 0, 0)),
            tok(TokenData::FlowSequenceStart, mark(0, 0, 0), mark(1, 0, 1)),
            tok(plain("a"), mark(1, 0, 1), mark(2, 0, 2)),
            tok(TokenData::FlowEntry, mark(2, 0, 2), mark(3, 0, 3)),
            tok(plain("b"), mark(4, 0, 4), mark(5, 0, 5)),
            tok(TokenData::FlowSequenceEnd, mark(5, 0, 5), mark(6, 0, 6)),
            tok(TokenData::StreamEnd, mark(6, 1, 0), mark(6, 1, 0)),
        ]
    );
}

#[test]
fn flow_mapping_tokens() {
    assert_eq!(
        kinds("{a: 1}"),
        vec![
            stream_start(),
            TokenData::FlowMappingStart,
            TokenData::Key,
            plain("a"),
            TokenData::Value,
            plain("1"),
            TokenData::FlowMappingEnd,
            TokenData::StreamEnd,
        ]
    );
}

#[test]
fn block_sequence_tokens_and_marks() {
    let tokens = scan_all("- a\n- b").unwrap();
    assert_eq!(
        tokens,
        vec![
            tok(stream_start(), mark(0, 0, 0), mark(0, 0, 0)),
            tok(TokenData::BlockSequenceStart, mark(0, 0, 0), mark(0, 0, 0)),
            tok(TokenData::BlockEntry, mark(0, 0, 0), mark(1, 0, 1)),
            tok(plain("a"), mark(2, 0, 2), mark(3, 0, 3)),
            tok(TokenData::BlockEntry, mark(4, 1, 0), mark(5, 1, 1)),
            tok(plain("b"), mark(6, 1, 2), mark(7, 1, 3)),
            tok(TokenData::BlockEnd, mark(7, 2, 0), mark(7, 2, 0)),
            tok(TokenData::StreamEnd, mark(7, 2, 0), mark(7, 2, 0)),
        ]
    );
}

#[test]
fn explicit_key_tokens() {
    assert_eq!(
        kinds("? a\n: b"),
        vec![
            stream_start(),
            TokenData::BlockMappingStart,
            TokenData::Key,
            plain("a"),
            TokenData::Value,
            plain("b"),
            TokenData::BlockEnd,
            TokenData::StreamEnd,
        ]
    );
}

#[test]
fn nested_block_mapping_unrolls_indentation() {
    assert_eq!(
        kinds("a:\n  b: c\nd: e"),
        vec![
            stream_start(),
            TokenData::BlockMappingStart,
            TokenData::Key,
            plain("a"),
            TokenData::Value,
            TokenData::BlockMappingStart,
            TokenData::Key,
            plain("b"),
            TokenData::Value,
            plain("c"),
            TokenData::BlockEnd,
            TokenData::Key,
            plain("d"),
            TokenData::Value,
            plain("e"),
            TokenData::BlockEnd,
            TokenData::StreamEnd,
        ]
    );
}

#[test]
fn document_markers_and_marks() {
    let tokens = scan_all("---\nfoo\n...\n").unwrap();
    assert_eq!(
        tokens,
        vec![
            tok(stream_start(), mark(0, 0, 0), mark(0, 0, 0)),
            tok(TokenData::DocumentStart, mark(0, 0, 0), mark(3, 0, 3)),
            tok(plain("foo"), mark(4, 1, 0), mark(7, 1, 3)),
            tok(TokenData::DocumentEnd, mark(8, 2, 0), mark(11, 2, 3)),
            tok(TokenData::StreamEnd, mark(12, 3, 0), mark(12, 3, 0)),
        ]
    );
}

#[test]
fn version_directive() {
    let tokens = scan_all("%YAML 1.2\n---\n").unwrap();
    assert_eq!(
        tokens,
        vec![
            tok(stream_start(), mark(0, 0, 0), mark(0, 0, 0)),
            tok(
                TokenData::VersionDirective { major: 1, minor: 2 },
                mark(0, 0, 0),
                mark(9, 0, 9)
            ),
            tok(TokenData::DocumentStart, mark(10, 1, 0), mark(13, 1, 3)),
            tok(TokenData::StreamEnd, mark(14, 2, 0), mark(14, 2, 0)),
        ]
    );
}

#[test]
fn tag_directive() {
    assert_eq!(
        kinds("%TAG !e! tag:example.com,2000:app/\n--- x"),
        vec![
            stream_start(),
            TokenData::TagDirective {
                handle: "!e!".to_string(),
                prefix: "tag:example.com,2000:app/".to_string(),
            },
            TokenData::DocumentStart,
            plain("x"),
            TokenData::StreamEnd,
        ]
    );
}

#[test]
fn anchors_and_aliases() {
    assert_eq!(
        kinds("- &anc x\n- *anc"),
        vec![
            stream_start(),
            TokenData::BlockSequenceStart,
            TokenData::BlockEntry,
            TokenData::Anchor {
                value: "anc".to_string()
            },
            plain("x"),
            TokenData::BlockEntry,
            TokenData::Alias {
                value: "anc".to_string()
            },
            TokenData::BlockEnd,
            TokenData::StreamEnd,
        ]
    );
}

#[test]
fn tags_of_each_form() {
    assert_eq!(
        kinds("!!str a"),
        vec![
            stream_start(),
            TokenData::Tag {
                handle: "!!".to_string(),
                suffix: "str".to_string()
            },
            plain("a"),
            TokenData::StreamEnd,
        ]
    );
    assert_eq!(
        kinds("!local b"),
        vec![
            stream_start(),
            TokenData::Tag {
                handle: "!".to_string(),
                suffix: "local".to_string()
            },
            plain("b"),
            TokenData::StreamEnd,
        ]
    );
    assert_eq!(
        kinds("!<tag:x%21> c"),
        vec![
            stream_start(),
            TokenData::Tag {
                handle: String::new(),
                suffix: "tag:x!".to_string()
            },
            plain("c"),
            TokenData::StreamEnd,
        ]
    );
}

#[test]
fn literal_and_folded_block_scalars() {
    assert_eq!(
        kinds("|\n  line1\n  line2\n"),
        vec![
            stream_start(),
            scalar("line1\nline2\n", ScalarStyle::Literal),
            TokenData::StreamEnd,
        ]
    );
    assert_eq!(
        kinds(">\n  a\n  b\n"),
        vec![
            stream_start(),
            scalar("a b\n", ScalarStyle::Folded),
            TokenData::StreamEnd,
        ]
    );
    assert_eq!(
        kinds("|-\n  x\n"),
        vec![
            stream_start(),
            scalar("x", ScalarStyle::Literal),
            TokenData::StreamEnd,
        ]
    );
    assert_eq!(
        kinds("|+\n  x\n\n"),
        vec![
            stream_start(),
            scalar("x\n\n", ScalarStyle::Literal),
            TokenData::StreamEnd,
        ]
    );
}

#[test]
fn quoted_scalars() {
    assert_eq!(
        kinds("'it''s'"),
        vec![
            stream_start(),
            scalar("it's", ScalarStyle::SingleQuoted),
            TokenData::StreamEnd,
        ]
    );
    assert_eq!(
        kinds("\"a\\tb\\u0041\\x42\""),
        vec![
            stream_start(),
            scalar("a\tbAB", ScalarStyle::DoubleQuoted),
            TokenData::StreamEnd,
        ]
    );
    assert_eq!(
        kinds("'a\n  b'"),
        vec![
            stream_start(),
            scalar("a b", ScalarStyle::SingleQuoted),
            TokenData::StreamEnd,
        ]
    );
}

#[test]
fn multi_line_plain_scalar_folds() {
    assert_eq!(
        kinds("a\n  b\n\n  c"),
        vec![stream_start(), plain("a b\nc"), TokenData::StreamEnd]
    );
}

#[test]
fn comments_and_blank_lines_are_skipped() {
    assert_eq!(
        kinds("# c\n\n  a # d\n"),
        vec![stream_start(), plain("a"), TokenData::StreamEnd]
    );
}

#[test]
fn multibyte_characters_advance_the_index_by_their_width() {
    let tokens = scan_all("é: ü").unwrap();
    assert_eq!(tokens[3], tok(plain("é"), mark(0, 0, 0), mark(2, 0, 1)));
    assert_eq!(tokens[4], tok(TokenData::Value, mark(2, 0, 1), mark(3, 0, 2)));
    assert_eq!(tokens[5], tok(plain("ü"), mark(4, 0, 3), mark(6, 0, 4)));
}

#[test]
fn owned_input_scans_like_borrowed_input() {
    let yaml = "a: [1, {b: c}]\n- x";
    let mut owned = Scanner::new(OwnedStrInput::new(yaml.to_string()));
    let mut borrowed = Scanner::new(StrInput::new(yaml));
    loop {
        let x = owned.scan();
        let y = borrowed.scan();
        assert_eq!(x, y);
        match y {
            Ok(t) if matches!(t.data, TokenData::StreamEnd) => break,
            Err(_) => break,
            _ => {}
        }
    }
}

#[test]
fn error_for_character_that_cannot_start_a_token() {
    let e = scan_error("@x");
    assert_eq!(e.kind, ErrorKind::Scanner);
    assert_eq!(e.context, "while scanning for the next token");
    assert_eq!(e.problem, "found character that cannot start any token");
    assert_eq!(e.problem_mark, mark(0, 0, 0));
    assert_eq!(e.context_mark, mark(0, 0, 0));
}

#[test]
fn error_for_mapping_value_in_wrong_place() {
    let e = scan_error("a: b: c");
    assert_eq!(e.context, "");
    assert_eq!(e.problem, "mapping values are not allowed in this context");
    assert_eq!(e.problem_mark, mark(4, 0, 4));
}

#[test]
fn error_for_missing_colon_after_required_key() {
    let e = scan_error("a: 1\nb\nc: 2");
    assert_eq!(e.context, "while scanning a simple key");
    assert_eq!(e.problem, "could not find expected ':'");
    assert_eq!(e.context_mark, mark(5, 1, 0));
    assert_eq!(e.problem_mark, mark(7, 2, 0));
}

#[test]
fn error_for_unterminated_quoted_scalar() {
    let e = scan_error("'abc");
    assert_eq!(e.context, "while scanning a quoted scalar");
    assert_eq!(e.problem, "found unexpected end of stream");
    assert_eq!(e.context_mark, mark(0, 0, 0));
}

#[test]
fn error_for_unknown_escape() {
    let e = scan_error("\"\\q\"");
    assert_eq!(e.context, "while parsing a quoted scalar");
    assert_eq!(e.problem, "found unknown escape character");
}

#[test]
fn error_for_empty_anchor() {
    let e = scan_error("& x");
    assert_eq!(e.context, "while scanning an anchor");
    assert_eq!(
        e.problem,
        "did not find expected alphabetic or numeric character"
    );
}

#[test]
fn error_for_unknown_directive() {
    let e = scan_error("%FOO bar\n---");
    assert_eq!(e.context, "while scanning a directive");
    assert_eq!(e.problem, "found unknown directive name");
}

#[test]
fn error_for_bad_version_number() {
    let e = scan_error("%YAML x\n---");
    assert_eq!(e.context, "while scanning a %YAML directive");
    assert_eq!(e.problem, "did not find expected version number");
    let e = scan_error("%YAML 1234567890.1\n---");
    assert_eq!(e.problem, "found extremely long version number");
}

#[test]
fn version_directive_values_and_line_ends() {
    assert_eq!(
        kinds("%YAML   123456789.07 # note\n---"),
        vec![
            stream_start(),
            TokenData::VersionDirective { major: 123456789, minor: 7 },
            TokenData::DocumentStart,
            TokenData::StreamEnd,
        ]
    );
    let e = scan_error("%YAML 1\n---");
    assert_eq!(e.problem, "did not find expected digit or '.' character");
    let e = scan_error("%YAML 1.1x\n---");
    assert_eq!(e.context, "while scanning a directive");
    assert_eq!(e.problem, "did not find expected comment or line break");
    let e = scan_error("%YAML! 1.1\n---");
    assert_eq!(e.problem, "found unexpected non-alphabetical character");
    let e = scan_error("% YAML 1.1\n---");
    assert_eq!(e.problem, "could not find expected directive name");
}

#[test]
fn tag_directive_prefix_decodes_escapes() {
    assert_eq!(
        kinds("%TAG  !!  tag:x%C3%A9/ # c\n--- a"),
        vec![
            stream_start(),
            TokenData::TagDirective {
                handle: "!!".to_string(),
                prefix: "tag:x\u{c3}\u{a9}/".to_string(),
            },
            TokenData::DocumentStart,
            plain("a"),
            TokenData::StreamEnd,
        ]
    );
    let e = scan_error("%TAG !e!tag:x\n---");
    assert_eq!(e.context, "while scanning a %TAG directive");
    assert_eq!(e.problem, "did not find expected whitespace");
}

#[test]
fn error_for_zero_indentation_indicator() {
    let e = scan_error("|0\n  a");
    assert_eq!(e.context, "while scanning a block scalar");
    assert_eq!(e.problem, "found an indentation indicator equal to 0");
}

#[test]
fn error_for_block_entry_in_wrong_place() {
    let e = scan_error("'a' - b");
    assert_eq!(e.context, "");
    assert_eq!(
        e.problem,
        "block sequence entries are not allowed in this context"
    );
    assert_eq!(e.problem_mark, mark(4, 0, 4));
}

#[test]
fn token_count_stays_within_eight_per_character() {
    for yaml in [
        "",
        "a",
        "a: [b, {c: d}]",
        "- - - x\n    - y\n- z",
        "? a\n: - b\n  - c\n",
        "%YAML 1.1\n--- !!map\n&x a: *x\n...\n",
    ] {
        let tokens = scan_all(yaml).unwrap();
        let chars = yaml.chars().count();
        assert!(tokens.len() - 1 <= 8 * chars + 5, "{yaml:?}");
        assert!(matches!(tokens.last().unwrap().data, TokenData::StreamEnd));
    }
}

#[test]
fn every_token_runs_forward_within_the_input() {
    for yaml in [
        "key: value",
        "a:\n  - b\n  - {c: 'd'}\n",
        "|\n  text\n\n",
        "%TAG ! tag:x,2000:\n--- !y z # note\n...",
        "? [a, b]\n: \"c\\\nd\"\n",
    ] {
        let tokens = scan_all(yaml).unwrap();
        let mut last_end = 0u64;
        for t in &tokens {
            assert!(t.start_mark.index <= t.end_mark.index, "{yaml:?} {t:?}");
            assert!(
                (t.start_mark.line, t.start_mark.column) <= (t.end_mark.line, t.end_mark.column),
                "{yaml:?} {t:?}"
            );
            assert!(t.end_mark.index <= yaml.len() as u64, "{yaml:?} {t:?}");
            last_end = last_end.max(t.end_mark.index);
        }
        assert_eq!(last_end, yaml.len() as u64, "{yaml:?}");
    }
}

#[test]
fn tokens_come_out_in_the_order_they_start() {
    for yaml in [
        "a: b",
        "[a, b]: c",
        "{x: [1, 2], y: {z: w}}",
        "? a\n: b\n- c",
        "- a: 1\n  b: 2\n- &x [*x, !t v]: 'q'\n",
        "%YAML 1.1\n--- |\n  text\n...\n",
    ] {
        let tokens = scan_all(yaml).unwrap();
        for pair in tokens.windows(2) {
            let (a, b) = (pair[0].start_mark, pair[1].start_mark);
            assert!(a.index <= b.index, "{yaml:?}: {:?} then {:?}", pair[0], pair[1]);
            assert!(
                a.line < b.line || (a.line == b.line && a.column <= b.column),
                "{yaml:?}: {:?} then {:?}",
                pair[0],
                pair[1]
            );
        }
    }
}

#[test]
fn plain_scalar_folding_keeps_every_visible_character() {
    assert_eq!(
        kinds("a  b\n  c"),
        vec![stream_start(), plain("a  b c"), TokenData::StreamEnd]
    );
}

#[test]
fn block_scalar_keeps_the_visible_characters_after_its_header() {
    assert_eq!(
        kinds("|2- # a comment\n   one  two\n\n  three\r\n"),
        vec![
            stream_start(),
            scalar(" one  two\n\nthree", ScalarStyle::Literal),
            TokenData::StreamEnd,
        ]
    );
    assert_eq!(
        kinds(">\n a\n b\n\n c\n"),
        vec![
            stream_start(),
            scalar("a b\nc\n", ScalarStyle::Folded),
            TokenData::StreamEnd,
        ]
    );
}

#[test]
fn quoted_scalars_fold_lines_and_decode_escapes() {
    assert_eq!(
        kinds("'a''b\n\n c'"),
        vec![
            stream_start(),
            scalar("a'b\nc", ScalarStyle::SingleQuoted),
            TokenData::StreamEnd,
        ]
    );
    assert_eq!(
        kinds("\"x\\\n  y\""),
        vec![
            stream_start(),
            scalar("xy", ScalarStyle::DoubleQuoted),
            TokenData::StreamEnd,
        ]
    );
    assert_eq!(
        kinds("\"\\x41\\u00e9\\U0001F600\\N\\_\\0\""),
        vec![
            stream_start(),
            scalar("A\u{e9}\u{1f600}\u{85}\u{a0}\0", ScalarStyle::DoubleQuoted),
            TokenData::StreamEnd,
        ]
    );
}

#[test]
fn errors_in_escape_codes() {
    let e = scan_error("\"\\x4g\"");
    assert_eq!(e.context, "while parsing a quoted scalar");
    assert_eq!(e.problem, "did not find expected hexdecimal number");
    let e = scan_error("\"\\uD800\"");
    assert_eq!(e.problem, "found invalid Unicode character escape code");
}

#[test]
fn uri_escapes_give_one_character_per_octet() {
    assert_eq!(
        kinds("!<tag:%C3%A9> x"),
        vec![
            stream_start(),
            TokenData::Tag {
                handle: String::new(),
                suffix: "tag:\u{c3}\u{a9}".to_string()
            },
            plain("x"),
            TokenData::StreamEnd,
        ]
    );
    assert_eq!(
        kinds("!e%21 x"),
        vec![
            stream_start(),
            TokenData::Tag {
                handle: "!".to_string(),
                suffix: "e!".to_string()
            },
            plain("x"),
            TokenData::StreamEnd,
        ]
    );
}

#[test]
fn errors_in_uri_escapes() {
    let e = scan_error("!<%FF> x");
    assert_eq!(e.context, "while parsing a tag");
    assert_eq!(e.problem, "found an incorrect leading UTF-8 octet");
    let e = scan_error("!<%C3%41> x");
    assert_eq!(e.problem, "found an incorrect trailing UTF-8 octet");
    let e = scan_error("!<%4> x");
    assert_eq!(e.problem, "did not find URI escaped octet");
    let e = scan_error("%TAG !e! %ZZ\n---");
    assert_eq!(e.context, "while parsing a %TAG directive");
    assert_eq!(e.problem, "did not find URI escaped octet");
}

#[test]
fn missing_tag_uri_is_an_error() {
    let e = scan_error("!<> x");
    assert_eq!(e.context, "while parsing a tag");
    assert_eq!(e.problem, "did not find expected tag URI");
}

#[test]
fn error_for_tag_directive_without_prefix() {
    let e = scan_error("%TAG !e!\n---");
    assert_eq!(e.context, "while scanning a %TAG directive");
    assert_eq!(e.problem, "did not find expected whitespace");
}

#[test]
fn error_for_text_after_block_scalar_header() {
    let e = scan_error("key: |x\n  text\n");
    assert_eq!(e.context, "while scanning a block scalar");
    assert_eq!(e.problem, "did not find expected comment or line break");
}

#[test]
fn block_scalar_header_with_comment_scans() {
    let tokens = kinds("|  # note\n  text\n");
    assert_eq!(tokens[1], scalar("text\n", ScalarStyle::Literal));
}

#[test]
fn nil_character_ends_the_stream() {
    let tokens = kinds("a\0b: c");
    assert_eq!(tokens.len(), 3);
    assert_eq!(tokens[1], plain("a"));
    assert!(matches!(tokens[2], TokenData::StreamEnd));
}

#[test]
fn each_indicator_starts_its_own_token() {
    assert_eq!(kinds("[")[1], TokenData::FlowSequenceStart);
    assert_eq!(kinds("{")[1], TokenData::FlowMappingStart);
    assert_eq!(kinds("]")[1], TokenData::FlowSequenceEnd);
    assert_eq!(kinds("}")[1], TokenData::FlowMappingEnd);
}

#[test]
fn error_for_reserved_indicator() {
    let e = scan_error("@x");
    assert_eq!(e.context, "while scanning for the next token");
    assert_eq!(e.problem, "found character that cannot start any token");
    assert_eq!(e.context_mark, mark(0, 0, 0));
}

#[test]
fn anchor_name_is_the_whole_alphanumeric_run() {
    let tokens = scan_all("&a1-b_c x").unwrap();
    assert_eq!(
        tokens[1],
        tok(
            TokenData::Anchor { value: "a1-b_c".to_string() },
            mark(0, 0, 0),
            mark(7, 0, 7)
        )
    );
}

#[test]
fn single_line_quoted_scalar_keeps_its_text_and_width() {
    let tokens = scan_all("'a  b' \"é\"").unwrap();
    assert_eq!(
        tokens[1],
        tok(
            scalar("a  b", ScalarStyle::SingleQuoted),
            mark(0, 0, 0),
            mark(6, 0, 6)
        )
    );
    assert_eq!(
        tokens[2],
        tok(
            scalar("é", ScalarStyle::DoubleQuoted),
            mark(7, 0, 7),
            mark(11, 0, 10)
        )
    );
}

#[test]
fn plain_scalar_folds_line_breaks() {
    assert_eq!(kinds("a\n b")[1], plain("a b"));
    assert_eq!(kinds("a  b")[1], plain("a  b"));
    assert_eq!(kinds("a \n\n b")[1], plain("a\nb"));
    assert_eq!(kinds("a # c")[1], plain("a"));
    assert_eq!(kinds("a\u{2028} b")[1], plain("a\u{2028}b"));
}
