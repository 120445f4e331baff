use libyaml_safer::char_traits::{
    as_hex, is_alpha, is_ascii, is_blank, is_blank_or_breakz, is_bom, is_break, is_breakz,
    is_digit, is_flow, is_hex, is_printable, is_z,
};
use libyaml_safer::macros;

#[test]
fn printable() {
    for ch in "🎉".chars() {
        assert!(macros::is_printable(ch));
    }
    for ch in "\u{1f389}".chars() {
        assert!(macros::is_printable(ch));
    }
}

#[test]
fn nil_and_breaks() {
    assert!(is_z('\0'));
    assert!(!is_z('0'));
    for c in ['\r', '\n', '\u{0085}', '\u{2028}', '\u{2029}'] {
        assert!(is_break(c));
        assert!(is_breakz(c));
        assert!(is_blank_or_breakz(c));
        assert!(!is_blank(c));
    }
    assert!(!is_break('\0'));
    assert!(is_breakz('\0'));
    assert!(!is_break(' '));
}

#[test]
fn blanks() {
    assert!(is_blank(' '));
    assert!(is_blank('\t'));
    assert!(!is_blank('\n'));
    assert!(is_blank_or_breakz(' '));
    assert!(is_blank_or_breakz('\0'));
    assert!(!is_blank_or_breakz('a'));
}

#[test]
fn alphanumerics_and_digits() {
    for c in ['a', 'z', 'A', 'Z', '0', '9', '_', '-'] {
        assert!(is_alpha(c));
    }
    for c in ['.', ' ', '!', 'é', '\0'] {
        assert!(!is_alpha(c));
    }
    assert!(is_digit('0') && is_digit('9'));
    assert!(!is_digit('a') && !is_digit('/') && !is_digit(':'));
}

#[test]
fn hex_digits_and_values() {
    assert!(is_hex('0') && is_hex('f') && is_hex('F'));
    assert!(!is_hex('g') && !is_hex('G'));
    assert_eq!(as_hex('0'), 0);
    assert_eq!(as_hex('9'), 9);
    assert_eq!(as_hex('a'), 10);
    assert_eq!(as_hex('f'), 15);
    assert_eq!(as_hex('A'), 10);
    assert_eq!(as_hex('F'), 15);
}

#[test]
fn flow_indicators() {
    for c in [',', '[', ']', '{', '}'] {
        assert!(is_flow(c));
    }
    assert!(!is_flow(':') && !is_flow('('));
}

#[test]
fn bom_and_ascii() {
    assert!(is_bom('\u{feff}'));
    assert!(!is_bom('\u{fffe}'));
    assert!(is_ascii('\x7f'));
    assert!(!is_ascii('\u{80}'));
}

#[test]
fn printable_stream_characters() {
    for c in ['\n', '\r', ' ', '~', '\u{85}', '\u{a0}', '\u{d7ff}', '\u{e000}', '\u{fffd}', '\u{10000}'] {
        assert!(is_printable(c));
    }
    for c in ['\0', '\t', '\x7f', '\u{feff}', '\u{fffe}', '\u{ffff}', '\u{9f}'] {
        assert!(!is_printable(c));
    }
}

#[test]
fn plainly_printable_excludes_carriage_return_and_next_line() {
    assert!(!macros::is_printable('\r'));
    assert!(!macros::is_printable('\u{85}'));
    assert!(macros::is_printable('\n'));
    assert!(macros::is_printable('\u{c0}'));
    assert!(!macros::is_printable('\u{feff}'));
    assert!(!macros::is_printable('\t'));
}

#[test]
fn optional_character_classes() {
    assert!(macros::is_alpha(Some('x')));
    assert!(!macros::is_alpha(None));
    assert!(!macros::is_alpha(Some('.')));
    assert!(macros::is_space(Some(' ')));
    assert!(!macros::is_space(Some('\t')));
    assert!(!macros::is_space(None));
    assert!(macros::is_blank(Some('\t')));
    assert!(!macros::is_blank(None));
    assert!(macros::is_break(Some('\u{2029}')));
    assert!(!macros::is_break(None));
    assert!(macros::is_breakz(None));
    assert!(macros::is_breakz(Some('\n')));
    assert!(!macros::is_breakz(Some('a')));
    assert!(macros::is_blankz(None));
    assert!(macros::is_blankz(Some(' ')));
    assert!(macros::is_blankz(Some('\r')));
    assert!(!macros::is_blankz(Some('a')));
    assert!(macros::is_bom('\u{feff}'));
    assert!(macros::is_ascii('a'));
    assert!(!macros::is_ascii('é'));
}
