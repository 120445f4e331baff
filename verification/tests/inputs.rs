use libyaml_safer::{Input, OwnedStrInput, StrInput};

fn walk<I: Input>(mut input: I) -> String {
    let mut out = String::new();
    loop {
        input.lookahead(1);
        if input.next_is_z() {
            return out;
        }
        out.push(input.peek());
        input.skip();
    }
}

#[test]
fn str_input_peeks_and_skips_characters() {
    let mut input = StrInput::new("aé\n€x");
    input.lookahead(4);
    assert!(input.buflen() >= 4);
    assert_eq!(input.peek(), 'a');
    assert_eq!(input.peek_nth(1), 'é');
    assert_eq!(input.peek_nth(2), '\n');
    assert_eq!(input.peek_nth(3), '€');
    assert_eq!(input.peek_nth(9), '\0');
    assert!(input.next_is_alpha());
    input.skip();
    assert!(!input.next_is_alpha());
    input.skip();
    assert!(input.next_is_break());
    assert!(input.next_is_breakz());
    assert!(input.next_is_blank_or_breakz());
    input.skip_n(2);
    assert_eq!(input.peek(), 'x');
    input.skip();
    assert!(input.next_is_z());
    assert_eq!(input.peek(), '\0');
}

#[test]
fn owned_input_matches_str_input() {
    let text = "k: v\t\u{2028}9é";
    assert_eq!(walk(StrInput::new(text)), text);
    assert_eq!(walk(OwnedStrInput::new(text.to_string())), text);
}

#[test]
fn owned_input_classifies_the_next_character() {
    let mut input = OwnedStrInput::new("\u{feff}7 \t".to_string());
    assert!(input.next_is_bom());
    assert_eq!(input.look_ch(), '\u{feff}');
    input.skip();
    assert!(input.next_is_digit());
    assert!(input.next_char_is('7'));
    assert!(input.nth_char_is(1, ' '));
    input.skip();
    assert!(input.next_is_blank());
    input.skip();
    assert!(input.next_is_blank());
    input.skip();
    assert!(input.next_is_z());
    assert!(input.next_is_breakz());
}

#[test]
fn inputs_convert_from_strings() {
    let a: StrInput = "xy".into();
    let b: OwnedStrInput = String::from("xy").into();
    assert_eq!(walk(a), "xy");
    assert_eq!(walk(b), "xy");
}

#[test]
fn nil_inside_a_string_counts_as_the_end() {
    let mut input = StrInput::new("a\0b");
    assert!(!input.next_is_z());
    input.skip();
    assert!(input.next_is_z());
    assert!(input.next_is_breakz());
    assert!(input.next_is_blank_or_breakz());
    assert_eq!(input.peek(), '\0');
    input.skip();
    assert_eq!(input.peek(), 'b');
    assert!(!input.next_is_z());
}

#[test]
fn lookahead_counts_the_largest_request_and_skip_keeps_it() {
    let mut input = StrInput::new("abcdef");
    assert_eq!(input.buflen(), 0);
    input.lookahead(3);
    assert_eq!(input.buflen(), 3);
    input.lookahead(1);
    assert_eq!(input.buflen(), 3);
    input.skip();
    assert_eq!(input.buflen(), 3);
    let mut owned = OwnedStrInput::new("abcdef".to_string());
    owned.lookahead(2);
    owned.lookahead(5);
    owned.skip();
    assert_eq!(owned.buflen(), 5);
}
