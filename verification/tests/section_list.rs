use story_shuffler::section_list::{
    chars_of, is_digit_char, is_space_char, parse_section_list, read_item, Item,
};
use story_shuffler::Constraints;

#[test]
fn the_empty_text_lists_nothing() {
    assert_eq!(parse_section_list(""), Some(vec![]));
}

#[test]
fn numbers_with_commas_are_a_list() {
    assert_eq!(parse_section_list("1"), Some(vec![1]));
    assert_eq!(parse_section_list("2,3"), Some(vec![2, 3]));
    assert_eq!(parse_section_list("1,3,7,10"), Some(vec![1, 3, 7, 10]));
    assert_eq!(parse_section_list("3,3,1"), Some(vec![3, 3, 1]));
}

#[test]
fn white_space_may_stand_around_each_number() {
    assert_eq!(parse_section_list(" 1 "), Some(vec![1]));
    assert_eq!(parse_section_list("  2 ,\t3\n,  40  "), Some(vec![2, 3, 40]));
    assert_eq!(parse_section_list("\u{a0}5\u{2003},\u{3000}6"), Some(vec![5, 6]));
}

#[test]
fn zeros_are_passed_over() {
    assert_eq!(parse_section_list("0"), Some(vec![]));
    assert_eq!(parse_section_list("0, 4, 000, 5"), Some(vec![4, 5]));
    assert_eq!(parse_section_list("007"), Some(vec![7]));
}

#[test]
fn numbers_beyond_the_sections_are_kept() {
    assert_eq!(parse_section_list("99999"), Some(vec![99999]));
    assert_eq!(
        parse_section_list(&usize::MAX.to_string()),
        Some(vec![usize::MAX])
    );
}

#[test]
fn numbers_too_large_for_the_machine_are_passed_over() {
    assert_eq!(parse_section_list("340282366920938463463374607431768211456"), Some(vec![]));
    assert_eq!(parse_section_list("2, 99999999999999999999999999, 3"), Some(vec![2, 3]));
    let beyond = format!("{}", usize::MAX as u128 + 1);
    assert_eq!(parse_section_list(&beyond), Some(vec![]));
}

#[test]
fn anything_else_is_rejected() {
    for text in [
        " ", "   ", ",", "1,", ",1", "1,,2", "1 2", "a", "1,a", "-1", "+1", "1.5", "1;2", "1, ,2",
        "\u{661}", "1\u{0}",
    ] {
        assert_eq!(parse_section_list(text), None);
    }
}

#[test]
fn pieces_are_read_one_by_one() {
    let chars = chars_of(" 12 ,x, 0,7");
    assert_eq!(chars.len(), 11);
    assert_eq!(read_item(&chars, 0, 4), Item::Section(12));
    assert_eq!(read_item(&chars, 5, 6), Item::Malformed);
    assert_eq!(read_item(&chars, 7, 9), Item::Nothing);
    assert_eq!(read_item(&chars, 10, 11), Item::Section(7));
    assert_eq!(read_item(&chars, 4, 4), Item::Malformed);
    assert_eq!(read_item(&chars, 0, 1), Item::Malformed);
    assert_eq!(read_item(&chars, 0, 6), Item::Malformed);
}

#[test]
fn digits_and_white_space_are_told_apart() {
    for c in ['0', '5', '9'] {
        assert!(is_digit_char(c));
        assert!(!is_space_char(c));
    }
    for c in ['/', ':', 'a', '\u{661}', ' '] {
        assert!(!is_digit_char(c));
    }
    for c in ['\t', '\n', '\u{b}', '\u{c}', '\r', ' ', '\u{85}', '\u{a0}', '\u{1680}', '\u{2000}', '\u{200a}', '\u{2028}', '\u{2029}', '\u{202f}', '\u{205f}', '\u{3000}'] {
        assert!(is_space_char(c));
    }
    for c in ['\u{8}', '\u{e}', '\u{1f}', '!', '\u{200b}', '\u{180e}', '\u{feff}', 'x'] {
        assert!(!is_space_char(c));
    }
}

#[test]
fn white_space_is_what_the_standard_library_calls_so() {
    for code in 0..0x11000u32 {
        if let Some(c) = char::from_u32(code) {
            assert_eq!(is_space_char(c), c.is_whitespace());
        }
    }
}

#[test]
fn characters_are_taken_one_for_one() {
    assert_eq!(chars_of(""), Vec::<char>::new());
    assert_eq!(chars_of("a§…"), vec!['a', '§', '…']);
}

#[test]
fn editing_takes_a_well_formed_list() {
    let mut constraints = Constraints::default();
    constraints.fixed = true;
    constraints.paradox_error = Some("kept".to_string());
    constraints.edit_before(" 3, 0, 12 ");
    assert_eq!(constraints.text_buffer, " 3, 0, 12 ");
    assert!(constraints.text_buffer_is_valid);
    assert_eq!(constraints.before, vec![3, 12]);
    assert!(constraints.fixed);
    assert_eq!(constraints.paradox_error.as_deref(), Some("kept"));
}

#[test]
fn editing_keeps_malformed_text_and_names_no_section() {
    let mut constraints = Constraints::default();
    constraints.edit_before("2, 3");
    assert_eq!(constraints.before, vec![2, 3]);
    constraints.edit_before("2, three");
    assert_eq!(constraints.text_buffer, "2, three");
    assert!(!constraints.text_buffer_is_valid);
    assert_eq!(constraints.before, Vec::<usize>::new());
    constraints.edit_before("");
    assert!(constraints.text_buffer_is_valid);
    assert_eq!(constraints.before, Vec::<usize>::new());
}

#[test]
fn fresh_constraints_say_nothing() {
    let constraints = Constraints::default();
    assert!(!constraints.fixed);
    assert!(constraints.before.is_empty());
    assert_eq!(constraints.text_buffer, "");
    assert!(constraints.text_buffer_is_valid);
    assert_eq!(constraints.paradox_error, None);
}
