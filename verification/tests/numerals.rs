use story_shuffler::numerals::append_decimal;

fn decimal(n: u128) -> String {
    let mut text = String::new();
    append_decimal(&mut text, n);
    text
}

#[test]
fn numbers_are_written_in_decimal() {
    assert_eq!(decimal(0), "0");
    assert_eq!(decimal(7), "7");
    assert_eq!(decimal(10), "10");
    assert_eq!(decimal(1234567890), "1234567890");
    assert_eq!(decimal(u128::MAX), "340282366920938463463374607431768211455");
    for n in 0..2000u128 {
        assert_eq!(decimal(n), n.to_string());
    }
}

#[test]
fn a_numeral_is_appended_to_what_is_there() {
    let mut text = String::from("§");
    append_decimal(&mut text, 42);
    assert_eq!(text, "§42");
}
