use catan::game::text::{
    chars_of, digit_char_of, digit_of, fields_of, is_blank_char, lines_of, number_of, push_chars,
    push_decimal, push_signed_decimal, push_two_digits,
};

fn chars(s: &str) -> Vec<char> {
    s.chars().collect()
}

fn strings(rows: Vec<Vec<char>>) -> Vec<String> {
    rows.into_iter().map(|row| row.into_iter().collect()).collect()
}

#[test]
fn a_text_has_its_characters_in_order() {
    assert_eq!(chars_of(""), Vec::<char>::new());
    assert_eq!(chars_of("a b\n"), vec!['a', ' ', 'b', '\n']);
    assert_eq!(chars_of("é!"), vec!['é', '!']);
}

#[test]
fn a_text_is_split_at_its_line_feeds() {
    assert_eq!(strings(lines_of(&chars(""))), vec![""]);
    assert_eq!(strings(lines_of(&chars("one"))), vec!["one"]);
    assert_eq!(strings(lines_of(&chars("one\ntwo"))), vec!["one", "two"]);
    assert_eq!(strings(lines_of(&chars("\none\n\ntwo\n"))), vec!["", "one", "", "two", ""]);
    assert_eq!(strings(lines_of(&chars("one\r\ntwo"))), vec!["one\r", "two"]);
}

#[test]
fn a_line_is_split_into_its_fields() {
    assert_eq!(strings(fields_of(&chars(""))), Vec::<String>::new());
    assert_eq!(strings(fields_of(&chars("   "))), Vec::<String>::new());
    assert_eq!(strings(fields_of(&chars("W 1 2"))), vec!["W", "1", "2"]);
    assert_eq!(strings(fields_of(&chars("  W\t10  2 \r"))), vec!["W", "10", "2"]);
    assert!(is_blank_char(' ') && is_blank_char('\t') && is_blank_char('\r'));
    assert!(!is_blank_char('\n') && !is_blank_char('0') && !is_blank_char('W'));
}

#[test]
fn digits_and_numbers_are_read() {
    assert_eq!(digit_of('0'), Some(0));
    assert_eq!(digit_of('7'), Some(7));
    assert_eq!(digit_of('9'), Some(9));
    assert_eq!(digit_of('a'), None);
    assert_eq!(digit_of('+'), None);
    assert_eq!(number_of(&chars("0"), 127), Some(0));
    assert_eq!(number_of(&chars("127"), 127), Some(127));
    assert_eq!(number_of(&chars("128"), 127), None);
    assert_eq!(number_of(&chars("0099"), 99), Some(99));
    assert_eq!(number_of(&chars("255"), 255), Some(255));
    assert_eq!(number_of(&chars("256"), 255), None);
    assert_eq!(number_of(&chars("99999999999999999999"), 255), None);
    assert_eq!(number_of(&chars(""), 127), None);
    assert_eq!(number_of(&chars("-1"), 127), None);
    assert_eq!(number_of(&chars("1 "), 127), None);
    assert_eq!(number_of(&chars("7"), 5), None);
    assert_eq!(number_of(&chars("5"), 5), Some(5));
}

#[test]
fn numbers_are_written() {
    for (d, c) in "0123456789".chars().enumerate() {
        assert_eq!(digit_char_of(d as u8), c);
    }
    let mut out = String::from(">");
    push_decimal(&mut out, 0);
    out.push(' ');
    push_decimal(&mut out, 9);
    out.push(' ');
    push_decimal(&mut out, 10);
    out.push(' ');
    push_decimal(&mut out, 255);
    assert_eq!(out, ">0 9 10 255");
    let mut out = String::new();
    push_two_digits(&mut out, 0);
    push_two_digits(&mut out, 7);
    push_two_digits(&mut out, 12);
    push_two_digits(&mut out, 100);
    assert_eq!(out, "000712100");
    let mut out = String::new();
    push_signed_decimal(&mut out, 0);
    out.push(' ');
    push_signed_decimal(&mut out, 127);
    out.push(' ');
    push_signed_decimal(&mut out, -1);
    out.push(' ');
    push_signed_decimal(&mut out, -128);
    assert_eq!(out, "0 127 -1 -128");
    let mut out = String::from("x");
    push_chars(&mut out, &chars("abcdef"), 2, 5);
    push_chars(&mut out, &chars("abcdef"), 3, 3);
    assert_eq!(out, "xcde");
}
