use nhtml::position::{digit_count, push_decimal, Position};
use nhtml::source::Source;
use nhtml::text::{decode, encode, push_repeated};

#[test]
fn new_position_selects_the_first_character() {
    let pos = Position::new();
    assert_eq!(pos, Position { idx: 0, len: 1, start_ln: 1, start_cn: 1, end_ln: 1, end_cn: 2 });
    assert_eq!(Position::default(), pos);
}

#[test]
fn extend_moves_the_end_one_column() {
    let mut pos = Position::new();
    pos.extend("abc");
    assert_eq!(pos, Position { idx: 0, len: 2, start_ln: 1, start_cn: 1, end_ln: 1, end_cn: 3 });
}

#[test]
fn extend_over_a_newline_starts_a_line() {
    let mut pos = Position::new();
    pos.extend("\nbc");
    assert_eq!(pos, Position { idx: 0, len: 2, start_ln: 1, start_cn: 1, end_ln: 2, end_cn: 1 });
    pos.extend("\nbc");
    assert_eq!(pos, Position { idx: 0, len: 3, start_ln: 1, start_cn: 1, end_ln: 2, end_cn: 2 });
}

#[test]
fn advance_selects_the_next_character() {
    let mut pos = Position::new();
    pos.advance("abc");
    assert_eq!(pos, Position { idx: 1, len: 1, start_ln: 1, start_cn: 3, end_ln: 1, end_cn: 3 });
    let mut pos = Position { idx: 2, len: 3, start_ln: 4, start_cn: 5, end_ln: 4, end_cn: 7 };
    pos.advance("abcd\nfg");
    assert_eq!(pos, Position { idx: 5, len: 1, start_ln: 5, start_cn: 1, end_ln: 5, end_cn: 1 });
}

#[test]
fn extend_works_on_decoded_text_too() {
    let chars = decode("a\nb");
    let mut pos = Position::new();
    pos.advance(&chars);
    pos.advance(&chars);
    assert_eq!(pos, Position { idx: 2, len: 1, start_ln: 2, start_cn: 1, end_ln: 2, end_cn: 1 });
}

#[test]
fn for_error_keeps_position_and_text() {
    let pos = Position { idx: 1, len: 2, start_ln: 1, start_cn: 3, end_ln: 1, end_cn: 4 };
    let display = pos.for_error("abcd");
    assert_eq!(display.position(), pos);
    assert_eq!(display.source(), "abcd");
    assert_eq!(display.render(), "1:3 to 1:4\n  |   vv -- here\n1 | abcd\n  |\n");
}

#[test]
fn render_lists_only_the_lines_the_text_has() {
    let pos = Position { idx: 0, len: 9, start_ln: 1, start_cn: 1, end_ln: 4, end_cn: 1 };
    assert_eq!(pos.for_error("a\r\nb").render(), "1:1 to 4:1\n  | v -- here\n1 | a\n2 | b\n  |\n");
}

#[test]
fn source_reads_by_position() {
    let pos = Position { idx: 1, len: 2, start_ln: 1, start_cn: 3, end_ln: 1, end_cn: 4 };
    assert_eq!("abcd".get_str(&pos), "bc");
    assert_eq!("abcd".get_char(&pos), Some('c'));
    assert_eq!("abcd".get_char_start(&pos), Some('b'));
    assert_eq!("abcd".peek_next(&pos), Some('d'));
    assert_eq!("abc".peek_next(&pos), None);
    assert_eq!("ab".get_char(&pos), None);
    assert_eq!("a".get_char_start(&pos), None);
    let chars = decode("héllo");
    assert_eq!(chars.get_str(&pos), "él");
    assert_eq!(chars.get_char(&pos), Some('l'));
    assert_eq!("héllo".get_str(&pos), "él");
}

#[test]
fn source_lines() {
    let pos = Position { idx: 0, len: 1, start_ln: 2, start_cn: 1, end_ln: 3, end_cn: 1 };
    assert_eq!("a\nb\r\nc\nd".get_lines(&pos), vec!["b".to_string(), "c".to_string()]);
    assert_eq!("a\nb".get_lines(&pos), vec!["b".to_string()]);
    assert_eq!("a\nb\n".get_lines(&pos), vec!["b".to_string()]);
    assert_eq!("a\n\n\n".get_lines(&pos), vec!["".to_string(), "".to_string()]);
    assert_eq!("a".get_lines(&pos), Vec::<String>::new());
    assert_eq!("a\nb\r".get_lines(&pos), vec!["b\r".to_string()]);
    let past = Position { idx: 3, len: 1, start_ln: 1, start_cn: 1, end_ln: 1, end_cn: 1 };
    assert_eq!("a\nb".get_lines(&past), Vec::<String>::new());
    assert_eq!("".get_lines(&pos), Vec::<String>::new());
}

#[test]
fn decimal_digits() {
    for (n, text) in [(0usize, "0"), (7, "7"), (10, "10"), (909, "909"), (12345, "12345")] {
        let mut out = String::from("x");
        push_decimal(&mut out, n);
        assert_eq!(out, format!("x{}", text));
        assert_eq!(digit_count(n), text.len());
    }
    let mut out = String::new();
    push_decimal(&mut out, usize::MAX);
    assert_eq!(out, format!("{}", usize::MAX));
}

#[test]
fn text_helpers() {
    let chars = decode("héllo");
    assert_eq!(chars, vec!['h', 'é', 'l', 'l', 'o']);
    assert_eq!(encode(&chars, 1, 3), "él");
    assert_eq!(encode(&chars, 2, 2), "");
    let mut out = String::from("a");
    push_repeated(&mut out, 'v', 3);
    assert_eq!(out, "avvv");
}

#[test]
fn label_is_line_and_column_of_the_start() {
    let pos = Position { idx: 40, len: 2, start_ln: 12, start_cn: 7, end_ln: 12, end_cn: 8 };
    assert_eq!(pos.label(), "12:7");
    assert_eq!(Position::new().label(), "1:1");
}
