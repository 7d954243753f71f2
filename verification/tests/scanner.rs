use nhtml::position::Position;
use nhtml::scanner::{ScanError, Scanner};
use nhtml::token::{Token, TokenType};

fn tokens(src: &str) -> Vec<(TokenType, String, usize)> {
    let mut scanner = Scanner::new(src);
    let mut found = vec![];
    while let Some(token) = scanner.scan().unwrap() {
        found.push((token.ty, token.lexeme, token.pos.idx));
    }
    found
}

fn token(ty: TokenType, lexeme: &str, idx: usize) -> (TokenType, String, usize) {
    (ty, lexeme.to_string(), idx)
}

#[test]
fn punctuation_and_names() {
    assert_eq!(
        tokens("a-b_1 = { } ;"),
        vec![
            token(TokenType::Text, "a-b_1", 0),
            token(TokenType::Equal, "=", 6),
            token(TokenType::LeftBrace, "{", 8),
            token(TokenType::RightBrace, "}", 10),
            token(TokenType::Semicolon, ";", 12),
        ]
    );
}

#[test]
fn strings_keep_their_delimiters() {
    assert_eq!(
        tokens("\"a'b\" 'c\"d' \"\""),
        vec![
            token(TokenType::String, "\"a'b\"", 0),
            token(TokenType::String, "'c\"d'", 6),
            token(TokenType::String, "\"\"", 12),
        ]
    );
}

#[test]
fn escape_inside_a_string_does_not_hide_the_delimiter() {
    assert_eq!(
        tokens("\"a\\\" b"),
        vec![token(TokenType::String, "\"a\\\"", 0), token(TokenType::Text, "b", 5)]
    );
}

#[test]
fn raw_blocks_are_balanced() {
    assert_eq!(tokens("<>"), vec![token(TokenType::Html, "<>", 0)]);
    assert_eq!(tokens("<a<b>c> x"), vec![
        token(TokenType::Html, "<a<b>c>", 0),
        token(TokenType::Text, "x", 8),
    ]);
    assert_eq!(tokens("<<a>>"), vec![token(TokenType::Html, "<<a>>", 0)]);
}

#[test]
fn opaque_blocks() {
    assert_eq!(tokens("js{ a{b}c }"), vec![token(TokenType::Js, "js{ a{b}c }", 0)]);
    assert_eq!(tokens("css{}p"), vec![
        token(TokenType::Css, "css{}", 0),
        token(TokenType::Text, "p", 5),
    ]);
    assert_eq!(tokens("jsx{"), vec![
        token(TokenType::Text, "jsx", 0),
        token(TokenType::LeftBrace, "{", 3),
    ]);
    assert_eq!(tokens("js {"), vec![
        token(TokenType::Text, "js", 0),
        token(TokenType::LeftBrace, "{", 3),
    ]);
    assert_eq!(tokens("css"), vec![token(TokenType::Text, "css", 0)]);
}

#[test]
fn comments_are_dropped() {
    assert_eq!(tokens("/* c */x"), vec![token(TokenType::Text, "x", 7)]);
    assert_eq!(tokens("/*/ c */x"), vec![token(TokenType::Text, "x", 8)]);
    assert_eq!(tokens("// c\nx"), vec![token(TokenType::Text, "x", 5)]);
    assert_eq!(tokens("a // c"), vec![token(TokenType::Text, "a", 0)]);
    assert_eq!(tokens("a /* c"), vec![token(TokenType::Text, "a", 0)]);
    assert_eq!(tokens("/**/"), vec![]);
}

#[test]
fn backslash_skips_one_character() {
    assert_eq!(tokens("\\{x"), vec![token(TokenType::Text, "x", 2)]);
    assert_eq!(tokens("a\\"), vec![token(TokenType::Text, "a", 0)]);
    assert_eq!(tokens("\\@\\@ b"), vec![token(TokenType::Text, "b", 5)]);
}

#[test]
fn cursor_after_a_trailing_backslash() {
    let mut scanner = Scanner::new("a\\");
    assert!(scanner.scan().unwrap().is_some());
    assert!(scanner.scan().unwrap().is_none());
    assert_eq!(scanner.pos().idx, 3);
}

#[test]
fn token_positions_carry_lines_and_columns() {
    let mut scanner = Scanner::new("\n  ab \"c\nd\"");
    let first = scanner.scan().unwrap().unwrap();
    assert_eq!(
        first,
        Token {
            ty: TokenType::Text,
            lexeme: "ab".to_string(),
            pos: Position { idx: 3, len: 2, start_ln: 2, start_cn: 3, end_ln: 2, end_cn: 4 },
        }
    );
    let second = scanner.scan().unwrap().unwrap();
    assert_eq!(
        second,
        Token {
            ty: TokenType::String,
            lexeme: "\"c\nd\"".to_string(),
            pos: Position { idx: 6, len: 5, start_ln: 2, start_cn: 6, end_ln: 3, end_cn: 2 },
        }
    );
    assert!(scanner.scan().unwrap().is_none());
}

#[test]
fn first_line_columns() {
    let mut scanner = Scanner::new("ab c");
    let first = scanner.scan().unwrap().unwrap();
    assert_eq!(
        first.pos,
        Position { idx: 0, len: 2, start_ln: 1, start_cn: 1, end_ln: 1, end_cn: 3 }
    );
    let second = scanner.scan().unwrap().unwrap();
    assert_eq!(
        second.pos,
        Position { idx: 3, len: 1, start_ln: 1, start_cn: 5, end_ln: 1, end_cn: 5 }
    );
}

#[test]
fn invalid_characters() {
    for (src, bad, idx) in [("@", '@', 0usize), ("a /x", '/', 2), ("a > b", '>', 2), ("é", 'é', 0)] {
        let mut scanner = Scanner::new(src);
        let err = loop {
            match scanner.scan() {
                Ok(Some(_)) => continue,
                Ok(None) => panic!("no error in {}", src),
                Err(err) => break err,
            }
        };
        match err {
            ScanError::InvalidCharacter(c, display) => {
                assert_eq!(c, bad);
                assert_eq!(display.position().idx, idx);
                assert_eq!(display.position().len, 1);
                assert_eq!(display.source(), src);
            }
            other => panic!("unexpected error {:?}", other),
        }
    }
}

#[test]
fn malformed_lexemes_reach_to_the_end_of_the_text() {
    let mut scanner = Scanner::new("a 'bc");
    scanner.scan().unwrap();
    match scanner.scan().unwrap_err() {
        ScanError::MalformedString(display) => {
            assert_eq!(display.position().idx, 2);
            assert_eq!(display.position().len, 3);
        }
        other => panic!("unexpected error {:?}", other),
    }
    match Scanner::new("<a<b>").scan().unwrap_err() {
        ScanError::MalformedHTML(display) => {
            assert_eq!(display.position().idx, 0);
            assert_eq!(display.position().len, 5);
        }
        other => panic!("unexpected error {:?}", other),
    }
    match Scanner::new("js{{}").scan().unwrap_err() {
        ScanError::MalformedJS(display) => assert_eq!(display.position().len, 5),
        other => panic!("unexpected error {:?}", other),
    }
    match Scanner::new("css{").scan().unwrap_err() {
        ScanError::MalformedCSS(display) => assert_eq!(display.position().len, 4),
        other => panic!("unexpected error {:?}", other),
    }
}

#[test]
fn scanning_again_after_an_error_gives_the_error_again() {
    let mut scanner = Scanner::new("a 'bc");
    scanner.scan().unwrap();
    assert!(matches!(scanner.scan(), Err(ScanError::MalformedString(_))));
    assert_eq!(scanner.pos().idx, 2);
    assert!(matches!(scanner.scan(), Err(ScanError::MalformedString(_))));
}

#[test]
fn non_ascii_text_is_counted_by_characters() {
    assert_eq!(
        tokens("\"é\" b"),
        vec![token(TokenType::String, "\"é\"", 0), token(TokenType::Text, "b", 4)]
    );
}

#[test]
fn pos_error_holds_the_text() {
    let scanner = Scanner::new("ab");
    let display = scanner.pos_error(&scanner.pos());
    assert_eq!(display.source(), "ab");
    assert_eq!(display.position(), Position::new());
}
