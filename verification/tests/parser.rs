use nhtml::parser::{Element, ParseError, Parser, TranspileError};
use nhtml::scanner::Scanner;

#[test]
fn parse_element_takes_one_element_at_a_time() {
    let mut parser = Parser::new(Scanner::new("\"a\" <b> c; }"));
    assert!(matches!(parser.parse_element().unwrap(), Some(Element::Text(text)) if text == "a"));
    assert!(matches!(parser.parse_element().unwrap(), Some(Element::HTML(raw)) if raw == "<b>"));
    match parser.parse_element().unwrap() {
        Some(Element::Tag(tag)) => {
            assert_eq!(tag.ty, "c");
            assert!(tag.attribs.is_empty());
            assert!(tag.body.is_empty());
        }
        other => panic!("unexpected element {:?}", other),
    }
    assert!(parser.parse_element().unwrap().is_none());
    assert!(parser.parse_element().unwrap().is_none());
}

#[test]
fn nested_bodies() {
    let elements = Parser::parse(Scanner::new("a { b c { \"t\" } d; }")).unwrap();
    assert_eq!(elements.len(), 1);
    let Element::Tag(a) = &elements[0] else { panic!("no tag") };
    assert_eq!(a.body.len(), 2);
    let Element::Tag(b) = &a.body[0] else { panic!("no tag") };
    assert_eq!(b.ty, "b");
    assert_eq!(b.attribs, vec![("c".to_string(), None)]);
    assert!(matches!(&b.body[..], [Element::Text(text)] if text == "t"));
    let Element::Tag(d) = &a.body[1] else { panic!("no tag") };
    assert_eq!(d.ty, "d");
}

#[test]
fn one_element_body_takes_the_semicolon_after_it() {
    let elements = Parser::parse(Scanner::new("p \"a\"; q <b>; r s \"t\";")).unwrap();
    assert_eq!(elements.len(), 3);
}

#[test]
fn strings_in_braces_take_no_semicolon() {
    let err = Parser::parse(Scanner::new("p { \"a\"; }")).unwrap_err();
    assert!(matches!(err, TranspileError::Parse(ParseError::ExpectedElement(_))));
    assert_eq!(err.display().position().idx, 7);
}

#[test]
fn empty_string_is_empty_text() {
    let elements = Parser::parse(Scanner::new("''")).unwrap();
    assert!(matches!(&elements[..], [Element::Text(text)] if text.is_empty()));
}

#[test]
fn equal_sign_at_the_end_of_the_text() {
    let err = Parser::parse(Scanner::new("a b=")).unwrap_err();
    match &err {
        TranspileError::Parse(ParseError::UnexpectedToken(message, display)) => {
            assert_eq!(message, "Expected string value");
            assert_eq!(display.position().idx, 4);
        }
        other => panic!("unexpected error {:?}", other),
    }
}
