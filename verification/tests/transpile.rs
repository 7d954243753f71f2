use nhtml::parser::{Element, ParseError, Parser, Tag, TranspileError};
use nhtml::scanner::{ScanError, Scanner};
use nhtml::transpile;

#[test]
fn test_html_template() {
    let src = r#"
            <!DOCTYPE html>

            html lang="en" {
              head {
                meta charset="UTF-8";
                meta name="viewport" content="width=device-width, initial-scale=1.0";
                meta http-equiv="X-UA-Compatible" content="ie=edge";
                title "HTML 5 Boilerplate";
                link rel="stylesheet" href="style.css";
              }

              // Main body
              body {
                script src="index.js";
                a class="test" "Hello";
                a class='test' 'Hello';
            
                p "Hello App!";
              }
            }
        "#;

    let expect = r#"<!DOCTYPE html>
<html lang="en">
    <head>
        <meta charset="UTF-8">
        <meta name="viewport" content="width=device-width, initial-scale=1.0">
        <meta http-equiv="X-UA-Compatible" content="ie=edge">
        <title>
            HTML 5 Boilerplate
        </title>
        <link rel="stylesheet" href="style.css">
    </head>
    <body>
        <script src="index.js"></script>
        <a class="test">
            Hello
        </a>
        <a class='test'>
            Hello
        </a>
        <p>
            Hello App!
        </p>
    </body>
</html>
"#;

    let res = transpile(src).unwrap();
    let mut expect_lines = expect.lines();

    for (i, line) in res.lines().enumerate() {
        assert_eq!(Some(line), expect_lines.next(), "Mismatch on line {}", i + 1)
    }
}

#[test]
fn html_template_is_reproduced_to_the_last_character() {
    let src = "<!DOCTYPE html>\nhtml lang=\"en\" {\n  head { title \"T\"; }\n  // note\n  body { p \"x\"; }\n}\n";
    let expect = "<!DOCTYPE html>\n<html lang=\"en\">\n    <head>\n        <title>\n            T\n        </title>\n    </head>\n    <body>\n        <p>\n            x\n        </p>\n    </body>\n</html>\n";
    assert_eq!(transpile(src).unwrap(), expect);
}

#[test]
fn void_tag_with_attribute() {
    assert_eq!(transpile("meta charset=\"UTF-8\";").unwrap(), "<meta charset=\"UTF-8\">\n");
}

#[test]
fn tag_with_one_text_child() {
    assert_eq!(transpile("p \"Hello\"").unwrap(), "<p>\n    Hello\n</p>\n");
}

#[test]
fn braced_body_with_two_tags() {
    assert_eq!(
        transpile("div { span \"a\"; span \"b\"; }").unwrap(),
        "<div>\n    <span>\n        a\n    </span>\n    <span>\n        b\n    </span>\n</div>\n"
    );
}

#[test]
fn unterminated_string_is_malformed() {
    let err = transpile("div class=\"x").unwrap_err();
    assert!(matches!(err, TranspileError::Scan(ScanError::MalformedString(_))));
    assert_eq!(err.display().position().idx, 10);
    assert_eq!(err.display().position().len, 2);
}

#[test]
fn attribute_keeps_quotes_and_text_loses_them() {
    let elements = Parser::parse(Scanner::new("a class=\"test\" 'Hello'")).unwrap();
    assert_eq!(elements.len(), 1);
    match &elements[0] {
        Element::Tag(tag) => {
            assert_eq!(tag.ty, "a");
            assert_eq!(tag.attribs, vec![("class".to_string(), Some("\"test\"".to_string()))]);
            assert_eq!(tag.body.len(), 1);
            match &tag.body[0] {
                Element::Text(text) => assert_eq!(text, "Hello"),
                other => panic!("unexpected element {:?}", other),
            }
        }
        other => panic!("unexpected element {:?}", other),
    }
    assert_eq!(
        transpile("a class=\"test\" 'Hello'").unwrap(),
        "<a class=\"test\">\n    Hello\n</a>\n"
    );
}

#[test]
fn single_quoted_attribute_value_is_kept_as_written() {
    assert_eq!(transpile("a href='x y';").unwrap(), "<a href='x y'></a>\n");
}

#[test]
fn empty_source_gives_empty_output() {
    assert_eq!(transpile("").unwrap(), "");
    assert_eq!(transpile("  \n\t ").unwrap(), "");
}

#[test]
fn raw_block_is_passed_through() {
    assert_eq!(transpile("<!DOCTYPE html>").unwrap(), "<!DOCTYPE html>\n");
    assert_eq!(transpile("div <b<i>>").unwrap(), "<div>\n    <b<i>>\n</div>\n");
}

#[test]
fn valueless_attribute() {
    assert_eq!(transpile("input disabled;").unwrap(), "<input disabled></input>\n");
    assert_eq!(transpile("div span \"a\";").unwrap(), "<div span>\n    a\n</div>\n");
}

#[test]
fn parsing_stops_at_the_first_token_that_starts_no_element() {
    assert_eq!(transpile("p; } p;").unwrap(), "<p></p>\n");
    assert_eq!(transpile("p; = x").unwrap(), "<p></p>\n");
}

#[test]
fn lexical_error_after_the_last_element_ends_the_pass() {
    let err = transpile("p; @").unwrap_err();
    assert!(matches!(err, TranspileError::Scan(ScanError::InvalidCharacter('@', _))));
    assert_eq!(err.display().position().idx, 3);
}

#[test]
fn missing_string_after_equal_sign() {
    let err = transpile("div a= x;").unwrap_err();
    match &err {
        TranspileError::Parse(ParseError::UnexpectedToken(message, _)) => {
            assert_eq!(message, "Expected string value")
        }
        other => panic!("unexpected error {:?}", other),
    }
    assert_eq!(err.display().position().idx, 7);
    assert_eq!(
        err.message(),
        "Expected string value at 1:9\n  |         v -- here\n1 | div a= x;\n  |\n"
    );
}

#[test]
fn missing_body_at_the_end_of_the_text() {
    let err = transpile("div").unwrap_err();
    assert!(matches!(err, TranspileError::Parse(ParseError::ExpectedElement(_))));
    assert_eq!(err.display().position().idx, 3);
    assert_eq!(err.message(), "Expected element at 1:5\n  |     v -- here\n  |\n");
}

#[test]
fn token_that_starts_no_element_inside_braces() {
    let err = transpile("div { = }").unwrap_err();
    assert!(matches!(err, TranspileError::Parse(ParseError::ExpectedElement(_))));
    assert_eq!(err.display().position().idx, 6);
}

#[test]
fn unclosed_braces() {
    let err = transpile("div { p;").unwrap_err();
    assert!(matches!(err, TranspileError::Parse(ParseError::ExpectedElement(_))));
    assert_eq!(err.display().position().idx, 8);
}

#[test]
fn opaque_blocks_start_no_element() {
    let err = transpile("div { js{ let a = {}; } }").unwrap_err();
    assert!(matches!(err, TranspileError::Parse(ParseError::ExpectedElement(_))));
    assert_eq!(err.display().position().idx, 6);
    assert_eq!(err.display().position().len, 17);
}

#[test]
fn malformed_blocks() {
    assert!(matches!(
        transpile("div <b").unwrap_err(),
        TranspileError::Scan(ScanError::MalformedHTML(_))
    ));
    assert!(matches!(
        transpile("js{ {}").unwrap_err(),
        TranspileError::Scan(ScanError::MalformedJS(_))
    ));
    assert!(matches!(
        transpile("css{").unwrap_err(),
        TranspileError::Scan(ScanError::MalformedCSS(_))
    ));
}

#[test]
fn error_messages_of_the_scanner() {
    assert_eq!(
        transpile("@").unwrap_err().message(),
        "Invalid character '@' at 1:1 to 1:2\n  | vv -- here\n1 | @\n  |\n"
    );
    assert_eq!(
        transpile("div class=\"x").unwrap_err().message(),
        "Malformed string at 1:12 to 1:13\n  |            vv -- here\n1 | div class=\"x\n  |\n"
    );
    assert_eq!(
        transpile("a\n\"bc\nd").unwrap_err().message(),
        "Malformed string at 2:1 to 3:1\n  | v -- here\n2 | \"bc\n3 | d\n  |\n"
    );
    assert_eq!(
        transpile("\n<x").unwrap_err().message(),
        "Malformed HTML at 2:1 to 2:2\n  | vv -- here\n2 | <x\n  |\n"
    );
    assert_eq!(
        transpile("\njs{").unwrap_err().message(),
        "Malformed JS at 2:1 to 2:3\n  | vvv -- here\n2 | js{\n  |\n"
    );
    assert_eq!(
        transpile("\ncss{").unwrap_err().message(),
        "Malformed CSS at 2:1 to 2:4\n  | vvvv -- here\n2 | css{\n  |\n"
    );
}

#[test]
fn line_numbers_are_right_aligned_in_the_gutter() {
    let src = format!("{}\"\nx", "\n".repeat(8));
    assert_eq!(
        transpile(&src).unwrap_err().message(),
        "Malformed string at 9:1 to 10:1\n   | v -- here\n 9 | \"\n10 | x\n   |\n"
    );
    let src = format!("{}@", "\n".repeat(9));
    assert_eq!(
        transpile(&src).unwrap_err().message(),
        "Invalid character '@' at 10:1\n   | v -- here\n10 | @\n   |\n"
    );
}

#[test]
fn error_position_does_not_lie_after_the_faulty_character() {
    let cases = [
        ("div { p @ }", 8usize),
        ("div a=;", 6),
        ("div { = }", 6),
        ("p \"a\" <", 6),
        ("div }", 4),
    ];
    for (src, first_bad) in cases {
        let err = transpile(src).unwrap_err();
        assert!(err.display().position().idx <= first_bad, "{}", src);
    }
}

#[test]
fn the_same_tree_is_printed_the_same_way_twice() {
    let build = || {
        vec![Element::Tag(Tag {
            ty: "div".to_string(),
            attribs: vec![("id".to_string(), Some("'a'".to_string()))],
            body: vec![Element::Text("x".to_string()), Element::HTML("<br>".to_string())],
        })]
    };
    let first = nhtml::emitter::emit_html(build());
    let second = nhtml::emitter::emit_html(build());
    assert_eq!(first, second);
    assert_eq!(first, "<div id='a'>\n    x\n    <br>\n</div>\n");
}

#[test]
fn text_before_an_error_can_be_continued() {
    let cases = [
        ("div { p @ }", " ;}"),
        ("div a= @", " \"\";"),
        ("div { = }", " }"),
        ("div }", " ;"),
        ("a { b { c 'x", " ;}}"),
        ("div /* open", " */;"),
        ("div // open", " \n;"),
        ("div \\", " ;"),
        ("p; @", " "),
    ];
    for (src, rest) in cases {
        let err = transpile(src).unwrap_err();
        let cut = err.display().position().idx.min(src.chars().count());
        let prefix: String = src.chars().take(cut).collect();
        let mended = format!("{}{}", prefix, rest);
        assert!(transpile(&mended).is_ok(), "{:?} -> {:?}", src, mended);
    }
}
