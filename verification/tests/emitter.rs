use nhtml::emitter::emit_html;
use nhtml::parser::{Element, Tag};

fn tag(name: &str, body: Vec<Element>) -> Element {
    Element::Tag(Tag { ty: name.to_string(), attribs: vec![], body })
}

fn text(value: &str) -> Element {
    Element::Text(value.to_string())
}

fn nesting(elements: &[Element]) -> usize {
    elements
        .iter()
        .map(|element| match element {
            Element::Tag(tag) if !tag.body.is_empty() => 1 + nesting(&tag.body),
            _ => 0,
        })
        .max()
        .unwrap_or(0)
}

fn deepest_indent(html: &str) -> usize {
    html.lines()
        .map(|line| line.chars().take_while(|c| *c == ' ').count() / 4)
        .max()
        .unwrap_or(0)
}

#[test]
fn empty_tree_prints_nothing() {
    assert_eq!(emit_html(vec![]), "");
}

#[test]
fn text_and_raw_markup_are_lines_of_their_own() {
    assert_eq!(emit_html(vec![text("a"), Element::HTML("<b>".to_string())]), "a\n<b>\n");
}

#[test]
fn empty_tag_is_closed_on_the_same_line() {
    let script = Element::Tag(Tag {
        ty: "script".to_string(),
        attribs: vec![("src".to_string(), Some("\"index.js\"".to_string()))],
        body: vec![],
    });
    assert_eq!(emit_html(vec![script]), "<script src=\"index.js\"></script>\n");
}

#[test]
fn attributes_keep_their_order() {
    let input = Element::Tag(Tag {
        ty: "input".to_string(),
        attribs: vec![
            ("b".to_string(), Some("'2'".to_string())),
            ("disabled".to_string(), None),
            ("a".to_string(), Some("\"1\"".to_string())),
        ],
        body: vec![],
    });
    assert_eq!(emit_html(vec![input]), "<input b='2' disabled a=\"1\"></input>\n");
}

#[test]
fn void_tags_are_never_closed() {
    assert_eq!(emit_html(vec![tag("meta", vec![])]), "<meta>\n");
    assert_eq!(emit_html(vec![tag("link", vec![])]), "<link>\n");
    let html = emit_html(vec![tag("div", vec![tag("meta", vec![text("x")])])]);
    assert_eq!(html, "<div>\n    <meta>\n        x\n    </div>\n");
    assert!(!html.contains("</meta>"));
    let html = emit_html(vec![tag("link", vec![tag("p", vec![])])]);
    assert_eq!(html, "<link>\n    <p></p>\n");
    assert!(!html.contains("</link>"));
}

#[test]
fn names_close_to_the_void_names_are_closed() {
    assert_eq!(emit_html(vec![tag("metal", vec![])]), "<metal></metal>\n");
    assert_eq!(emit_html(vec![tag("Meta", vec![])]), "<Meta></Meta>\n");
    assert_eq!(emit_html(vec![tag("lin", vec![])]), "<lin></lin>\n");
}

#[test]
fn indentation_is_four_spaces_per_level() {
    let tree = vec![tag("a", vec![tag("b", vec![tag("c", vec![text("t")])])])];
    assert_eq!(
        emit_html(tree),
        "<a>\n    <b>\n        <c>\n            t\n        </c>\n    </b>\n</a>\n"
    );
}

#[test]
fn deepest_indentation_is_the_nesting_of_the_tree() {
    let trees = vec![
        vec![],
        vec![text("a")],
        vec![tag("a", vec![])],
        vec![tag("a", vec![text("x")]), tag("b", vec![tag("c", vec![text("y")])])],
        vec![tag("a", vec![tag("b", vec![]), tag("meta", vec![])]), text("z")],
        vec![tag("meta", vec![text("x")]), tag("p", vec![])],
        vec![tag("a", vec![text("   three spaces")])],
    ];
    let expected = [0usize, 0, 0, 2, 1, 1, 1];
    for (tree, depth) in trees.into_iter().zip(expected) {
        assert_eq!(nesting(&tree), depth);
        assert_eq!(deepest_indent(&emit_html(tree)), depth);
    }
}

#[test]
fn text_that_starts_with_four_spaces_looks_one_level_deeper() {
    let tree = vec![tag("p", vec![text("    x")])];
    assert_eq!(nesting(&tree), 1);
    assert_eq!(deepest_indent(&emit_html(tree)), 2);
}

#[test]
fn void_tag_with_children_indents_what_follows_it() {
    let tree = vec![tag(
        "a",
        vec![tag("b", vec![tag("c", vec![tag("meta", vec![text("x")])])])],
    )];
    assert_eq!(nesting(&tree), 4);
    let html = emit_html(tree);
    assert_eq!(
        html,
        "<a>\n    <b>\n        <c>\n            <meta>\n                x\n                    </c>\n    </b>\n</a>\n"
    );
    assert_eq!(deepest_indent(&html), 5);
}
