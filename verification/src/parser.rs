//! The parser: builds the element tree from the scanner's tokens.

use vstd::prelude::*;
use crate::emitter::render_attribute;
use crate::position::{lemma_span_steps, render, span_of, ErrorDisplay, ErrorSite, Span};
use crate::scanner::{
    fault_at, lemma_scan_progress, lemma_string_token_shape, scan_from, scan_message, token_at,
    LexFault, Lexed, ScanError, ScanErrorView, Scanner,
};
use crate::text::{decode, encode};
use crate::token::{Token, TokenType};

verus! {

/// The mathematical content of a [`Tag`].
pub struct TagView {
    pub name: Seq<char>,
    pub attributes: Seq<(Seq<char>, Option<Seq<char>>)>,
    pub children: Seq<Node>,
}

/// The mathematical content of an [`Element`]: a node of the element tree.
pub enum Node {
    Tag(TagView),
    Text(Seq<char>),
    Raw(Seq<char>),
}

/// A named element with its attributes, in the order written, and its children.
#[derive(Debug)]
pub struct Tag {
    pub ty: String,
    pub attribs: Vec<(String, Option<String>)>,
    pub body: Vec<Element>,
}

/// A node of the element tree.
#[derive(Debug)]
pub enum Element {
    /// A tag with its attributes and children.
    Tag(Tag),
    /// Literal text, without the delimiters it was written in.
    Text(String),
    /// Raw markup, kept as it was written.
    HTML(String),
}

/// The node that `element` stands for.
pub open spec fn node_of(element: Element) -> Node
    decreases element,
{
    match element {
        Element::Tag(tag) => Node::Tag(
            TagView {
                name: tag.ty@,
                attributes: tag.attribs.deep_view(),
                children: Seq::new(
                    tag.body@.len(),
                    |i: int|
                        if 0 <= i < tag.body@.len() {
                            node_of(tag.body@[i])
                        } else {
                            arbitrary()
                        },
                ),
            },
        ),
        Element::Text(text) => Node::Text(text@),
        Element::HTML(raw) => Node::Raw(raw@),
    }
}

impl DeepView for Element {
    type V = Node;

    open spec fn deep_view(&self) -> Node {
        node_of(*self)
    }
}

impl DeepView for Tag {
    type V = TagView;

    open spec fn deep_view(&self) -> TagView {
        TagView {
            name: self.ty@,
            attributes: self.attribs.deep_view(),
            children: self.body.deep_view(),
        }
    }
}

/// A tag element stands for the tag node of its tag.
pub proof fn lemma_node_of_tag(tag: Tag)
    ensures
        node_of(Element::Tag(tag)) == Node::Tag(tag.deep_view()),
{
    assert(node_of(Element::Tag(tag))->Tag_0.children =~= tag.body.deep_view());
}

/// What is wrong with the tokens at a syntax error.
pub enum SyntaxFault {
    UnexpectedToken(Seq<char>),
    ExpectedElement,
}

/// The mathematical content of a [`ParseError`].
pub struct ParseErrorView {
    pub fault: SyntaxFault,
    pub site: ErrorSite,
}

/// A syntax error, with the place it was found at.
#[derive(Debug)]
pub enum ParseError {
    /// Another token was needed than the one found; the text says which.
    UnexpectedToken(String, ErrorDisplay),
    /// An element was needed where none starts.
    ExpectedElement(ErrorDisplay),
}

impl View for ParseError {
    type V = ParseErrorView;

    open spec fn view(&self) -> ParseErrorView {
        match self {
            ParseError::UnexpectedToken(message, d) => ParseErrorView {
                fault: SyntaxFault::UnexpectedToken(message@),
                site: d@,
            },
            ParseError::ExpectedElement(d) => ParseErrorView {
                fault: SyntaxFault::ExpectedElement,
                site: d@,
            },
        }
    }
}

/// The mathematical content of a [`TranspileError`].
pub enum Failure {
    Scan(ScanErrorView),
    Parse(ParseErrorView),
}

/// Why a source text could not be transpiled.
#[derive(Debug)]
pub enum TranspileError {
    /// The text could not be cut into tokens.
    Scan(ScanError),
    /// The tokens do not form elements.
    Parse(ParseError),
}

impl View for TranspileError {
    type V = Failure;

    open spec fn view(&self) -> Failure {
        match self {
            TranspileError::Scan(e) => Failure::Scan(e@),
            TranspileError::Parse(e) => Failure::Parse(e@),
        }
    }
}

/// What a syntax error says: what is wrong, then the diagnostic for its place.
pub open spec fn parse_message(error: ParseErrorView) -> Seq<char> {
    (match error.fault {
        SyntaxFault::UnexpectedToken(message) => message + " at "@,
        SyntaxFault::ExpectedElement => "Expected element at "@,
    }) + render(error.site)
}

/// What a failure says.
pub open spec fn failure_message(failure: Failure) -> Seq<char> {
    match failure {
        Failure::Scan(error) => scan_message(error),
        Failure::Parse(error) => parse_message(error),
    }
}

impl ParseError {
    /// The place of the error.
    pub fn display(&self) -> (display: &ErrorDisplay)
        ensures
            display@ == self@.site,
    {
        match self {
            ParseError::UnexpectedToken(_, d) => d,
            ParseError::ExpectedElement(d) => d,
        }
    }

    /// The error as text.
    pub fn message(&self) -> (text: String)
        ensures
            text@ == parse_message(self@),
    {
        let mut text = match self {
            ParseError::UnexpectedToken(message, _) => {
                let mut head = message.clone();
                head.append(" at ");
                head
            },
            ParseError::ExpectedElement(_) => String::from_str("Expected element at "),
        };
        let place = self.display().render();
        text.append(place.as_str());
        text
    }
}

impl TranspileError {
    /// The place of the error.
    pub fn display(&self) -> (display: &ErrorDisplay)
        ensures
            display@ == (match self@ {
                Failure::Scan(error) => error.site,
                Failure::Parse(error) => error.site,
            }),
    {
        match self {
            TranspileError::Scan(e) => e.display(),
            TranspileError::Parse(e) => e.display(),
        }
    }

    /// The error as text.
    pub fn message(&self) -> (text: String)
        ensures
            text@ == failure_message(self@),
    {
        match self {
            TranspileError::Scan(e) => e.message(),
            TranspileError::Parse(e) => e.message(),
        }
    }
}

/// What parsing from a cursor gives: a value and the cursor after it, or the
/// failure that ends the pass.
pub enum Parsed<T> {
    Done { value: T, next: int },
    Failed(Failure),
}

/// `rest` with the items of `head` before its own.
pub open spec fn prepend<T>(head: Seq<T>, rest: Parsed<Seq<T>>) -> Parsed<Seq<T>> {
    match rest {
        Parsed::Done { value, next } => Parsed::Done { value: head + value, next },
        Parsed::Failed(failure) => Parsed::Failed(failure),
    }
}

/// The failure for the lexical error `fault` in `src[start..start + len]`.
pub open spec fn lexical(src: Seq<char>, fault: LexFault, start: int, len: int) -> Failure {
    Failure::Scan(fault_at(src, fault, start, len))
}

/// The place a syntax error points at when the cursor stands at `i`: the next
/// token, or the scanner's cursor where the text has ended.
pub open spec fn error_span(src: Seq<char>, i: int) -> Span {
    match scan_from(src, i) {
        Lexed::Token { ty, start, len } => span_of(src, start, len),
        Lexed::End { at } => span_of(src, at, 1),
        Lexed::Error { fault, start, len } => span_of(src, start, len),
    }
}

/// The failure for the syntax error `fault` found with the cursor at `i`.
pub open spec fn syntax(src: Seq<char>, fault: SyntaxFault, i: int) -> Failure {
    Failure::Parse(
        ParseErrorView { fault, site: ErrorSite { pos: error_span(src, i), source: src } },
    )
}

/// One attribute from cursor `i`: a name and, where `=` follows it, the
/// string after the `=`, delimiters included.
pub open spec fn attribute_at(src: Seq<char>, i: int) -> Parsed<(Seq<char>, Option<Seq<char>>)> {
    match scan_from(src, i) {
        Lexed::Error { fault, start, len } => Parsed::Failed(lexical(src, fault, start, len)),
        Lexed::End { at } => Parsed::Failed(
            syntax(src, SyntaxFault::UnexpectedToken("Expected attribute name"@), i),
        ),
        Lexed::Token { ty, start, len } => if ty != TokenType::Text {
            Parsed::Failed(syntax(src, SyntaxFault::UnexpectedToken("Expected attribute name"@), i))
        } else {
            let name = src.subrange(start, start + len);
            match scan_from(src, start + len) {
                Lexed::Error { fault, start, len } => Parsed::Failed(
                    lexical(src, fault, start, len),
                ),
                Lexed::End { at } => Parsed::Done { value: (name, None), next: start + len },
                Lexed::Token { ty: sign, start: sign_start, len: sign_len } => if sign
                    != TokenType::Equal {
                    Parsed::Done { value: (name, None), next: start + len }
                } else {
                    let after = sign_start + sign_len;
                    match scan_from(src, after) {
                        Lexed::Error { fault, start, len } => Parsed::Failed(
                            lexical(src, fault, start, len),
                        ),
                        Lexed::End { at } => Parsed::Failed(
                            syntax(
                                src,
                                SyntaxFault::UnexpectedToken("Expected string value"@),
                                after,
                            ),
                        ),
                        Lexed::Token { ty: kind, start: from, len: width } => if kind
                            == TokenType::String {
                            Parsed::Done {
                                value: (name, Some(src.subrange(from, from + width))),
                                next: from + width,
                            }
                        } else {
                            Parsed::Failed(
                                syntax(
                                    src,
                                    SyntaxFault::UnexpectedToken("Expected string value"@),
                                    after,
                                ),
                            )
                        },
                    }
                },
            }
        },
    }
}

/// What the scanner finds where the value of the attribute at cursor `i`
/// stands: after the name and the token that follows the name.
pub open spec fn attribute_value_token(src: Seq<char>, i: int) -> Lexed {
    match scan_from(src, i) {
        Lexed::Token { ty, start, len } => match scan_from(src, start + len) {
            Lexed::Token { ty: sign, start: sign_start, len: sign_len } => scan_from(
                src,
                sign_start + sign_len,
            ),
            other => other,
        },
        other => other,
    }
}

/// The value of an attribute is the lexeme of its string token, character
/// for character: it starts and ends with the quote it was written in, and it
/// is printed after the name and `=` as it stands.
pub proof fn lemma_attribute_value_is_printed_as_written(src: Seq<char>, i: int)
    requires
        attribute_at(src, i) matches Parsed::Done { value, .. } && value.1 is Some,
    ensures
        ({
            let attribute = attribute_at(src, i)->value;
            let value = attribute.1->Some_0;
            &&& attribute_value_token(src, i) matches Lexed::Token { ty, start, len }
            &&& ty == TokenType::String
            &&& value == token_at(src, ty, start, len).lexeme
            &&& value.len() == len
            &&& len >= 2
            &&& value[0] == '"' || value[0] == '\''
            &&& value[len - 1] == value[0]
            &&& render_attribute(attribute) == seq![' '] + attribute.0 + seq!['='] + src.subrange(
                start,
                start + len,
            )
        }),
{
    lemma_scan_progress(src, i);
    if let Lexed::Token { ty, start, len } = scan_from(src, i) {
        lemma_scan_progress(src, start + len);
        if let Lexed::Token { ty: sign, start: sign_start, len: sign_len } = scan_from(
            src,
            start + len,
        ) {
            let after = sign_start + sign_len;
            lemma_scan_progress(src, after);
            if let Lexed::Token { ty: kind, start: from, len: width } = scan_from(src, after) {
                assert(scan_from(src, from) == scan_from(src, after));
                lemma_string_token_shape(src, from);
                let value = src.subrange(from, from + width);
                assert(value[0] == src[from]);
                assert(value[width - 1] == src[from + width - 1]);
                assert(render_attribute(attribute_at(src, i)->value) =~= seq![' ']
                    + src.subrange(start, start + len) + seq!['='] + value);
            }
        }
    }
}

/// Whether the next token from cursor `i` is of kind `ty`.
pub open spec fn next_is(src: Seq<char>, i: int, ty: TokenType) -> bool {
    scan_from(src, i) matches Lexed::Token { ty: found, .. } && found == ty
}

/// An attribute ends after the cursor it started at, within the text.
pub proof fn lemma_attribute_progress(src: Seq<char>, i: int)
    ensures
        attribute_at(src, i) matches Parsed::Done { next, .. } ==> i < next <= src.len() && 0
            < next,
{
    lemma_scan_progress(src, i);
    if let Lexed::Token { ty, start, len } = scan_from(src, i) {
        lemma_scan_progress(src, start + len);
        if let Lexed::Token { ty: sign, start: sign_start, len: sign_len } = scan_from(
            src,
            start + len,
        ) {
            lemma_scan_progress(src, sign_start + sign_len);
        }
    }
}

/// The attributes from cursor `i`: one for as long as the next token is a name.
pub open spec fn attributes_at(src: Seq<char>, i: int) -> Parsed<
    Seq<(Seq<char>, Option<Seq<char>>)>,
>
    decreases src.len() + 2 - i,
    via attributes_at_decreases
{
    match scan_from(src, i) {
        Lexed::Error { fault, start, len } => Parsed::Failed(lexical(src, fault, start, len)),
        Lexed::End { at } => Parsed::Done { value: Seq::empty(), next: i },
        Lexed::Token { ty, start, len } => if ty != TokenType::Text {
            Parsed::Done { value: Seq::empty(), next: i }
        } else {
            match attribute_at(src, i) {
                Parsed::Failed(failure) => Parsed::Failed(failure),
                Parsed::Done { value, next } => prepend(seq![value], attributes_at(src, next)),
            }
        },
    }
}

#[via_fn]
proof fn attributes_at_decreases(src: Seq<char>, i: int) {
    lemma_attribute_progress(src, i);
    lemma_scan_progress(src, i);
}

/// The attributes end at or after the cursor they started at, within the text or at that cursor.
pub proof fn lemma_attributes_progress(src: Seq<char>, i: int)
    ensures
        attributes_at(src, i) matches Parsed::Done { next, .. } ==> i <= next && (next == i || (0
            < next <= src.len())),
    decreases src.len() + 2 - i,
{
    lemma_attribute_progress(src, i);
    lemma_scan_progress(src, i);
    if let Lexed::Token { ty, start, len } = scan_from(src, i) {
        if ty == TokenType::Text {
            if let Parsed::Done { value, next } = attribute_at(src, i) {
                lemma_attributes_progress(src, next);
            }
        }
    }
}

/// The element that starts at cursor `i`, or `None` where the next token
/// starts none: a tag where it is a name, text where it is a string (without
/// its two delimiters), raw markup where it is a raw block.
pub open spec fn element_at(src: Seq<char>, i: int) -> Parsed<Option<Node>>
    decreases src.len() + 2 - i, 2nat,
{
    match scan_from(src, i) {
        Lexed::Error { fault, start, len } => Parsed::Failed(lexical(src, fault, start, len)),
        Lexed::End { at } => Parsed::Done { value: None, next: i },
        Lexed::Token { ty, start, len } => if ty == TokenType::Text {
            match tag_at(src, i) {
                Parsed::Failed(failure) => Parsed::Failed(failure),
                Parsed::Done { value, next } => Parsed::Done {
                    value: Some(Node::Tag(value)),
                    next,
                },
            }
        } else if ty == TokenType::String {
            Parsed::Done {
                value: Some(Node::Text(src.subrange(start + 1, start + len - 1))),
                next: start + len,
            }
        } else if ty == TokenType::Html {
            Parsed::Done {
                value: Some(Node::Raw(src.subrange(start, start + len))),
                next: start + len,
            }
        } else {
            Parsed::Done { value: None, next: i }
        },
    }
}

/// The tag that starts at cursor `i`: its name, its attributes and its body.
pub open spec fn tag_at(src: Seq<char>, i: int) -> Parsed<TagView>
    decreases src.len() + 2 - i, 1nat,
    via tag_at_decreases
{
    match scan_from(src, i) {
        Lexed::Error { fault, start, len } => Parsed::Failed(lexical(src, fault, start, len)),
        Lexed::End { at } => Parsed::Failed(
            syntax(src, SyntaxFault::UnexpectedToken("expected element name"@), i),
        ),
        Lexed::Token { ty, start, len } => if ty != TokenType::Text {
            Parsed::Failed(syntax(src, SyntaxFault::UnexpectedToken("expected element name"@), i))
        } else {
            match attributes_at(src, start + len) {
                Parsed::Failed(failure) => Parsed::Failed(failure),
                Parsed::Done { value: attributes, next: after } => match body_at(src, after) {
                    Parsed::Failed(failure) => Parsed::Failed(failure),
                    Parsed::Done { value: children, next } => Parsed::Done {
                        value: TagView {
                            name: src.subrange(start, start + len),
                            attributes,
                            children,
                        },
                        next,
                    },
                },
            }
        },
    }
}

#[via_fn]
proof fn tag_at_decreases(src: Seq<char>, i: int) {
    lemma_scan_progress(src, i);
    if let Lexed::Token { ty, start, len } = scan_from(src, i) {
        lemma_attributes_progress(src, start + len);
    }
}

/// The body of a tag from cursor `i`: nothing where `;` stands, the elements
/// up to the closing `}` where `{` stands, else one element and the `;` after
/// it where there is one.
pub open spec fn body_at(src: Seq<char>, i: int) -> Parsed<Seq<Node>>
    decreases src.len() + 2 - i, 3nat,
    via body_at_decreases
{
    match scan_from(src, i) {
        Lexed::Error { fault, start, len } => Parsed::Failed(lexical(src, fault, start, len)),
        Lexed::End { at } => Parsed::Failed(syntax(src, SyntaxFault::ExpectedElement, i)),
        Lexed::Token { ty, start, len } => if ty == TokenType::Semicolon {
            Parsed::Done { value: Seq::empty(), next: start + len }
        } else if ty == TokenType::LeftBrace {
            braces_at(src, start + len)
        } else {
            match element_at(src, i) {
                Parsed::Failed(failure) => Parsed::Failed(failure),
                Parsed::Done { value: None, next } => Parsed::Failed(
                    syntax(src, SyntaxFault::ExpectedElement, i),
                ),
                Parsed::Done { value: Some(node), next } => match scan_from(src, next) {
                    Lexed::Error { fault, start, len } => Parsed::Failed(
                        lexical(src, fault, start, len),
                    ),
                    Lexed::End { at } => Parsed::Done { value: seq![node], next },
                    Lexed::Token { ty: end, start: end_start, len: end_len } => if end
                        == TokenType::Semicolon {
                        Parsed::Done { value: seq![node], next: end_start + end_len }
                    } else {
                        Parsed::Done { value: seq![node], next }
                    },
                },
            }
        },
    }
}

#[via_fn]
proof fn body_at_decreases(src: Seq<char>, i: int) {
    lemma_scan_progress(src, i);
}

/// The elements from cursor `i` up to the `}` that closes the body they stand
/// in. Where another token than `}` starts no element, the body is faulty. An
/// element ends after the cursor it started at; the last branch is never taken.
pub open spec fn braces_at(src: Seq<char>, i: int) -> Parsed<Seq<Node>>
    decreases src.len() + 2 - i, 4nat,
{
    match scan_from(src, i) {
        Lexed::Error { fault, start, len } => Parsed::Failed(lexical(src, fault, start, len)),
        Lexed::End { at } => Parsed::Failed(syntax(src, SyntaxFault::ExpectedElement, i)),
        Lexed::Token { ty, start, len } => if ty == TokenType::RightBrace {
            Parsed::Done { value: Seq::empty(), next: start + len }
        } else {
            match element_at(src, i) {
                Parsed::Failed(failure) => Parsed::Failed(failure),
                Parsed::Done { value: None, next } => Parsed::Failed(
                    syntax(src, SyntaxFault::ExpectedElement, i),
                ),
                Parsed::Done { value: Some(node), next } => if i < next <= src.len() {
                    prepend(seq![node], braces_at(src, next))
                } else {
                    Parsed::Failed(syntax(src, SyntaxFault::ExpectedElement, i))
                },
            }
        },
    }
}

/// An element ends after the cursor it started at, within the text; where
/// none starts, the cursor stays.
pub proof fn lemma_element_progress(src: Seq<char>, i: int)
    ensures
        element_at(src, i) matches Parsed::Done { value, next } ==> (if value is Some {
            i < next <= src.len() && 0 < next
        } else {
            next == i
        }),
    decreases src.len() + 2 - i, 2nat,
{
    lemma_scan_progress(src, i);
    if let Lexed::Token { ty, start, len } = scan_from(src, i) {
        if ty == TokenType::Text {
            lemma_tag_progress(src, i);
        }
    }
}

/// A tag ends after the cursor it started at, within the text.
pub proof fn lemma_tag_progress(src: Seq<char>, i: int)
    ensures
        tag_at(src, i) matches Parsed::Done { next, .. } ==> i < next <= src.len() && 0 < next,
    decreases src.len() + 2 - i, 1nat,
{
    lemma_scan_progress(src, i);
    if let Lexed::Token { ty, start, len } = scan_from(src, i) {
        if ty == TokenType::Text {
            lemma_attributes_progress(src, start + len);
            if let Parsed::Done { value, next } = attributes_at(src, start + len) {
                lemma_body_progress(src, next);
            }
        }
    }
}

/// A body ends after the cursor it started at, within the text.
pub proof fn lemma_body_progress(src: Seq<char>, i: int)
    ensures
        body_at(src, i) matches Parsed::Done { next, .. } ==> i < next <= src.len() && 0 < next,
    decreases src.len() + 2 - i, 3nat,
{
    lemma_scan_progress(src, i);
    if let Lexed::Token { ty, start, len } = scan_from(src, i) {
        if ty == TokenType::Semicolon {
        } else if ty == TokenType::LeftBrace {
            lemma_braces_progress(src, start + len);
        } else {
            lemma_element_progress(src, i);
            if let Parsed::Done { value: Some(node), next } = element_at(src, i) {
                lemma_scan_progress(src, next);
            }
        }
    }
}

/// A braced body ends after the cursor it started at, within the text.
pub proof fn lemma_braces_progress(src: Seq<char>, i: int)
    ensures
        braces_at(src, i) matches Parsed::Done { next, .. } ==> i < next <= src.len() && 0 < next,
    decreases src.len() + 2 - i, 4nat,
{
    lemma_scan_progress(src, i);
    if let Lexed::Token { ty, start, len } = scan_from(src, i) {
        if ty != TokenType::RightBrace {
            lemma_element_progress(src, i);
            if let Parsed::Done { value: Some(node), next } = element_at(src, i) {
                lemma_braces_progress(src, next);
            }
        }
    }
}

/// The elements from cursor `i`, up to the first token that starts none.
pub open spec fn elements_at(src: Seq<char>, i: int) -> Parsed<Seq<Node>>
    decreases src.len() + 2 - i,
    via elements_at_decreases
{
    match element_at(src, i) {
        Parsed::Failed(failure) => Parsed::Failed(failure),
        Parsed::Done { value: None, next } => Parsed::Done { value: Seq::empty(), next },
        Parsed::Done { value: Some(node), next } => prepend(seq![node], elements_at(src, next)),
    }
}

#[via_fn]
proof fn elements_at_decreases(src: Seq<char>, i: int) {
    lemma_element_progress(src, i);
}

/// Whether `res` and the cursor `cursor` are what `expected` asks for.
pub open spec fn yields<T: DeepView>(
    res: Result<T, TranspileError>,
    cursor: int,
    expected: Parsed<T::V>,
) -> bool {
    match expected {
        Parsed::Done { value, next } => {
            &&& res matches Ok(v)
            &&& v.deep_view() == value
            &&& cursor == next
        },
        Parsed::Failed(failure) => {
            &&& res matches Err(e)
            &&& e@ == failure
        },
    }
}

/// A recursive-descent parser over a scanner, with one token of lookahead.
pub struct Parser<'a> {
    scanner: Scanner<'a>,
    unused: Option<Token>,
    at: Ghost<int>,
}

impl<'a> Parser<'a> {
    /// The text being parsed.
    pub closed spec fn source(&self) -> Seq<char> {
        self.scanner.source()
    }

    /// The cursor: the index that the next token is looked for from.
    pub closed spec fn cursor(&self) -> int {
        self.at@
    }

    /// The token held back, if any, is the one that the cursor looks at, and
    /// the scanner stands right after it; else the scanner looks at what the
    /// cursor looks at.
    pub closed spec fn wf(&self) -> bool {
        &&& self.scanner.wf()
        &&& 0 <= self.at@ <= self.scanner.cursor()
        &&& match self.unused {
            Some(t) => {
                &&& scan_from(self.scanner.source(), self.at@) == (Lexed::Token {
                    ty: t.ty,
                    start: t.pos.idx as int,
                    len: t.pos.len as int,
                })
                &&& t@ == token_at(
                    self.scanner.source(),
                    t.ty,
                    t.pos.idx as int,
                    t.pos.len as int,
                )
                &&& self.scanner.cursor() == t.pos.idx + t.pos.len
            },
            None => scan_from(self.scanner.source(), self.at@) == scan_from(
                self.scanner.source(),
                self.scanner.cursor(),
            ),
        }
    }

    /// The cursor of a well-formed parser stands in the text or at most one past its end.
    pub proof fn lemma_cursor_bounds(&self)
        requires
            self.wf(),
        ensures
            0 <= self.cursor() <= self.source().len() + 1,
    {
        self.scanner.lemma_cursor_bounds();
    }

    /// A parser that reads from `scanner`.
    pub fn new(scanner: Scanner<'a>) -> (parser: Self)
        requires
            scanner.wf(),
        ensures
            parser.wf(),
            parser.source() == scanner.source(),
            parser.cursor() == scanner.cursor(),
    {
        proof {
            scanner.lemma_cursor_bounds();
        }
        Parser { scanner, unused: None, at: Ghost(scanner.cursor()) }
    }

    /// All the elements from where `scanner` stands.
    #[verifier::loop_isolation(false)]
    pub fn parse(scanner: Scanner<'a>) -> (res: Result<Vec<Element>, TranspileError>)
        requires
            scanner.wf(),
        ensures
            match elements_at(scanner.source(), scanner.cursor()) {
                Parsed::Done { value, next } => res matches Ok(elements) && elements.deep_view()
                    == value,
                Parsed::Failed(failure) => res matches Err(e) && e@ == failure,
            },
    {
        let ghost src = scanner.source();
        let ghost first = scanner.cursor();
        let mut parser = Parser::new(scanner);
        let mut tags: Vec<Element> = Vec::new();
        assert(tags.deep_view() =~= Seq::<Node>::empty());
        loop
            invariant
                parser.wf(),
                parser.source() == src,
                elements_at(src, first) == prepend(
                    tags.deep_view(),
                    elements_at(src, parser.cursor()),
                ),
            decreases src.len() + 2 - parser.cursor(),
        {
            proof {
                parser.lemma_cursor_bounds();
                lemma_element_progress(src, parser.cursor());
            }
            let ghost before = tags.deep_view();
            let ghost here = parser.cursor();
            match parser.parse_element() {
                Err(e) => {
                    return Err(e);
                },
                Ok(None) => {
                    assert(before + Seq::<Node>::empty() =~= before);
                    return Ok(tags);
                },
                Ok(Some(tag)) => {
                    tags.push(tag);
                    proof {
                        assert(tags.deep_view() =~= before.push(tag.deep_view()));
                        lemma_prepend_twice(
                            before,
                            tag.deep_view(),
                            elements_at(src, parser.cursor()),
                        );
                    }
                },
            }
        }
    }

    /// The element that starts at the cursor, or `None` where the next token starts none.
    pub fn parse_element(&mut self) -> (res: Result<Option<Element>, TranspileError>)
        requires
            old(self).wf(),
        ensures
            final(self).wf(),
            final(self).source() == old(self).source(),
            yields(res, final(self).cursor(), element_at(old(self).source(), old(self).cursor())),
        decreases old(self).source().len() + 2 - old(self).cursor(), 2nat,
    {
        let ghost src = self.source();
        let ghost i = self.cursor();
        proof {
            lemma_scan_progress(src, i);
        }
        let next = match self.peek() {
            Err(e) => {
                return Err(TranspileError::Scan(e));
            },
            Ok(next) => next,
        };
        match next {
            Some(TokenType::Text) => match self.parse_tag() {
                Err(e) => Err(e),
                Ok(tag) => {
                    proof {
                        lemma_node_of_tag(tag);
                    }
                    Ok(Some(Element::Tag(tag)))
                },
            },
            Some(TokenType::String) => match self.take() {
                Err(e) => Err(TranspileError::Scan(e)),
                Ok(None) => Ok(None),
                Ok(Some(string)) => {
                    let chars = decode(string.lexeme.as_str());
                    let n = chars.len();
                    let value = encode(&chars, 1, n - 1);
                    proof {
                        let start = string.pos.idx as int;
                        let len = string.pos.len as int;
                        assert(value@ =~= src.subrange(start + 1, start + len - 1));
                    }
                    Ok(Some(Element::Text(value)))
                },
            },
            Some(TokenType::Html) => match self.take() {
                Err(e) => Err(TranspileError::Scan(e)),
                Ok(None) => Ok(None),
                Ok(Some(html)) => Ok(Some(Element::HTML(html.lexeme))),
            },
            _ => Ok(None),
        }
    }

    /// The tag whose name is the next token: the name, then an attribute for
    /// as long as a name follows, then the body.
    #[verifier::loop_isolation(false)]
    fn parse_tag(&mut self) -> (res: Result<Tag, TranspileError>)
        requires
            old(self).wf(),
        ensures
            final(self).wf(),
            final(self).source() == old(self).source(),
            yields(res, final(self).cursor(), tag_at(old(self).source(), old(self).cursor())),
        decreases old(self).source().len() + 2 - old(self).cursor(), 1nat,
    {
        let ghost src = self.source();
        let ghost i = self.cursor();
        proof {
            lemma_scan_progress(src, i);
        }
        let ty = match self.expect(TokenType::Text, "expected element name") {
            Err(e) => {
                return Err(e);
            },
            Ok(ty) => ty,
        };
        let ghost first = self.cursor();
        let mut attribs: Vec<(String, Option<String>)> = Vec::new();
        assert(attribs.deep_view() =~= Seq::empty());
        loop
            invariant
                self.wf(),
                self.source() == src,
                first <= self.cursor(),
                attributes_at(src, first) == prepend(
                    attribs.deep_view(),
                    attributes_at(src, self.cursor()),
                ),
            decreases src.len() + 2 - self.cursor(),
        {
            proof {
                self.lemma_cursor_bounds();
                lemma_attribute_progress(src, self.cursor());
            }
            let ghost before = attribs.deep_view();
            match self.is_next(TokenType::Text) {
                Err(e) => {
                    return Err(TranspileError::Scan(e));
                },
                Ok(false) => {
                    assert(before + Seq::empty() =~= before);
                    break ;
                },
                Ok(true) => {},
            }
            match self.parse_attrib() {
                Err(e) => {
                    return Err(e);
                },
                Ok(attrib) => {
                    attribs.push(attrib);
                    proof {
                        assert(attribs.deep_view() =~= before.push(attrib.deep_view()));
                        lemma_prepend_twice(
                            before,
                            attrib.deep_view(),
                            attributes_at(src, self.cursor()),
                        );
                    }
                },
            }
        }
        proof {
            lemma_attributes_progress(src, first);
        }
        match self.parse_body() {
            Err(e) => Err(e),
            Ok(body) => Ok(Tag { ty: ty.lexeme, attribs, body }),
        }
    }

    /// One attribute: a name and, where `=` follows it, the string after the `=`.
    fn parse_attrib(&mut self) -> (res: Result<(String, Option<String>), TranspileError>)
        requires
            old(self).wf(),
        ensures
            final(self).wf(),
            final(self).source() == old(self).source(),
            yields(res, final(self).cursor(), attribute_at(old(self).source(), old(self).cursor())),
    {
        let id = match self.expect(TokenType::Text, "Expected attribute name") {
            Err(e) => {
                return Err(e);
            },
            Ok(id) => id,
        };
        match self.is_next(TokenType::Equal) {
            Err(e) => Err(TranspileError::Scan(e)),
            Ok(false) => Ok((id.lexeme, None)),
            Ok(true) => {
                match self.take() {
                    Err(e) => {
                        return Err(TranspileError::Scan(e));
                    },
                    Ok(_) => {},
                }
                match self.expect(TokenType::String, "Expected string value") {
                    Err(e) => Err(e),
                    Ok(value) => Ok((id.lexeme, Some(value.lexeme))),
                }
            },
        }
    }

    /// The body of a tag: nothing after `;`, the elements between `{` and
    /// `}`, or one element and the `;` after it where there is one.
    #[verifier::loop_isolation(false)]
    fn parse_body(&mut self) -> (res: Result<Vec<Element>, TranspileError>)
        requires
            old(self).wf(),
        ensures
            final(self).wf(),
            final(self).source() == old(self).source(),
            yields(res, final(self).cursor(), body_at(old(self).source(), old(self).cursor())),
        decreases old(self).source().len() + 2 - old(self).cursor(), 3nat,
    {
        let ghost src = self.source();
        let ghost i = self.cursor();
        proof {
            lemma_scan_progress(src, i);
            self.lemma_cursor_bounds();
        }
        let next = match self.peek() {
            Err(e) => {
                return Err(TranspileError::Scan(e));
            },
            Ok(next) => next,
        };
        let mut body: Vec<Element> = Vec::new();
        assert(body.deep_view() =~= Seq::<Node>::empty());
        match next {
            Some(TokenType::Semicolon) => {
                match self.take() {
                    Err(e) => Err(TranspileError::Scan(e)),
                    Ok(_) => Ok(body),
                }
            },
            Some(TokenType::LeftBrace) => {
                match self.take() {
                    Err(e) => {
                        return Err(TranspileError::Scan(e));
                    },
                    Ok(_) => {},
                }
                let ghost first = self.cursor();
                loop
                    invariant
                        self.wf(),
                        self.source() == src,
                        i < self.cursor(),
                        braces_at(src, first) == prepend(
                            body.deep_view(),
                            braces_at(src, self.cursor()),
                        ),
                    decreases src.len() + 2 - self.cursor(),
                {
                    proof {
                        self.lemma_cursor_bounds();
                        lemma_element_progress(src, self.cursor());
                        lemma_scan_progress(src, self.cursor());
                    }
                    let ghost before = body.deep_view();
                    match self.is_next(TokenType::RightBrace) {
                        Err(e) => {
                            return Err(TranspileError::Scan(e));
                        },
                        Ok(true) => {
                            assert(before + Seq::<Node>::empty() =~= before);
                            return match self.take() {
                                Err(e) => Err(TranspileError::Scan(e)),
                                Ok(_) => Ok(body),
                            };
                        },
                        Ok(false) => {},
                    }
                    match self.parse_element() {
                        Err(e) => {
                            return Err(e);
                        },
                        Ok(None) => {
                            return match self.error_pos() {
                                Err(e) => Err(TranspileError::Scan(e)),
                                Ok(display) => Err(
                                    TranspileError::Parse(ParseError::ExpectedElement(display)),
                                ),
                            };
                        },
                        Ok(Some(tag)) => {
                            body.push(tag);
                            proof {
                                assert(body.deep_view() =~= before.push(tag.deep_view()));
                                lemma_prepend_twice(
                                    before,
                                    tag.deep_view(),
                                    braces_at(src, self.cursor()),
                                );
                            }
                        },
                    }
                }
            },
            _ => {
                proof {
                    lemma_element_progress(src, i);
                }
                match self.parse_element() {
                    Err(e) => Err(e),
                    Ok(None) => match self.error_pos() {
                        Err(e) => Err(TranspileError::Scan(e)),
                        Ok(display) => Err(
                            TranspileError::Parse(ParseError::ExpectedElement(display)),
                        ),
                    },
                    Ok(Some(element)) => {
                        body.push(element);
                        assert(body.deep_view() =~= seq![element.deep_view()]);
                        match self.is_next(TokenType::Semicolon) {
                            Err(e) => Err(TranspileError::Scan(e)),
                            Ok(false) => Ok(body),
                            Ok(true) => match self.take() {
                                Err(e) => Err(TranspileError::Scan(e)),
                                Ok(_) => Ok(body),
                            },
                        }
                    },
                }
            },
        }
    }

    /// Whether the next token is of kind `ty`. The token stays where it is.
    fn is_next(&mut self, ty: TokenType) -> (res: Result<bool, ScanError>)
        requires
            old(self).wf(),
        ensures
            final(self).wf(),
            final(self).source() == old(self).source(),
            final(self).cursor() == old(self).cursor(),
            match scan_from(old(self).source(), old(self).cursor()) {
                Lexed::Error { fault, start, len } => res matches Err(e) && e@ == fault_at(
                    old(self).source(),
                    fault,
                    start,
                    len,
                ),
                _ => res matches Ok(found) && found == next_is(
                    old(self).source(),
                    old(self).cursor(),
                    ty,
                ),
            },
    {
        match self.peek() {
            Err(e) => Err(e),
            Ok(Some(found)) => Ok(found == ty),
            Ok(None) => Ok(false),
        }
    }

    /// Takes the next token, which must be of kind `expected`.
    fn expect(&mut self, expected: TokenType, msg: &str) -> (res: Result<Token, TranspileError>)
        requires
            old(self).wf(),
        ensures
            final(self).wf(),
            final(self).source() == old(self).source(),
            match scan_from(old(self).source(), old(self).cursor()) {
                Lexed::Error { fault, start, len } => res matches Err(e) && e@ == lexical(
                    old(self).source(),
                    fault,
                    start,
                    len,
                ),
                Lexed::Token { ty, start, len } if ty == expected => {
                    &&& res matches Ok(t)
                    &&& t@ == token_at(old(self).source(), ty, start, len)
                    &&& final(self).cursor() == start + len
                },
                _ => res matches Err(e) && e@ == syntax(
                    old(self).source(),
                    SyntaxFault::UnexpectedToken(msg@),
                    old(self).cursor(),
                ),
            },
    {
        match self.is_next(expected) {
            Err(e) => Err(TranspileError::Scan(e)),
            Ok(true) => match self.take() {
                Err(e) => Err(TranspileError::Scan(e)),
                Ok(Some(t)) => Ok(t),
                Ok(None) => match self.error_pos() {
                    Err(e) => Err(TranspileError::Scan(e)),
                    Ok(display) => Err(
                        TranspileError::Parse(
                            ParseError::UnexpectedToken(String::from_str(msg), display),
                        ),
                    ),
                },
            },
            Ok(false) => match self.error_pos() {
                Err(e) => Err(TranspileError::Scan(e)),
                Ok(display) => Err(
                    TranspileError::Parse(
                        ParseError::UnexpectedToken(String::from_str(msg), display),
                    ),
                ),
            },
        }
    }

    /// The place of the next token, which is taken, or of the scanner's cursor
    /// where the text has ended.
    fn error_pos(&mut self) -> (res: Result<ErrorDisplay, ScanError>)
        requires
            old(self).wf(),
        ensures
            final(self).wf(),
            final(self).source() == old(self).source(),
            match scan_from(old(self).source(), old(self).cursor()) {
                Lexed::Error { fault, start, len } => res matches Err(e) && e@ == fault_at(
                    old(self).source(),
                    fault,
                    start,
                    len,
                ),
                _ => res matches Ok(display) && display@ == (ErrorSite {
                    pos: error_span(old(self).source(), old(self).cursor()),
                    source: old(self).source(),
                }),
            },
    {
        proof {
            lemma_scan_progress(self.source(), self.cursor());
        }
        let pos = match self.take() {
            Err(e) => {
                return Err(e);
            },
            Ok(Some(t)) => {
                proof {
                    lemma_span_steps(self.source(), t.pos.idx as int, t.pos.len as int);
                }
                t.pos
            },
            Ok(None) => self.scanner.pos(),
        };
        Ok(self.scanner.pos_error(&pos))
    }

    /// Takes the next token out of the stream.
    fn take(&mut self) -> (res: Result<Option<Token>, ScanError>)
        requires
            old(self).wf(),
        ensures
            final(self).wf(),
            final(self).source() == old(self).source(),
            match scan_from(old(self).source(), old(self).cursor()) {
                Lexed::Error { fault, start, len } => res matches Err(e) && e@ == fault_at(
                    old(self).source(),
                    fault,
                    start,
                    len,
                ),
                Lexed::Token { ty, start, len } => {
                    &&& res matches Ok(Some(t))
                    &&& t@ == token_at(old(self).source(), ty, start, len)
                    &&& final(self).cursor() == start + len
                },
                Lexed::End { at } => {
                    &&& res matches Ok(None)
                    &&& final(self).cursor() == old(self).cursor()
                    &&& final(self).scanner.cursor() == at
                },
            },
    {
        proof {
            self.scanner.lemma_cursor_bounds();
            lemma_scan_progress(self.scanner.source(), self.scanner.cursor());
            lemma_scan_progress(self.scanner.source(), self.at@);
        }
        match self.unused.take() {
            Some(t) => {
                self.at = Ghost(t.pos.idx + t.pos.len);
                return Ok(Some(t));
            },
            None => {},
        }
        match self.scanner.scan() {
            Err(e) => Err(e),
            Ok(None) => Ok(None),
            Ok(Some(tok)) => {
                self.at = Ghost(tok.pos.idx + tok.pos.len);
                Ok(Some(tok))
            },
        }
    }

    /// The kind of the next token, which stays in the stream; `None` at the end of the text.
    fn peek(&mut self) -> (res: Result<Option<TokenType>, ScanError>)
        requires
            old(self).wf(),
        ensures
            final(self).wf(),
            final(self).source() == old(self).source(),
            final(self).cursor() == old(self).cursor(),
            match scan_from(old(self).source(), old(self).cursor()) {
                Lexed::Error { fault, start, len } => res matches Err(e) && e@ == fault_at(
                    old(self).source(),
                    fault,
                    start,
                    len,
                ),
                Lexed::Token { ty, start, len } => res == Ok::<Option<TokenType>, ScanError>(
                    Some(ty),
                ),
                Lexed::End { at } => res == Ok::<Option<TokenType>, ScanError>(None),
            },
    {
        proof {
            self.scanner.lemma_cursor_bounds();
            lemma_scan_progress(self.scanner.source(), self.scanner.cursor());
        }
        if self.unused.is_none() {
            match self.scanner.scan() {
                Err(e) => {
                    return Err(e);
                },
                Ok(None) => {
                    return Ok(None);
                },
                Ok(Some(tok)) => {
                    self.unused = Some(tok);
                },
            }
        }
        match &self.unused {
            Some(t) => Ok(Some(t.ty)),
            None => Ok(None),
        }
    }
}

/// Putting one more item before `rest` after `head` is putting `head` with that item before it.
pub proof fn lemma_prepend_twice<T>(head: Seq<T>, item: T, rest: Parsed<Seq<T>>)
    ensures
        prepend(head, prepend(seq![item], rest)) == prepend(head.push(item), rest),
{
    if let Parsed::Done { value, next } = rest {
        assert(head + (seq![item] + value) =~= head.push(item) + value);
    }
}

} // verus!
