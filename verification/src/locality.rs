//! Where errors are reported: the text before the reported place is never
//! the problem. It can always be continued to a text that parses.

use vstd::prelude::*;
use crate::parser::{
    attribute_at, attributes_at, body_at, braces_at, element_at, elements_at, lemma_attribute_progress,
    lemma_attributes_progress, lemma_body_progress, lemma_braces_progress, lemma_element_progress,
    next_is, prepend, tag_at, Failure, Node, Parsed,
};
use crate::scanner::{
    block_comment_end, close_from, is_blank, is_letter, is_letter_or_digit,
    lemma_block_comment_end_bounds, lemma_close_from_bounds, lemma_run_end_bounds,
    lemma_scan_progress, line_comment_end, run_end, scan_from, spells_css, spells_js, Lexed,
};
use crate::source::{lemma_line_end_bounds, line_end};
use crate::token::TokenType;

verus! {

/// Whether `b` holds the first `m` characters of `a` and a space after them.
pub open spec fn agree(a: Seq<char>, b: Seq<char>, m: int) -> bool {
    &&& 0 <= m <= a.len()
    &&& m < b.len()
    &&& b[m] == ' '
    &&& forall|j: int| 0 <= j < m ==> a[j] == #[trigger] b[j]
}

/// The shared part holds the same text in both.
pub proof fn lemma_same_text(a: Seq<char>, b: Seq<char>, m: int, from: int, to: int)
    requires
        agree(a, b, m),
        0 <= from <= to <= m,
    ensures
        a.subrange(from, to) == b.subrange(from, to),
{
    assert(a.subrange(from, to) =~= b.subrange(from, to));
}

/// Whether `b` holds `piece` from index `p` on.
pub open spec fn has_at(b: Seq<char>, p: int, piece: Seq<char>) -> bool {
    &&& 0 <= p
    &&& p + piece.len() <= b.len()
    &&& forall|j: int| 0 <= j < piece.len() ==> b[p + j] == piece[j]
}

/// Where the scanner stops: at the start of the token or of the faulty
/// lexeme it finds, or where it ends.
pub open spec fn stop_of(found: Lexed) -> int {
    match found {
        Lexed::Token { ty, start, len } => start,
        Lexed::End { at } => at,
        Lexed::Error { fault, start, len } => start,
    }
}

/// The smaller of `i` and the length of `a`.
pub open spec fn within(a: Seq<char>, i: int) -> int {
    if i < a.len() {
        i
    } else {
        a.len() as int
    }
}

/// Whether a `*/` starts at or after `from`.
pub open spec fn block_comment_closed(src: Seq<char>, from: int) -> bool
    decreases src.len() - from,
{
    if from < 0 || from >= src.len() {
        false
    } else if src[from] == '*' && from + 1 < src.len() && src[from + 1] == '/' {
        true
    } else {
        block_comment_closed(src, from + 1)
    }
}

/// What closes the comment that the text ends in, where the scanner, started
/// at `i`, reaches the end of the text inside one; nothing otherwise.
pub open spec fn open_comment(src: Seq<char>, i: int) -> Seq<char>
    decreases src.len() + 2 - i,
    via open_comment_decreases
{
    if i < 0 || i >= src.len() {
        Seq::empty()
    } else {
        let c = src[i];
        let n = src.len() as int;
        if c == '/' && i + 1 < n && src[i + 1] == '*' {
            if block_comment_closed(src, i + 2) {
                open_comment(src, block_comment_end(src, i + 2))
            } else {
                seq!['*', '/']
            }
        } else if c == '/' && i + 1 < n && src[i + 1] == '/' {
            if line_end(src, i + 2) < n {
                open_comment(src, line_end(src, i + 2) + 1)
            } else {
                seq!['\n']
            }
        } else if c == '\\' {
            open_comment(src, i + 2)
        } else if is_blank(c) {
            open_comment(src, i + 1)
        } else {
            Seq::empty()
        }
    }
}

#[via_fn]
proof fn open_comment_decreases(src: Seq<char>, i: int) {
    if 0 <= i && i + 2 <= src.len() {
        lemma_block_comment_end_bounds(src, i + 2);
        lemma_line_end_bounds(src, i + 2);
    }
}

/// A run that ends before the shared part ends is the same in both texts;
/// one that reaches its end stops there in `b` where a space ends it.
pub proof fn lemma_run_end_agree(
    a: Seq<char>,
    b: Seq<char>,
    m: int,
    keep: spec_fn(char) -> bool,
    from: int,
)
    requires
        agree(a, b, m),
        0 <= from <= m,
    ensures
        run_end(a, keep, from) < m ==> run_end(b, keep, from) == run_end(a, keep, from),
        run_end(a, keep, from) >= m && !keep(' ') ==> run_end(b, keep, from) == m,
    decreases m - from,
{
    lemma_run_end_bounds(a, keep, from);
    if from < m {
        assert(a[from] == b[from]);
        if keep(a[from]) {
            lemma_run_end_agree(a, b, m, keep, from + 1);
        }
    }
}

/// A closer found in the shared part is found in both texts.
pub proof fn lemma_close_from_agree(
    a: Seq<char>,
    b: Seq<char>,
    m: int,
    open: char,
    close: char,
    from: int,
    depth: nat,
)
    requires
        agree(a, b, m),
        0 <= from <= a.len(),
    ensures
        close_from(a, open, close, from, depth) < m ==> close_from(b, open, close, from, depth)
            == close_from(a, open, close, from, depth),
    decreases a.len() - from,
{
    lemma_close_from_bounds(a, open, close, from, depth);
    if from < m {
        assert(a[from] == b[from]);
        if a[from] == open {
            lemma_close_from_agree(a, b, m, open, close, from + 1, depth + 1);
        } else if a[from] == close {
            if depth > 0 {
                lemma_close_from_agree(a, b, m, open, close, from + 1, (depth - 1) as nat);
            }
        } else {
            lemma_close_from_agree(a, b, m, open, close, from + 1, depth);
        }
    }
}

/// A comment that is never closed runs to the end of the text; one that is
/// closed ends after its start.
pub proof fn lemma_block_comment_open(src: Seq<char>, from: int)
    requires
        0 <= from <= src.len(),
    ensures
        !block_comment_closed(src, from) ==> block_comment_end(src, from) == src.len(),
        block_comment_closed(src, from) ==> from + 2 <= block_comment_end(src, from) <= src.len(),
    decreases src.len() - from,
{
    if from < src.len() && !(src[from] == '*' && from + 1 < src.len() && src[from + 1] == '/') {
        lemma_block_comment_open(src, from + 1);
    }
}

/// A comment closed in the shared part is closed at the same place in both texts.
pub proof fn lemma_block_comment_agree(a: Seq<char>, b: Seq<char>, m: int, from: int)
    requires
        agree(a, b, m),
        0 <= from <= a.len(),
        block_comment_closed(a, from),
        block_comment_end(a, from) <= m,
    ensures
        block_comment_end(b, from) == block_comment_end(a, from),
    decreases a.len() - from,
{
    lemma_block_comment_open(a, from);
    assert(a[from] == b[from]);
    assert(a[from + 1] == b[from + 1]);
    if !(a[from] == '*' && a[from + 1] == '/') {
        lemma_block_comment_open(a, from + 1);
        lemma_block_comment_agree(a, b, m, from + 1);
    }
}

/// A comment left open at the end of `a` is closed by the `*/` that `b`
/// holds after the space.
pub proof fn lemma_block_comment_patched(a: Seq<char>, b: Seq<char>, from: int)
    requires
        agree(a, b, a.len() as int),
        has_at(b, a.len() as int + 1, seq!['*', '/']),
        0 <= from <= a.len(),
        !block_comment_closed(a, from),
    ensures
        block_comment_end(b, from) == a.len() + 3,
    decreases a.len() - from,
{
    let n = a.len() as int;
    assert(b[n + 1] == seq!['*', '/'][0]);
    assert(b[n + 1 + 1] == seq!['*', '/'][1]);
    if from < n {
        assert(a[from] == b[from]);
        if from + 1 < n {
            assert(a[from + 1] == b[from + 1]);
        }
        lemma_block_comment_patched(a, b, from + 1);
    } else {
        assert(block_comment_end(b, n + 1) == n + 3);
    }
}

/// A line that ends in the shared part ends at the same place in both texts.
pub proof fn lemma_line_end_agree(a: Seq<char>, b: Seq<char>, m: int, from: int)
    requires
        agree(a, b, m),
        0 <= from <= a.len(),
    ensures
        line_end(a, from) < m ==> line_end(b, from) == line_end(a, from),
    decreases a.len() - from,
{
    lemma_line_end_bounds(a, from);
    if from < m {
        assert(a[from] == b[from]);
        if a[from] != '\n' {
            lemma_line_end_agree(a, b, m, from + 1);
        }
    }
}

/// A line left open at the end of `a` is ended by the newline that `b` holds
/// after the space.
pub proof fn lemma_line_end_patched(a: Seq<char>, b: Seq<char>, from: int)
    requires
        agree(a, b, a.len() as int),
        has_at(b, a.len() as int + 1, seq!['\n']),
        0 <= from <= a.len(),
        line_end(a, from) >= a.len(),
    ensures
        line_end(b, from) == a.len() + 1,
    decreases a.len() - from,
{
    let n = a.len() as int;
    assert(b[n + 1] == seq!['\n'][0]);
    if from < n {
        assert(a[from] == b[from]);
        lemma_line_end_patched(a, b, from + 1);
    } else {
        assert(line_end(b, n + 1) == n + 1);
    }
}

/// A token that lies in the shared part is found in both texts.
pub proof fn lemma_token_agrees(a: Seq<char>, b: Seq<char>, m: int, i: int)
    requires
        agree(a, b, m),
        scan_from(a, i) matches Lexed::Token { ty, start, len } && start + len <= m,
    ensures
        scan_from(b, i) == scan_from(a, i),
    decreases a.len() + 2 - i,
{
    lemma_scan_progress(a, i);
    let n = a.len() as int;
    let c = a[i];
    assert(b[i] == c);
    if c == '"' || c == '\'' {
        lemma_run_end_agree(a, b, m, |x: char| x != c, i + 1);
    } else if c == '=' || c == '{' || c == '}' || c == ';' {
    } else if c == '/' && i + 1 < n && a[i + 1] == '*' {
        lemma_block_comment_open(a, i + 2);
        let end = block_comment_end(a, i + 2);
        lemma_scan_progress(a, end);
        assert(b[i + 1] == a[i + 1]);
        lemma_block_comment_agree(a, b, m, i + 2);
        lemma_token_agrees(a, b, m, end);
    } else if c == '/' && i + 1 < n && a[i + 1] == '/' {
        lemma_line_end_bounds(a, i + 2);
        let end = line_comment_end(a, i + 2);
        lemma_scan_progress(a, end);
        assert(b[i + 1] == a[i + 1]);
        lemma_line_end_agree(a, b, m, i + 2);
        lemma_token_agrees(a, b, m, end);
    } else if c == '<' {
        lemma_close_from_agree(a, b, m, '<', '>', i + 1, 0);
    } else if c == '\\' {
        lemma_scan_progress(a, i + 2);
        lemma_token_agrees(a, b, m, i + 2);
    } else if is_blank(c) {
        lemma_scan_progress(a, i + 1);
        lemma_token_agrees(a, b, m, i + 1);
    } else if is_letter(c) {
        let end = run_end(a, |x: char| is_letter_or_digit(x), i + 1);
        lemma_run_end_bounds(a, |x: char| is_letter_or_digit(x), i + 1);
        lemma_run_end_agree(a, b, m, |x: char| is_letter_or_digit(x), i + 1);
        if end < n {
            lemma_close_from_bounds(a, '{', '}', end + 1, 0);
            lemma_close_from_agree(a, b, m, '{', '}', end + 1, 0);
        }
        assert(run_end(b, |x: char| is_letter_or_digit(x), i + 1) == end);
        if end - i >= 2 {
            assert(b[i + 1] == a[i + 1]);
        }
        if end - i >= 3 {
            assert(b[i + 2] == a[i + 2]);
        }
        assert(spells_js(b, i, end) == spells_js(a, i, end));
        assert(spells_css(b, i, end) == spells_css(a, i, end));
        if end < m {
            assert(b[end] == a[end]);
        }
    }
}

/// Where the scanner of `a`, started at `i`, stops at index `m` or at the
/// end of the text, the scanner of `b` comes to the index after the space
/// and after what closes an open comment.
pub proof fn lemma_scan_resumes(a: Seq<char>, b: Seq<char>, i: int)
    requires
        0 <= i <= a.len() + 1,
        agree(a, b, within(a, stop_of(scan_from(a, i)))),
        has_at(b, within(a, stop_of(scan_from(a, i))) + 1, open_comment(a, i)),
    ensures
        scan_from(b, i) == scan_from(
            b,
            within(a, stop_of(scan_from(a, i))) + 1 + open_comment(a, i).len(),
        ),
    decreases a.len() + 2 - i,
{
    lemma_scan_progress(a, i);
    let n = a.len() as int;
    let m = within(a, stop_of(scan_from(a, i)));
    if i >= n {
    } else {
        let c = a[i];
        if c == '/' && i + 1 < n && a[i + 1] == '*' {
            lemma_block_comment_open(a, i + 2);
            let end = block_comment_end(a, i + 2);
            lemma_scan_progress(a, end);
            assert(b[i] == a[i]);
            assert(b[i + 1] == a[i + 1]);
            if block_comment_closed(a, i + 2) {
                lemma_block_comment_agree(a, b, m, i + 2);
                lemma_scan_resumes(a, b, end);
            } else {
                lemma_block_comment_patched(a, b, i + 2);
            }
        } else if c == '/' && i + 1 < n && a[i + 1] == '/' {
            lemma_line_end_bounds(a, i + 2);
            let end = line_comment_end(a, i + 2);
            lemma_scan_progress(a, end);
            assert(b[i] == a[i]);
            assert(b[i + 1] == a[i + 1]);
            if line_end(a, i + 2) < n {
                lemma_line_end_agree(a, b, m, i + 2);
                lemma_scan_resumes(a, b, end);
            } else {
                lemma_line_end_patched(a, b, i + 2);
            }
        } else if c == '\\' {
            lemma_scan_progress(a, i + 2);
            assert(b[i] == a[i]);
            lemma_scan_resumes(a, b, i + 2);
        } else if is_blank(c) {
            lemma_scan_progress(a, i + 1);
            assert(b[i] == a[i]);
            lemma_scan_resumes(a, b, i + 1);
        } else {
            assert(m == i);
        }
    }
}

/// Whether the scanner of `b` finds no error at `j`, and a `;` only where
/// the scanner of `a` finds one too.
pub open spec fn keeps_semicolon(a: Seq<char>, b: Seq<char>, j: int) -> bool {
    &&& !(scan_from(b, j) is Error)
    &&& next_is(b, j, TokenType::Semicolon) ==> next_is(a, j, TokenType::Semicolon)
}

/// Where the attributes end, the scanner finds no error and no name.
pub proof fn lemma_attributes_stop(a: Seq<char>, i: int)
    ensures
        attributes_at(a, i) matches Parsed::Done { next, .. } ==> i <= next && !(scan_from(
            a,
            next,
        ) is Error) && !next_is(a, next, TokenType::Text),
    decreases a.len() + 2 - i,
{
    lemma_scan_progress(a, i);
    lemma_attribute_progress(a, i);
    if next_is(a, i, TokenType::Text) {
        if let Parsed::Done { value, next } = attribute_at(a, i) {
            lemma_attributes_stop(a, next);
        }
    }
}

/// A tag starts with its name, which lies before the end of the tag.
pub proof fn lemma_tag_first_token(a: Seq<char>, i: int)
    ensures
        tag_at(a, i) matches Parsed::Done { next, .. } ==> (scan_from(a, i) matches Lexed::Token {
            ty,
            start,
            len,
        } && ty == TokenType::Text && start + len <= next),
{
    lemma_scan_progress(a, i);
    if let Lexed::Token { ty, start, len } = scan_from(a, i) {
        lemma_attributes_progress(a, start + len);
        if let Parsed::Done { value, next } = attributes_at(a, start + len) {
            lemma_body_progress(a, next);
        }
    }
}

/// An element starts with a name, a string or a raw block, which lies before its end.
pub proof fn lemma_element_first_token(a: Seq<char>, i: int)
    ensures
        element_at(a, i) matches Parsed::Done { value, next } ==> (value is Some ==> (scan_from(
            a,
            i,
        ) matches Lexed::Token { ty, start, len } && start + len <= next && (ty == TokenType::Text
            || ty == TokenType::String || ty == TokenType::Html))),
{
    lemma_scan_progress(a, i);
    lemma_tag_first_token(a, i);
}

/// A body starts with `;`, with `{` or with an element, which lies before its end.
pub proof fn lemma_body_first_token(a: Seq<char>, i: int)
    ensures
        body_at(a, i) matches Parsed::Done { next, .. } ==> (scan_from(a, i) matches Lexed::Token {
            ty,
            start,
            len,
        } && start + len <= next && (ty == TokenType::Semicolon || ty == TokenType::LeftBrace || ty
            == TokenType::Text || ty == TokenType::String || ty == TokenType::Html)),
{
    lemma_scan_progress(a, i);
    if let Lexed::Token { ty, start, len } = scan_from(a, i) {
        if ty == TokenType::LeftBrace {
            lemma_braces_progress(a, start + len);
        } else if ty != TokenType::Semicolon {
            lemma_element_first_token(a, i);
            if let Parsed::Done { value: Some(node), next } = element_at(a, i) {
                lemma_scan_progress(a, next);
            }
        }
    }
}

/// What stands in braces starts with `}` or with an element, which lies before its end.
pub proof fn lemma_braces_first_token(a: Seq<char>, i: int)
    ensures
        braces_at(a, i) matches Parsed::Done { next, .. } ==> (scan_from(a, i) matches Lexed::Token {
            ty,
            start,
            len,
        } && start + len <= next && (ty == TokenType::RightBrace || ty == TokenType::Text || ty
            == TokenType::String || ty == TokenType::Html)),
{
    lemma_scan_progress(a, i);
    if let Lexed::Token { ty, start, len } = scan_from(a, i) {
        if ty != TokenType::RightBrace {
            lemma_element_first_token(a, i);
            lemma_element_progress(a, i);
            if let Parsed::Done { value: Some(node), next } = element_at(a, i) {
                lemma_braces_progress(a, next);
            }
        }
    }
}

/// An attribute starts with its name, which lies before its end.
pub proof fn lemma_attribute_first_token(a: Seq<char>, i: int)
    ensures
        attribute_at(a, i) matches Parsed::Done { next, .. } ==> (scan_from(
            a,
            i,
        ) matches Lexed::Token { ty, start, len } && ty == TokenType::Text && 0 <= start && start
            + len <= next),
{
    lemma_scan_progress(a, i);
    if let Lexed::Token { ty, start, len } = scan_from(a, i) {
        lemma_scan_progress(a, start + len);
        if let Lexed::Token { ty: sign, start: sign_start, len: sign_len } = scan_from(
            a,
            start + len,
        ) {
            lemma_scan_progress(a, sign_start + sign_len);
        }
    }
}

/// An attribute that lies in the shared part is the same in both texts,
/// where the scanner of `b` finds neither an error nor `=` after a name
/// without a value.
pub proof fn lemma_attribute_agrees(a: Seq<char>, b: Seq<char>, m: int, i: int)
    requires
        agree(a, b, m),
        attribute_at(a, i) matches Parsed::Done { value, next } && next <= m && (value.1 is None
            ==> !(scan_from(b, next) is Error) && !next_is(b, next, TokenType::Equal)),
    ensures
        attribute_at(b, i) == attribute_at(a, i),
{
    lemma_scan_progress(a, i);
    lemma_attribute_first_token(a, i);
    lemma_token_agrees(a, b, m, i);
    if let Lexed::Token { ty, start, len } = scan_from(a, i) {
        let after = start + len;
        lemma_scan_progress(a, after);
        lemma_same_text(a, b, m, start, start + len);
        if let Lexed::Token { ty: sign, start: sign_start, len: sign_len } = scan_from(a, after) {
            if sign == TokenType::Equal {
                let value_at = sign_start + sign_len;
                lemma_scan_progress(a, value_at);
                if let Lexed::Token { ty: kind, start: from, len: width } = scan_from(a, value_at) {
                    lemma_token_agrees(a, b, m, after);
                    lemma_token_agrees(a, b, m, value_at);
                    lemma_same_text(a, b, m, from, from + width);
                }
            }
        }
    }
}

/// Attributes that lie in the shared part are the same in both texts, where
/// the scanner of `b` finds no error, no name and no `=` after them.
pub proof fn lemma_attributes_agree(a: Seq<char>, b: Seq<char>, m: int, i: int)
    requires
        agree(a, b, m),
        attributes_at(a, i) matches Parsed::Done { value, next } && next <= m && !(scan_from(
            b,
            next,
        ) is Error) && !next_is(b, next, TokenType::Text) && !next_is(b, next, TokenType::Equal),
    ensures
        attributes_at(b, i) == attributes_at(a, i),
    decreases a.len() + 2 - i,
{
    lemma_scan_progress(a, i);
    lemma_attribute_progress(a, i);
    lemma_attribute_first_token(a, i);
    if next_is(a, i, TokenType::Text) {
        if let Parsed::Done { value, next } = attribute_at(a, i) {
            lemma_attributes_progress(a, next);
            lemma_scan_progress(a, next);
            lemma_attribute_progress(a, next);
            lemma_attribute_first_token(a, next);
            if next_is(a, next, TokenType::Text) {
                if let Parsed::Done { value: second, next: after } = attribute_at(a, next) {
                    lemma_attributes_progress(a, after);
                }
                lemma_token_agrees(a, b, m, next);
            }
            lemma_token_agrees(a, b, m, i);
            lemma_attribute_agrees(a, b, m, i);
            lemma_attributes_agree(a, b, m, next);
        }
    }
}

/// An element that lies in the shared part is the same in both texts.
pub proof fn lemma_element_agrees(a: Seq<char>, b: Seq<char>, m: int, i: int)
    requires
        agree(a, b, m),
        element_at(a, i) matches Parsed::Done { value, next } && value is Some && next <= m,
        keeps_semicolon(a, b, element_at(a, i)->next),
    ensures
        element_at(b, i) == element_at(a, i),
    decreases a.len() + 2 - i, 2nat,
{
    lemma_scan_progress(a, i);
    lemma_element_first_token(a, i);
    lemma_token_agrees(a, b, m, i);
    if let Lexed::Token { ty, start, len } = scan_from(a, i) {
        if ty == TokenType::Text {
            lemma_tag_agrees(a, b, m, i);
        } else {
            lemma_same_text(a, b, m, start, start + len);
            if ty == TokenType::String {
                lemma_same_text(a, b, m, start + 1, start + len - 1);
            }
        }
    }
}

/// A tag that lies in the shared part is the same in both texts.
pub proof fn lemma_tag_agrees(a: Seq<char>, b: Seq<char>, m: int, i: int)
    requires
        agree(a, b, m),
        tag_at(a, i) matches Parsed::Done { value, next } && next <= m,
        keeps_semicolon(a, b, tag_at(a, i)->next),
    ensures
        tag_at(b, i) == tag_at(a, i),
    decreases a.len() + 2 - i, 1nat,
{
    lemma_scan_progress(a, i);
    lemma_tag_first_token(a, i);
    lemma_token_agrees(a, b, m, i);
    if let Lexed::Token { ty, start, len } = scan_from(a, i) {
        let after = start + len;
        lemma_same_text(a, b, m, start, start + len);
        lemma_attributes_stop(a, after);
        if let Parsed::Done { value: attributes, next: body } = attributes_at(a, after) {
            lemma_body_first_token(a, body);
            lemma_body_progress(a, body);
            lemma_token_agrees(a, b, m, body);
            lemma_attributes_agree(a, b, m, after);
            lemma_body_agrees(a, b, m, body);
        }
    }
}

/// A body that lies in the shared part is the same in both texts.
pub proof fn lemma_body_agrees(a: Seq<char>, b: Seq<char>, m: int, i: int)
    requires
        agree(a, b, m),
        body_at(a, i) matches Parsed::Done { value, next } && next <= m,
        keeps_semicolon(a, b, body_at(a, i)->next),
    ensures
        body_at(b, i) == body_at(a, i),
    decreases a.len() + 2 - i, 3nat,
{
    lemma_scan_progress(a, i);
    lemma_body_first_token(a, i);
    lemma_token_agrees(a, b, m, i);
    if let Lexed::Token { ty, start, len } = scan_from(a, i) {
        if ty == TokenType::Semicolon {
        } else if ty == TokenType::LeftBrace {
            lemma_braces_agree(a, b, m, start + len);
        } else {
            lemma_element_progress(a, i);
            if let Parsed::Done { value: Some(node), next } = element_at(a, i) {
                lemma_scan_progress(a, next);
                if next_is(a, next, TokenType::Semicolon) {
                    lemma_token_agrees(a, b, m, next);
                }
                lemma_element_agrees(a, b, m, i);
            }
        }
    }
}

/// What stands in braces in the shared part is the same in both texts.
pub proof fn lemma_braces_agree(a: Seq<char>, b: Seq<char>, m: int, i: int)
    requires
        agree(a, b, m),
        braces_at(a, i) matches Parsed::Done { value, next } && next <= m,
    ensures
        braces_at(b, i) == braces_at(a, i),
    decreases a.len() + 2 - i, 4nat,
{
    lemma_scan_progress(a, i);
    lemma_braces_first_token(a, i);
    lemma_token_agrees(a, b, m, i);
    if let Lexed::Token { ty, start, len } = scan_from(a, i) {
        if ty != TokenType::RightBrace {
            lemma_element_progress(a, i);
            if let Parsed::Done { value: Some(node), next } = element_at(a, i) {
                lemma_braces_first_token(a, next);
                lemma_braces_progress(a, next);
                lemma_token_agrees(a, b, m, next);
                lemma_element_agrees(a, b, m, i);
                lemma_braces_agree(a, b, m, next);
            }
        }
    }
}

/// The index that a failure points at: where its position starts.
pub open spec fn failure_index(failure: Failure) -> int {
    match failure {
        Failure::Scan(error) => error.site.pos.idx,
        Failure::Parse(error) => error.site.pos.idx,
    }
}

/// Whether the scanner finds the end of the text or a `}` at `p`.
pub open spec fn closes_or_ends(b: Seq<char>, p: int) -> bool {
    scan_from(b, p) is End || next_is(b, p, TokenType::RightBrace)
}

/// A text that holds two pieces in a row holds each of them.
pub proof fn lemma_has_at_parts(b: Seq<char>, p: int, first: Seq<char>, second: Seq<char>)
    requires
        has_at(b, p, first + second),
    ensures
        has_at(b, p, first),
        has_at(b, p + first.len(), second),
{
    let both = first + second;
    assert forall|j: int| 0 <= j < first.len() implies b[p + j] == first[j] by {
        assert(both[j] == first[j]);
    }
    assert forall|j: int| 0 <= j < second.len() implies b[p + first.len() + j] == second[j] by {
        assert(both[first.len() + j] == second[j]);
        assert(b[p + (first.len() + j)] == both[first.len() + j]);
    }
}

/// Where the scanner finds a token or an error, the text does not end in a comment.
pub proof fn lemma_no_open_comment(a: Seq<char>, i: int)
    requires
        !(scan_from(a, i) is End),
    ensures
        open_comment(a, i) == Seq::<char>::empty(),
    decreases a.len() + 2 - i,
{
    let n = a.len() as int;
    if 0 <= i < n {
        let c = a[i];
        if c == '/' && i + 1 < n && a[i + 1] == '*' {
            lemma_block_comment_open(a, i + 2);
            lemma_no_open_comment(a, block_comment_end(a, i + 2));
        } else if c == '/' && i + 1 < n && a[i + 1] == '/' {
            lemma_line_end_bounds(a, i + 2);
            lemma_no_open_comment(a, line_comment_end(a, i + 2));
        } else if c == '\\' {
            lemma_no_open_comment(a, i + 2);
        } else if is_blank(c) {
            lemma_no_open_comment(a, i + 1);
        }
    }
}

/// What makes an attribute whole once the text is cut where it fails: a
/// value where one is missing.
pub open spec fn fix_attribute(a: Seq<char>, i: int) -> Seq<char> {
    match scan_from(a, i) {
        Lexed::Token { ty, start, len } => match scan_from(a, start + len) {
            Lexed::Token { ty: sign, start: sign_start, len: sign_len } => if sign
                == TokenType::Equal {
                open_comment(a, sign_start + sign_len) + seq!['"', '"']
            } else {
                Seq::empty()
            },
            _ => Seq::empty(),
        },
        _ => Seq::empty(),
    }
}

/// What makes the attributes whole once the text is cut where they fail.
pub open spec fn fix_attributes(a: Seq<char>, i: int) -> Seq<char>
    decreases a.len() + 2 - i,
{
    if next_is(a, i, TokenType::Text) {
        match attribute_at(a, i) {
            Parsed::Failed(failure) => fix_attribute(a, i),
            Parsed::Done { value, next } => if i < next <= a.len() {
                fix_attributes(a, next)
            } else {
                Seq::empty()
            },
        }
    } else {
        Seq::empty()
    }
}

/// What makes a tag whole once the text is cut where it fails.
pub open spec fn fix_tag(a: Seq<char>, i: int) -> Seq<char>
    decreases a.len() + 2 - i, 1nat,
{
    match scan_from(a, i) {
        Lexed::Token { ty, start, len } => match attributes_at(a, start + len) {
            Parsed::Failed(failure) => fix_attributes(a, start + len) + seq![';'],
            Parsed::Done { value, next } => if i < next <= a.len() {
                fix_body(a, next)
            } else {
                Seq::empty()
            },
        },
        _ => Seq::empty(),
    }
}

/// What makes a body whole once the text is cut where it fails.
pub open spec fn fix_body(a: Seq<char>, i: int) -> Seq<char>
    decreases a.len() + 2 - i, 3nat,
{
    match scan_from(a, i) {
        Lexed::Error { fault, start, len } => seq![';'],
        Lexed::End { at } => open_comment(a, i) + seq![';'],
        Lexed::Token { ty, start, len } => if ty == TokenType::LeftBrace {
            if i < start + len <= a.len() {
                fix_braces(a, start + len)
            } else {
                Seq::empty()
            }
        } else if ty == TokenType::Semicolon {
            Seq::empty()
        } else {
            match element_at(a, i) {
                Parsed::Failed(failure) => fix_tag(a, i),
                Parsed::Done { value, next } => if value is None {
                    seq![';']
                } else {
                    Seq::empty()
                },
            }
        },
    }
}

/// What makes a braced body whole once the text is cut where it fails.
pub open spec fn fix_braces(a: Seq<char>, i: int) -> Seq<char>
    decreases a.len() + 2 - i, 4nat,
{
    match scan_from(a, i) {
        Lexed::Error { fault, start, len } => seq!['}'],
        Lexed::End { at } => open_comment(a, i) + seq!['}'],
        Lexed::Token { ty, start, len } => if ty == TokenType::RightBrace {
            Seq::empty()
        } else {
            match element_at(a, i) {
                Parsed::Failed(failure) => fix_tag(a, i) + seq!['}'],
                Parsed::Done { value, next } => if value is None {
                    seq!['}']
                } else if i < next <= a.len() {
                    fix_braces(a, next)
                } else {
                    Seq::empty()
                },
            }
        },
    }
}

/// What makes the elements whole once the text is cut where they fail.
pub open spec fn fix_elements(a: Seq<char>, i: int) -> Seq<char>
    decreases a.len() + 2 - i,
{
    match element_at(a, i) {
        Parsed::Failed(failure) => if next_is(a, i, TokenType::Text) {
            fix_tag(a, i)
        } else {
            Seq::empty()
        },
        Parsed::Done { value, next } => if value is Some && i < next <= a.len() {
            fix_elements(a, next)
        } else {
            Seq::empty()
        },
    }
}

/// A failing attribute fails at or after its cursor, and after its name.
pub proof fn lemma_attribute_fails_late(a: Seq<char>, i: int)
    ensures
        attribute_at(a, i) matches Parsed::Failed(f) ==> i <= failure_index(f) && (scan_from(
            a,
            i,
        ) matches Lexed::Token { ty, start, len } ==> ty == TokenType::Text ==> start + len
            <= failure_index(f)),
{
    lemma_scan_progress(a, i);
    if let Lexed::Token { ty, start, len } = scan_from(a, i) {
        lemma_scan_progress(a, start + len);
        if let Lexed::Token { ty: sign, start: sign_start, len: sign_len } = scan_from(
            a,
            start + len,
        ) {
            lemma_scan_progress(a, sign_start + sign_len);
        }
    }
}

/// Failing attributes fail at or after their cursor.
pub proof fn lemma_attributes_fail_late(a: Seq<char>, i: int)
    ensures
        attributes_at(a, i) matches Parsed::Failed(f) ==> i <= failure_index(f),
    decreases a.len() + 2 - i,
{
    lemma_scan_progress(a, i);
    lemma_attribute_fails_late(a, i);
    lemma_attribute_progress(a, i);
    if next_is(a, i, TokenType::Text) {
        if let Parsed::Done { value, next } = attribute_at(a, i) {
            lemma_attributes_fail_late(a, next);
        }
    }
}

/// A failing element fails at or after its cursor, and after its first token
/// where that is a name.
pub proof fn lemma_element_fails_late(a: Seq<char>, i: int)
    ensures
        element_at(a, i) matches Parsed::Failed(f) ==> i <= failure_index(f) && (scan_from(
            a,
            i,
        ) matches Lexed::Token { ty, start, len } ==> ty == TokenType::Text && start + len
            <= failure_index(f)),
    decreases a.len() + 2 - i, 2nat,
{
    lemma_scan_progress(a, i);
    lemma_tag_fails_late(a, i);
}

/// A failing tag fails at or after its cursor, and after its name.
pub proof fn lemma_tag_fails_late(a: Seq<char>, i: int)
    ensures
        tag_at(a, i) matches Parsed::Failed(f) ==> i <= failure_index(f) && (scan_from(
            a,
            i,
        ) matches Lexed::Token { ty, start, len } ==> ty == TokenType::Text ==> start + len
            <= failure_index(f)),
    decreases a.len() + 2 - i, 1nat,
{
    lemma_scan_progress(a, i);
    if let Lexed::Token { ty, start, len } = scan_from(a, i) {
        if ty == TokenType::Text {
            lemma_attributes_fail_late(a, start + len);
            lemma_attributes_progress(a, start + len);
            if let Parsed::Done { value, next } = attributes_at(a, start + len) {
                lemma_body_fails_late(a, next);
            }
        }
    }
}

/// A failing body fails at or after its cursor.
pub proof fn lemma_body_fails_late(a: Seq<char>, i: int)
    ensures
        body_at(a, i) matches Parsed::Failed(f) ==> i <= failure_index(f),
    decreases a.len() + 2 - i, 3nat,
{
    lemma_scan_progress(a, i);
    if let Lexed::Token { ty, start, len } = scan_from(a, i) {
        if ty == TokenType::LeftBrace {
            lemma_braces_fail_late(a, start + len);
        } else if ty != TokenType::Semicolon {
            lemma_element_fails_late(a, i);
            lemma_element_progress(a, i);
            if let Parsed::Done { value: Some(node), next } = element_at(a, i) {
                lemma_scan_progress(a, next);
            }
        }
    }
}

/// A failing braced body fails at or after its cursor.
pub proof fn lemma_braces_fail_late(a: Seq<char>, i: int)
    ensures
        braces_at(a, i) matches Parsed::Failed(f) ==> i <= failure_index(f),
    decreases a.len() + 2 - i, 4nat,
{
    lemma_scan_progress(a, i);
    if let Lexed::Token { ty, start, len } = scan_from(a, i) {
        if ty != TokenType::RightBrace {
            lemma_element_fails_late(a, i);
            lemma_element_progress(a, i);
            if let Parsed::Done { value: Some(node), next } = element_at(a, i) {
                lemma_braces_fail_late(a, next);
            }
        }
    }
}

/// Failing elements fail at or after their cursor.
pub proof fn lemma_elements_fail_late(a: Seq<char>, i: int)
    ensures
        elements_at(a, i) matches Parsed::Failed(f) ==> i <= failure_index(f),
    decreases a.len() + 2 - i,
{
    lemma_element_fails_late(a, i);
    lemma_element_progress(a, i);
    if let Parsed::Done { value: Some(node), next } = element_at(a, i) {
        lemma_elements_fail_late(a, next);
    }
}

/// An attribute that fails in `a` is whole in `b`, where `b` holds the text
/// of `a` up to the failure, a space and what makes the attribute whole, and
/// neither an error nor `=` follows.
#[verifier::rlimit(100)]
pub proof fn lemma_attribute_fixed(a: Seq<char>, b: Seq<char>, i: int)
    requires
        0 <= i,
        next_is(a, i, TokenType::Text),
        attribute_at(a, i) is Failed,
        ({
            let e = within(a, failure_index(attribute_at(a, i)->Failed_0));
            let p = e + 1 + fix_attribute(a, i).len();
            &&& agree(a, b, e)
            &&& has_at(b, e + 1, fix_attribute(a, i))
            &&& !(scan_from(b, p) is Error)
            &&& !next_is(b, p, TokenType::Equal)
        }),
    ensures
        ({
            let e = within(a, failure_index(attribute_at(a, i)->Failed_0));
            let p = e + 1 + fix_attribute(a, i).len();
            &&& attribute_at(b, i) matches Parsed::Done { value, next }
            &&& i < next <= p
            &&& scan_from(b, next) == scan_from(b, p)
            &&& scan_from(b, i) == scan_from(a, i)
        }),
{
    let e = within(a, failure_index(attribute_at(a, i)->Failed_0));
    lemma_scan_progress(a, i);
    lemma_attribute_fails_late(a, i);
    if let Lexed::Token { ty, start, len } = scan_from(a, i) {
        let after = start + len;
        lemma_token_agrees(a, b, e, i);
        lemma_scan_progress(a, after);
        match scan_from(a, after) {
            Lexed::Error { fault, start: bad, len: width } => {
                lemma_no_open_comment(a, after);
                lemma_scan_resumes(a, b, after);
            },
            Lexed::Token { ty: sign, start: sign_start, len: sign_len } => {
                let value_at = sign_start + sign_len;
                lemma_scan_progress(a, value_at);
                lemma_token_agrees(a, b, e, after);
                let closing = open_comment(a, value_at);
                lemma_has_at_parts(b, e + 1, closing, seq!['"', '"']);
                lemma_scan_resumes(a, b, value_at);
                let q = e + 1 + closing.len();
                assert(b[q] == seq!['"', '"'][0]);
                assert(b[q + 1] == seq!['"', '"'][1]);
                assert(run_end(b, |x: char| x != '"', q + 1) == q + 1);
                assert(scan_from(b, q) == (Lexed::Token {
                    ty: TokenType::String,
                    start: q,
                    len: 2,
                }));
            },
            Lexed::End { at } => {},
        }
    }
}

/// Where the scanner of `a`, started at `j`, stops at a token or an error,
/// the scanner of `b` comes to the index after the space that follows the
/// shared part.
pub proof fn lemma_scan_resumes_at_stop(a: Seq<char>, b: Seq<char>, j: int)
    requires
        0 <= j <= a.len() + 1,
        !(scan_from(a, j) is End),
        agree(a, b, stop_of(scan_from(a, j))),
    ensures
        scan_from(b, j) == scan_from(b, stop_of(scan_from(a, j)) + 1),
        0 <= stop_of(scan_from(a, j)) < a.len(),
        j <= stop_of(scan_from(a, j)),
{
    lemma_scan_progress(a, j);
    lemma_no_open_comment(a, j);
    lemma_scan_resumes(a, b, j);
}

/// Whether no element starts at cursor `i`.
pub open spec fn starts_no_element(a: Seq<char>, i: int) -> bool {
    element_at(a, i) matches Parsed::Done { value, .. } && value is None
}

/// Whether the next token from cursor `i` is of another kind than `x` and `y`.
pub open spec fn token_other_than(a: Seq<char>, i: int, x: TokenType, y: TokenType) -> bool {
    scan_from(a, i) matches Lexed::Token { ty, .. } && ty != x && ty != y
}

/// A `;` or a `}` is a token of its own.
pub proof fn lemma_scan_mark(b: Seq<char>, q: int)
    requires
        0 <= q < b.len(),
        b[q] == ';' || b[q] == '}',
    ensures
        scan_from(b, q) == (Lexed::Token {
            ty: if b[q] == ';' {
                TokenType::Semicolon
            } else {
                TokenType::RightBrace
            },
            start: q,
            len: 1,
        }),
{
}

/// The failure of attributes that stop at an error lies where the error starts.
pub proof fn lemma_attributes_fixed_here(a: Seq<char>, b: Seq<char>, i: int)
    requires
        0 <= i <= a.len(),
        attributes_at(a, i) is Failed,
        scan_from(a, i) is Error,
        ({
            let e = within(a, failure_index(attributes_at(a, i)->Failed_0));
            &&& agree(a, b, e)
            &&& next_is(b, e + 1, TokenType::Semicolon)
        }),
    ensures
        ({
            let e = within(a, failure_index(attributes_at(a, i)->Failed_0));
            &&& fix_attributes(a, i).len() == 0
            &&& attributes_at(b, i) matches Parsed::Done { value, next }
            &&& next == i
            &&& i <= e
            &&& scan_from(b, next) == scan_from(b, e + 1)
        }),
{
    lemma_scan_progress(a, i);
    lemma_scan_resumes_at_stop(a, b, i);
}

/// Attributes whose first attribute is whole in both texts, the rest being
/// whole in `b`, are whole in `b`.
#[verifier::rlimit(50)]
pub proof fn lemma_attributes_fixed_later(a: Seq<char>, b: Seq<char>, i: int)
    requires
        0 <= i <= a.len(),
        attributes_at(a, i) is Failed,
        next_is(a, i, TokenType::Text),
        attribute_at(a, i) is Done,
        ({
            let e = within(a, failure_index(attributes_at(a, i)->Failed_0));
            let p = e + 1 + fix_attributes(a, i).len();
            let first = attribute_at(a, i)->next;
            &&& agree(a, b, e)
            &&& next_is(b, p, TokenType::Semicolon)
            &&& attributes_at(b, first) matches Parsed::Done { value, next }
            &&& first <= next <= p
            &&& scan_from(b, next) == scan_from(b, p)
        }),
    ensures
        ({
            let e = within(a, failure_index(attributes_at(a, i)->Failed_0));
            let p = e + 1 + fix_attributes(a, i).len();
            &&& attributes_at(b, i) matches Parsed::Done { value, next }
            &&& i <= next <= p
            &&& scan_from(b, next) == scan_from(b, p)
        }),
{
    let e = within(a, failure_index(attributes_at(a, i)->Failed_0));
    let first = attribute_at(a, i)->next;
    lemma_scan_progress(a, i);
    lemma_attribute_progress(a, i);
    lemma_attribute_first_token(a, i);
    lemma_attributes_fail_late(a, first);
    lemma_scan_progress(a, first);
    assert(attributes_at(a, first) is Failed);
    assert(first <= e);
    assert(!(scan_from(b, first) is Error) && !next_is(b, first, TokenType::Equal)) by {
        match scan_from(a, first) {
            Lexed::Error { fault, start: bad, len: width } => {
                lemma_scan_resumes_at_stop(a, b, first);
                assert(fix_attributes(a, first).len() == 0);
            },
            Lexed::Token { ty: kind, start: from, len: width } => {
                lemma_attribute_first_token(a, first);
                lemma_attribute_fails_late(a, first);
                if let Parsed::Done { value: second, next: after } = attribute_at(a, first) {
                    lemma_attributes_fail_late(a, after);
                }
                assert(kind == TokenType::Text);
                lemma_token_agrees(a, b, e, first);
            },
            Lexed::End { at } => {},
        }
    }
    lemma_token_agrees(a, b, e, i);
    lemma_attribute_agrees(a, b, e, i);
}

/// Attributes that fail in `a` are whole in `b`, where `b` holds the text of
/// `a` up to the failure, a space, what makes the attributes whole and `;`.
pub proof fn lemma_attributes_fixed(a: Seq<char>, b: Seq<char>, i: int)
    requires
        0 <= i <= a.len(),
        attributes_at(a, i) is Failed,
        ({
            let e = within(a, failure_index(attributes_at(a, i)->Failed_0));
            let p = e + 1 + fix_attributes(a, i).len();
            &&& agree(a, b, e)
            &&& has_at(b, e + 1, fix_attributes(a, i))
            &&& next_is(b, p, TokenType::Semicolon)
        }),
    ensures
        ({
            let e = within(a, failure_index(attributes_at(a, i)->Failed_0));
            let p = e + 1 + fix_attributes(a, i).len();
            &&& attributes_at(b, i) matches Parsed::Done { value, next }
            &&& i <= next <= p
            &&& scan_from(b, next) == scan_from(b, p)
        }),
    decreases a.len() + 2 - i,
{
    lemma_scan_progress(a, i);
    match scan_from(a, i) {
        Lexed::Error { fault, start, len } => {
            assert(fix_attributes(a, i).len() == 0);
            lemma_attributes_fixed_here(a, b, i);
        },
        Lexed::Token { ty, start, len } => {
            lemma_attribute_progress(a, i);
            match attribute_at(a, i) {
                Parsed::Failed(failure) => {
                    lemma_attribute_fixed(a, b, i);
                    let first = attribute_at(b, i)->next;
                    assert(attributes_at(b, first) == (Parsed::Done {
                        value: Seq::<(Seq<char>, Option<Seq<char>>)>::empty(),
                        next: first,
                    }));
                },
                Parsed::Done { value, next } => {
                    lemma_attributes_fixed(a, b, next);
                    lemma_attributes_fixed_later(a, b, i);
                },
            }
        },
        Lexed::End { at } => {},
    }
}

/// A tag that fails in `a` is whole in `b`, where `b` holds the text of `a`
/// up to the failure, a space and what makes the tag whole, and the text
/// ends or `}` follows.
#[verifier::rlimit(100)]
pub proof fn lemma_tag_fixed(a: Seq<char>, b: Seq<char>, i: int)
    requires
        0 <= i <= a.len(),
        next_is(a, i, TokenType::Text),
        tag_at(a, i) is Failed,
        ({
            let e = within(a, failure_index(tag_at(a, i)->Failed_0));
            let p = e + 1 + fix_tag(a, i).len();
            &&& agree(a, b, e)
            &&& has_at(b, e + 1, fix_tag(a, i))
            &&& closes_or_ends(b, p)
        }),
    ensures
        ({
            let e = within(a, failure_index(tag_at(a, i)->Failed_0));
            let p = e + 1 + fix_tag(a, i).len();
            &&& tag_at(b, i) matches Parsed::Done { value, next }
            &&& i < next <= p
            &&& scan_from(b, next) == scan_from(b, p)
            &&& scan_from(b, i) == scan_from(a, i)
        }),
    decreases a.len() + 2 - i, 1nat,
{
    let e = within(a, failure_index(tag_at(a, i)->Failed_0));
    lemma_scan_progress(a, i);
    lemma_tag_fails_late(a, i);
    if let Lexed::Token { ty, start, len } = scan_from(a, i) {
        let after = start + len;
        lemma_token_agrees(a, b, e, i);
        lemma_attributes_fail_late(a, after);
        lemma_attributes_progress(a, after);
        match attributes_at(a, after) {
            Parsed::Failed(failure) => {
                let mend = fix_attributes(a, after);
                lemma_has_at_parts(b, e + 1, mend, seq![';']);
                let q = e + 1 + mend.len();
                assert(b[q] == seq![';'][0]);
                assert(scan_from(b, q) == (Lexed::Token {
                    ty: TokenType::Semicolon,
                    start: q,
                    len: 1,
                }));
                lemma_attributes_fixed(a, b, after);
            },
            Parsed::Done { value, next } => {
                lemma_body_fails_late(a, next);
                lemma_body_fixed(a, b, next);
                lemma_body_first_token(b, next);
                lemma_attributes_stop(a, after);
                lemma_attributes_agree(a, b, e, after);
            },
        }
    }
}

/// A body that fails where it starts, at an error, at the end of the text or
/// at a token that starts no body, is whole in `b`, where `b` holds `;` after
/// the space and after what closes an open comment.
pub proof fn lemma_body_fixed_here(a: Seq<char>, b: Seq<char>, i: int)
    requires
        0 <= i <= a.len() + 1,
        body_at(a, i) is Failed,
        scan_from(a, i) is Error || scan_from(a, i) is End || (token_other_than(
            a,
            i,
            TokenType::LeftBrace,
            TokenType::Semicolon,
        ) && starts_no_element(a, i)),
        ({
            let e = within(a, failure_index(body_at(a, i)->Failed_0));
            &&& agree(a, b, e)
            &&& has_at(b, e + 1, fix_body(a, i))
        }),
    ensures
        ({
            let e = within(a, failure_index(body_at(a, i)->Failed_0));
            let p = e + 1 + fix_body(a, i).len();
            &&& body_at(b, i) matches Parsed::Done { value, next }
            &&& i < next
            &&& next == p
            &&& !next_is(b, i, TokenType::Text)
        }),
{
    let e = within(a, failure_index(body_at(a, i)->Failed_0));
    lemma_scan_progress(a, i);
    let closing = open_comment(a, i);
    if !(scan_from(a, i) is End) {
        lemma_no_open_comment(a, i);
    }
    assert(fix_body(a, i) =~= closing + seq![';']);
    lemma_has_at_parts(b, e + 1, closing, seq![';']);
    lemma_scan_resumes(a, b, i);
    let q = e + 1 + closing.len();
    assert(b[q] == seq![';'][0]);
    lemma_scan_mark(b, q);
}

/// A body whose one element is whole in both texts, an error following it in
/// `a`, is whole in `b`, where the text ends or `}` follows.
#[verifier::rlimit(50)]
pub proof fn lemma_body_fixed_after(a: Seq<char>, b: Seq<char>, i: int)
    requires
        0 <= i <= a.len() + 1,
        body_at(a, i) is Failed,
        scan_from(a, i) matches Lexed::Token { ty, .. } && ty != TokenType::LeftBrace && ty
            != TokenType::Semicolon,
        element_at(a, i) matches Parsed::Done { value, .. } && value is Some,
        ({
            let e = within(a, failure_index(body_at(a, i)->Failed_0));
            &&& agree(a, b, e)
            &&& closes_or_ends(b, e + 1)
        }),
    ensures
        ({
            let e = within(a, failure_index(body_at(a, i)->Failed_0));
            &&& fix_body(a, i).len() == 0
            &&& body_at(b, i) matches Parsed::Done { value, next }
            &&& i < next <= e + 1
            &&& scan_from(b, next) == scan_from(b, e + 1)
            &&& scan_from(b, i) == scan_from(a, i)
        }),
{
    let e = within(a, failure_index(body_at(a, i)->Failed_0));
    let next = element_at(a, i)->next;
    lemma_scan_progress(a, i);
    lemma_element_progress(a, i);
    lemma_element_first_token(a, i);
    lemma_scan_progress(a, next);
    assert(scan_from(a, next) is Error);
    lemma_scan_resumes_at_stop(a, b, next);
    lemma_token_agrees(a, b, e, i);
    lemma_element_agrees(a, b, e, i);
}

/// A body that fails in `a` is whole in `b`, where `b` holds the text of `a`
/// up to the failure, a space and what makes the body whole, and the text
/// ends or `}` follows.
#[verifier::rlimit(50)]
pub proof fn lemma_body_fixed(a: Seq<char>, b: Seq<char>, i: int)
    requires
        0 <= i <= a.len() + 1,
        body_at(a, i) is Failed,
        ({
            let e = within(a, failure_index(body_at(a, i)->Failed_0));
            let p = e + 1 + fix_body(a, i).len();
            &&& agree(a, b, e)
            &&& has_at(b, e + 1, fix_body(a, i))
            &&& closes_or_ends(b, p)
        }),
    ensures
        ({
            let e = within(a, failure_index(body_at(a, i)->Failed_0));
            let p = e + 1 + fix_body(a, i).len();
            &&& body_at(b, i) matches Parsed::Done { value, next }
            &&& i < next <= p
            &&& scan_from(b, next) == scan_from(b, p)
            &&& next_is(b, i, TokenType::Text) ==> next_is(a, i, TokenType::Text)
        }),
    decreases a.len() + 2 - i, 3nat,
{
    let e = within(a, failure_index(body_at(a, i)->Failed_0));
    lemma_scan_progress(a, i);
    match scan_from(a, i) {
        Lexed::Error { fault, start, len } => {
            lemma_body_fixed_here(a, b, i);
        },
        Lexed::End { at } => {
            lemma_body_fixed_here(a, b, i);
        },
        Lexed::Token { ty, start, len } => {
            if ty == TokenType::LeftBrace {
                lemma_braces_fail_late(a, start + len);
                lemma_token_agrees(a, b, e, i);
                lemma_braces_fixed(a, b, start + len);
            } else if ty != TokenType::Semicolon {
                match element_at(a, i) {
                    Parsed::Failed(failure) => {
                        lemma_tag_fixed(a, b, i);
                    },
                    Parsed::Done { value, next } => {
                        if value is None {
                            lemma_body_fixed_here(a, b, i);
                        } else {
                            lemma_body_fixed_after(a, b, i);
                        }
                    },
                }
            }
        },
    }
}

/// A braced body that fails where it starts, at an error, at the end of the
/// text or at a token that starts no element, is whole in `b`, where `b`
/// holds `}` after the space and after what closes an open comment.
pub proof fn lemma_braces_fixed_here(a: Seq<char>, b: Seq<char>, i: int)
    requires
        0 <= i <= a.len() + 1,
        braces_at(a, i) is Failed,
        scan_from(a, i) is Error || scan_from(a, i) is End || (token_other_than(
            a,
            i,
            TokenType::RightBrace,
            TokenType::RightBrace,
        ) && starts_no_element(a, i)),
        ({
            let e = within(a, failure_index(braces_at(a, i)->Failed_0));
            &&& agree(a, b, e)
            &&& has_at(b, e + 1, fix_braces(a, i))
        }),
    ensures
        ({
            let e = within(a, failure_index(braces_at(a, i)->Failed_0));
            let p = e + 1 + fix_braces(a, i).len();
            &&& braces_at(b, i) matches Parsed::Done { value, next }
            &&& i < next
            &&& next == p
        }),
{
    let e = within(a, failure_index(braces_at(a, i)->Failed_0));
    lemma_scan_progress(a, i);
    let closing = open_comment(a, i);
    if !(scan_from(a, i) is End) {
        lemma_no_open_comment(a, i);
    }
    assert(fix_braces(a, i) =~= closing + seq!['}']);
    lemma_has_at_parts(b, e + 1, closing, seq!['}']);
    lemma_scan_resumes(a, b, i);
    let q = e + 1 + closing.len();
    assert(b[q] == seq!['}'][0]);
    lemma_scan_mark(b, q);
}

/// A braced body whose first element is a tag that fails in `a` is whole in
/// `b`, where `b` holds what makes the tag whole and `}`.
#[verifier::rlimit(50)]
pub proof fn lemma_braces_fixed_tag(a: Seq<char>, b: Seq<char>, i: int)
    requires
        0 <= i <= a.len(),
        braces_at(a, i) is Failed,
        next_is(a, i, TokenType::Text),
        tag_at(a, i) is Failed,
        ({
            let e = within(a, failure_index(braces_at(a, i)->Failed_0));
            let q = e + 1 + fix_tag(a, i).len();
            &&& agree(a, b, e)
            &&& has_at(b, e + 1, fix_braces(a, i))
            &&& tag_at(b, i) matches Parsed::Done { value, next }
            &&& i < next <= q
            &&& scan_from(b, next) == scan_from(b, q)
            &&& scan_from(b, i) == scan_from(a, i)
        }),
    ensures
        ({
            let e = within(a, failure_index(braces_at(a, i)->Failed_0));
            let p = e + 1 + fix_braces(a, i).len();
            &&& braces_at(b, i) matches Parsed::Done { value, next }
            &&& i < next
            &&& next == p
        }),
{
    let e = within(a, failure_index(braces_at(a, i)->Failed_0));
    let mend = fix_tag(a, i);
    let q = e + 1 + mend.len();
    assert(fix_braces(a, i) =~= mend + seq!['}']);
    lemma_has_at_parts(b, e + 1, mend, seq!['}']);
    assert(b[q] == seq!['}'][0]);
    lemma_scan_mark(b, q);
    let next = tag_at(b, i)->next;
    lemma_scan_progress(a, i);
    assert(braces_at(a, i)->Failed_0 == tag_at(a, i)->Failed_0);
    assert(scan_from(b, q) == (Lexed::Token { ty: TokenType::RightBrace, start: q, len: 1 }));
    assert(braces_at(b, next) == (Parsed::Done { value: Seq::<Node>::empty(), next: q + 1 }));
    assert(element_at(b, i) == (Parsed::Done {
        value: Some(Node::Tag(tag_at(b, i)->value)),
        next,
    }));
    assert(next <= b.len());
    assert(braces_at(b, i) == prepend(
        seq![Node::Tag(tag_at(b, i)->value)],
        braces_at(b, next),
    ));
}

/// A braced body whose first element is whole in both texts, the rest being
/// whole in `b`, is whole in `b`.
#[verifier::rlimit(50)]
pub proof fn lemma_braces_fixed_later(a: Seq<char>, b: Seq<char>, i: int)
    requires
        0 <= i <= a.len() + 1,
        braces_at(a, i) is Failed,
        scan_from(a, i) matches Lexed::Token { ty, .. } && ty != TokenType::RightBrace,
        element_at(a, i) matches Parsed::Done { value, .. } && value is Some,
        ({
            let e = within(a, failure_index(braces_at(a, i)->Failed_0));
            let p = e + 1 + fix_braces(a, i).len();
            let first = element_at(a, i)->next;
            &&& agree(a, b, e)
            &&& braces_at(b, first) matches Parsed::Done { value, next }
            &&& next == p
        }),
    ensures
        ({
            let e = within(a, failure_index(braces_at(a, i)->Failed_0));
            let p = e + 1 + fix_braces(a, i).len();
            &&& braces_at(b, i) matches Parsed::Done { value, next }
            &&& i < next
            &&& next == p
        }),
{
    let e = within(a, failure_index(braces_at(a, i)->Failed_0));
    let first = element_at(a, i)->next;
    lemma_scan_progress(a, i);
    lemma_element_progress(a, i);
    lemma_element_first_token(a, i);
    assert(braces_at(a, first) is Failed);
    lemma_braces_fail_late(a, first);
    lemma_braces_first_token(b, first);
    lemma_braces_progress(b, first);
    lemma_token_agrees(a, b, e, i);
    lemma_element_agrees(a, b, e, i);
}

/// A braced body that fails in `a` is whole in `b`, where `b` holds the text
/// of `a` up to the failure, a space and what makes the body whole.
#[verifier::rlimit(50)]
pub proof fn lemma_braces_fixed(a: Seq<char>, b: Seq<char>, i: int)
    requires
        0 <= i <= a.len() + 1,
        braces_at(a, i) is Failed,
        ({
            let e = within(a, failure_index(braces_at(a, i)->Failed_0));
            &&& agree(a, b, e)
            &&& has_at(b, e + 1, fix_braces(a, i))
        }),
    ensures
        ({
            let e = within(a, failure_index(braces_at(a, i)->Failed_0));
            let p = e + 1 + fix_braces(a, i).len();
            &&& braces_at(b, i) matches Parsed::Done { value, next }
            &&& i < next
            &&& next == p
        }),
    decreases a.len() + 2 - i, 4nat,
{
    let e = within(a, failure_index(braces_at(a, i)->Failed_0));
    lemma_scan_progress(a, i);
    match scan_from(a, i) {
        Lexed::Error { fault, start, len } => {
            lemma_braces_fixed_here(a, b, i);
        },
        Lexed::End { at } => {
            lemma_braces_fixed_here(a, b, i);
        },
        Lexed::Token { ty, start, len } => {
            if ty != TokenType::RightBrace {
                lemma_element_progress(a, i);
                match element_at(a, i) {
                    Parsed::Failed(failure) => {
                        let mend = fix_tag(a, i);
                        assert(fix_braces(a, i) =~= mend + seq!['}']);
                        lemma_has_at_parts(b, e + 1, mend, seq!['}']);
                        let q = e + 1 + mend.len();
                        assert(b[q] == seq!['}'][0]);
                        lemma_scan_mark(b, q);
                        lemma_tag_fixed(a, b, i);
                        lemma_braces_fixed_tag(a, b, i);
                    },
                    Parsed::Done { value, next } => {
                        if value is None {
                            lemma_braces_fixed_here(a, b, i);
                        } else {
                            lemma_braces_fixed(a, b, next);
                            lemma_braces_fixed_later(a, b, i);
                        }
                    },
                }
            }
        },
    }
}

/// Elements that fail at an error where they start are whole in `b`, where
/// `b` ends after the space.
pub proof fn lemma_elements_fixed_here(a: Seq<char>, b: Seq<char>, i: int)
    requires
        0 <= i <= a.len() + 1,
        elements_at(a, i) is Failed,
        scan_from(a, i) is Error,
        ({
            let e = within(a, failure_index(elements_at(a, i)->Failed_0));
            &&& agree(a, b, e)
            &&& b.len() == e + 1
        }),
    ensures
        elements_at(b, i) is Done,
        fix_elements(a, i).len() == 0,
        !(scan_from(b, i) is Error),
        !next_is(b, i, TokenType::Semicolon),
{
    lemma_scan_progress(a, i);
    lemma_scan_resumes_at_stop(a, b, i);
}

/// Elements whose first element is a tag that fails in `a` are whole in `b`,
/// where `b` ends after what makes the tag whole.
#[verifier::rlimit(50)]
pub proof fn lemma_elements_fixed_tag(a: Seq<char>, b: Seq<char>, i: int)
    requires
        0 <= i <= a.len(),
        elements_at(a, i) is Failed,
        next_is(a, i, TokenType::Text),
        tag_at(a, i) is Failed,
        ({
            let e = within(a, failure_index(elements_at(a, i)->Failed_0));
            let p = e + 1 + fix_tag(a, i).len();
            &&& b.len() == p
            &&& tag_at(b, i) matches Parsed::Done { value, next }
            &&& i < next <= p
            &&& scan_from(b, next) == scan_from(b, p)
            &&& scan_from(b, i) == scan_from(a, i)
        }),
    ensures
        elements_at(b, i) is Done,
{
    let next = tag_at(b, i)->next;
    assert(element_at(b, next) == (Parsed::Done { value: None::<Node>, next }));
    assert(elements_at(b, next) is Done);
}

/// Elements whose first element is whole in both texts, the rest being whole
/// in `b`, are whole in `b`.
#[verifier::rlimit(50)]
pub proof fn lemma_elements_fixed_later(a: Seq<char>, b: Seq<char>, i: int)
    requires
        0 <= i <= a.len() + 1,
        elements_at(a, i) is Failed,
        element_at(a, i) matches Parsed::Done { value, .. } && value is Some,
        ({
            let e = within(a, failure_index(elements_at(a, i)->Failed_0));
            let first = element_at(a, i)->next;
            &&& agree(a, b, e)
            &&& b.len() == e + 1 + fix_elements(a, i).len()
            &&& elements_at(b, first) is Done
        }),
    ensures
        elements_at(b, i) is Done,
{
    let e = within(a, failure_index(elements_at(a, i)->Failed_0));
    let first = element_at(a, i)->next;
    lemma_scan_progress(a, i);
    lemma_element_progress(a, i);
    lemma_element_first_token(a, i);
    assert(elements_at(a, first) is Failed);
    lemma_elements_fail_late(a, first);
    lemma_scan_progress(a, first);
    assert(keeps_semicolon(a, b, first)) by {
        match scan_from(a, first) {
            Lexed::Error { fault, start: bad, len: width } => {
                assert(fix_elements(a, first).len() == 0);
                lemma_elements_fixed_here(a, b, first);
            },
            Lexed::Token { ty: kind, start: from, len: width } => {
                lemma_element_first_token(a, first);
                lemma_element_fails_late(a, first);
                if let Parsed::Done { value: second, next: after } = element_at(a, first) {
                    lemma_elements_fail_late(a, after);
                }
                lemma_token_agrees(a, b, e, first);
            },
            Lexed::End { at } => {},
        }
    }
    lemma_token_agrees(a, b, e, i);
    lemma_element_agrees(a, b, e, i);
}

/// Elements that fail in `a` are whole in `b`, where `b` is the text of `a`
/// up to the failure, a space and what makes the elements whole.
#[verifier::rlimit(50)]
pub proof fn lemma_elements_fixed(a: Seq<char>, b: Seq<char>, i: int)
    requires
        0 <= i <= a.len() + 1,
        elements_at(a, i) is Failed,
        ({
            let e = within(a, failure_index(elements_at(a, i)->Failed_0));
            &&& agree(a, b, e)
            &&& has_at(b, e + 1, fix_elements(a, i))
            &&& b.len() == e + 1 + fix_elements(a, i).len()
        }),
    ensures
        elements_at(b, i) is Done,
    decreases a.len() + 2 - i,
{
    lemma_scan_progress(a, i);
    lemma_element_progress(a, i);
    match element_at(a, i) {
        Parsed::Failed(failure) => {
            if next_is(a, i, TokenType::Text) {
                lemma_tag_fixed(a, b, i);
                lemma_elements_fixed_tag(a, b, i);
            } else {
                lemma_elements_fixed_here(a, b, i);
            }
        },
        Parsed::Done { value, next } => {
            lemma_elements_fixed(a, b, next);
            lemma_elements_fixed_later(a, b, i);
        },
    }
}

/// Whether the text `t` parses: the pass over it ends without an error.
pub open spec fn parses(t: Seq<char>) -> bool {
    elements_at(t, 0) is Done
}

/// Whether the character at index `k` makes `src` unparsable: no text that
/// starts as `src` does, up to and with that character, parses.
pub open spec fn dooms(src: Seq<char>, k: int) -> bool {
    &&& 0 <= k < src.len()
    &&& forall|rest: Seq<char>| !parses(#[trigger] (src.take(k + 1) + rest))
}

/// The text before the place that an error is reported at can be continued
/// to a text that parses.
pub proof fn lemma_text_before_error_can_be_continued(src: Seq<char>)
    requires
        elements_at(src, 0) is Failed,
    ensures
        exists|rest: Seq<char>|
            parses(
                #[trigger] (src.take(within(src, failure_index(elements_at(src, 0)->Failed_0)))
                    + rest),
            ),
{
    lemma_elements_fail_late(src, 0);
    let e = within(src, failure_index(elements_at(src, 0)->Failed_0));
    let rest = seq![' '] + fix_elements(src, 0);
    let b = src.take(e) + rest;
    assert(has_at(b, e + 1, fix_elements(src, 0))) by {
        assert forall|j: int| 0 <= j < fix_elements(src, 0).len() implies b[e + 1 + j]
            == fix_elements(src, 0)[j] by {
            assert(b[e + 1 + j] == rest[1 + j]);
        }
    }
    assert(b[e] == rest[0]);
    lemma_elements_fixed(src, b, 0);
}

/// An error is never reported after the first character that makes the text
/// unparsable: the index that the error points at is at most the index of
/// any such character.
pub proof fn lemma_error_is_not_reported_late(src: Seq<char>, k: int)
    requires
        elements_at(src, 0) is Failed,
        dooms(src, k),
    ensures
        failure_index(elements_at(src, 0)->Failed_0) <= k,
{
    let index = failure_index(elements_at(src, 0)->Failed_0);
    if k < index {
        let e = within(src, index);
        lemma_text_before_error_can_be_continued(src);
        let rest = choose|rest: Seq<char>| parses(#[trigger] (src.take(e) + rest));
        lemma_regrouped(src, k + 1, e, rest);
    }
}

/// A text cut at `to` and continued is the text cut at `from` and continued
/// with what lies between and then the same.
pub proof fn lemma_regrouped(src: Seq<char>, from: int, to: int, rest: Seq<char>)
    requires
        0 <= from <= to <= src.len(),
    ensures
        src.take(from) + (src.subrange(from, to) + rest) == src.take(to) + rest,
{
    assert(src.take(from) + (src.subrange(from, to) + rest) =~= src.take(to) + rest);
}

} // verus!
