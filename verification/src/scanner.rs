//! The scanner: cuts the source text into tokens, one per call.

use vstd::prelude::*;
use crate::position::{lemma_span_steps, render, span_of, ErrorDisplay, ErrorSite, Position};
use crate::source::{lemma_line_end_bounds, line_end, Source};
use crate::text::decode;
use crate::token::{Token, TokenType, TokenView};

verus! {

/// Characters that may start a name.
pub open spec fn is_letter(c: char) -> bool {
    c == '_' || c == '-' || ('a' <= c && c <= 'z') || ('A' <= c && c <= 'Z')
}

/// The decimal digits.
pub open spec fn is_digit(c: char) -> bool {
    '0' <= c && c <= '9'
}

/// Characters that may continue a name.
pub open spec fn is_letter_or_digit(c: char) -> bool {
    is_letter(c) || is_digit(c)
}

/// Characters that separate tokens and are otherwise ignored.
pub open spec fn is_blank(c: char) -> bool {
    c == '\n' || c == '\r' || c == '\t' || c == ' '
}

/// The first index at or after `from` whose character `keep` rejects, or the
/// length of `src` where it accepts them all.
pub open spec fn run_end(src: Seq<char>, keep: spec_fn(char) -> bool, from: int) -> int
    decreases src.len() - from,
{
    if from < 0 || from >= src.len() {
        src.len() as int
    } else if keep(src[from]) {
        run_end(src, keep, from + 1)
    } else {
        from
    }
}

/// The index of the `close` that balances an opener standing before `from`,
/// `depth` further openers being unclosed at `from`; the length of `src` where
/// there is none.
pub open spec fn close_from(src: Seq<char>, open: char, close: char, from: int, depth: nat) -> int
    decreases src.len() - from,
{
    if from < 0 || from >= src.len() {
        src.len() as int
    } else if src[from] == open {
        close_from(src, open, close, from + 1, depth + 1)
    } else if src[from] == close {
        if depth == 0 {
            from
        } else {
            close_from(src, open, close, from + 1, (depth - 1) as nat)
        }
    } else {
        close_from(src, open, close, from + 1, depth)
    }
}

/// The index right after the first `*/` that starts at or after `from`, or the
/// length of `src` where the comment is never closed.
pub open spec fn block_comment_end(src: Seq<char>, from: int) -> int
    decreases src.len() - from,
{
    if from < 0 || from >= src.len() {
        src.len() as int
    } else if src[from] == '*' && from + 1 < src.len() && src[from + 1] == '/' {
        from + 2
    } else {
        block_comment_end(src, from + 1)
    }
}

/// The index right after the first newline at or after `from`, or the length
/// of `src` where the comment runs to the end of the text.
pub open spec fn line_comment_end(src: Seq<char>, from: int) -> int {
    let end = line_end(src, from);
    if end < src.len() {
        end + 1
    } else {
        src.len() as int
    }
}

/// Whether `src[from..to]` spells `js`.
pub open spec fn spells_js(src: Seq<char>, from: int, to: int) -> bool {
    to - from == 2 && src[from] == 'j' && src[from + 1] == 's'
}

/// Whether `src[from..to]` spells `css`.
pub open spec fn spells_css(src: Seq<char>, from: int, to: int) -> bool {
    to - from == 3 && src[from] == 'c' && src[from + 1] == 's' && src[from + 2] == 's'
}

/// What is wrong with the text at a lexical error.
pub enum LexFault {
    InvalidCharacter(char),
    MalformedString,
    MalformedHTML,
    MalformedJS,
    MalformedCSS,
}

/// What one call of the scanner finds.
pub enum Lexed {
    /// A token of kind `ty` that covers `src[start..start + len]`.
    Token { ty: TokenType, start: int, len: int },
    /// Nothing but blanks, comments and escapes up to the end of the text; the cursor stops at `at`.
    End { at: int },
    /// A lexical error in `src[start..start + len]`.
    Error { fault: LexFault, start: int, len: int },
}

/// What the scanner finds when its cursor stands at index `i` of `src`.
pub open spec fn scan_from(src: Seq<char>, i: int) -> Lexed
    decreases src.len() + 2 - i,
    via scan_from_decreases
{
    if i < 0 || i >= src.len() {
        Lexed::End { at: i }
    } else {
        let c = src[i];
        let n = src.len() as int;
        if c == '"' || c == '\'' {
            let close = run_end(src, |x: char| x != c, i + 1);
            if close < n {
                Lexed::Token { ty: TokenType::String, start: i, len: close + 1 - i }
            } else {
                Lexed::Error { fault: LexFault::MalformedString, start: i, len: n - i }
            }
        } else if c == '=' {
            Lexed::Token { ty: TokenType::Equal, start: i, len: 1 }
        } else if c == '{' {
            Lexed::Token { ty: TokenType::LeftBrace, start: i, len: 1 }
        } else if c == '}' {
            Lexed::Token { ty: TokenType::RightBrace, start: i, len: 1 }
        } else if c == ';' {
            Lexed::Token { ty: TokenType::Semicolon, start: i, len: 1 }
        } else if c == '/' && i + 1 < n && src[i + 1] == '*' {
            scan_from(src, block_comment_end(src, i + 2))
        } else if c == '/' && i + 1 < n && src[i + 1] == '/' {
            scan_from(src, line_comment_end(src, i + 2))
        } else if c == '<' {
            let close = close_from(src, '<', '>', i + 1, 0);
            if close < n {
                Lexed::Token { ty: TokenType::Html, start: i, len: close + 1 - i }
            } else {
                Lexed::Error { fault: LexFault::MalformedHTML, start: i, len: n - i }
            }
        } else if c == '\\' {
            scan_from(src, i + 2)
        } else if is_blank(c) {
            scan_from(src, i + 1)
        } else if is_letter(c) {
            let end = run_end(src, |x: char| is_letter_or_digit(x), i + 1);
            if spells_js(src, i, end) && end < n && src[end] == '{' {
                let close = close_from(src, '{', '}', end + 1, 0);
                if close < n {
                    Lexed::Token { ty: TokenType::Js, start: i, len: close + 1 - i }
                } else {
                    Lexed::Error { fault: LexFault::MalformedJS, start: i, len: n - i }
                }
            } else if spells_css(src, i, end) && end < n && src[end] == '{' {
                let close = close_from(src, '{', '}', end + 1, 0);
                if close < n {
                    Lexed::Token { ty: TokenType::Css, start: i, len: close + 1 - i }
                } else {
                    Lexed::Error { fault: LexFault::MalformedCSS, start: i, len: n - i }
                }
            } else {
                Lexed::Token { ty: TokenType::Text, start: i, len: end - i }
            }
        } else {
            Lexed::Error { fault: LexFault::InvalidCharacter(c), start: i, len: 1 }
        }
    }
}

#[via_fn]
proof fn scan_from_decreases(src: Seq<char>, i: int) {
    if 0 <= i && i + 2 <= src.len() {
        lemma_block_comment_end_bounds(src, i + 2);
        lemma_line_end_bounds(src, i + 2);
    }
}

/// A run ends at or after its start, and within the text.
pub proof fn lemma_run_end_bounds(src: Seq<char>, keep: spec_fn(char) -> bool, from: int)
    requires
        0 <= from <= src.len(),
    ensures
        from <= run_end(src, keep, from) <= src.len(),
        forall|j: int| from <= j < run_end(src, keep, from) ==> keep(#[trigger] src[j]),
        run_end(src, keep, from) < src.len() ==> !keep(src[run_end(src, keep, from)]),
    decreases src.len() - from,
{
    if from < src.len() && keep(src[from]) {
        lemma_run_end_bounds(src, keep, from + 1);
    }
}

/// A closer stands at or after the index the search started from.
pub proof fn lemma_close_from_bounds(
    src: Seq<char>,
    open: char,
    close: char,
    from: int,
    depth: nat,
)
    requires
        0 <= from <= src.len(),
    ensures
        from <= close_from(src, open, close, from, depth) <= src.len(),
    decreases src.len() - from,
{
    if from < src.len() {
        if src[from] == open {
            lemma_close_from_bounds(src, open, close, from + 1, depth + 1);
        } else if src[from] == close {
            if depth > 0 {
                lemma_close_from_bounds(src, open, close, from + 1, (depth - 1) as nat);
            }
        } else {
            lemma_close_from_bounds(src, open, close, from + 1, depth);
        }
    }
}

/// A block comment ends at or after the index the search started from.
pub proof fn lemma_block_comment_end_bounds(src: Seq<char>, from: int)
    requires
        0 <= from <= src.len(),
    ensures
        from <= block_comment_end(src, from) <= src.len(),
    decreases src.len() - from,
{
    if from < src.len() && !(src[from] == '*' && from + 1 < src.len() && src[from + 1] == '/') {
        lemma_block_comment_end_bounds(src, from + 1);
    }
}

/// A token or a faulty lexeme lies at or after the cursor and within the
/// text, a string token holds both its delimiters, and scanning again from
/// where the scanner stopped finds the same.
pub proof fn lemma_scan_progress(src: Seq<char>, i: int)
    ensures
        match scan_from(src, i) {
            Lexed::Token { ty, start, len } => {
                &&& 0 <= start
                &&& i <= start
                &&& 1 <= len
                &&& start + len <= src.len()
                &&& ty == TokenType::String ==> len >= 2
                &&& scan_from(src, start) == scan_from(src, i)
            },
            Lexed::End { at } => {
                &&& i <= at
                &&& i <= src.len() + 1 ==> at <= src.len() + 1
                &&& scan_from(src, at) == scan_from(src, i)
            },
            Lexed::Error { fault, start, len } => {
                &&& 0 <= start
                &&& i <= start
                &&& 1 <= len
                &&& start + len <= src.len()
                &&& scan_from(src, start) == scan_from(src, i)
            },
        },
    decreases src.len() + 2 - i,
{
    if 0 <= i < src.len() {
        let c = src[i];
        let n = src.len() as int;
        if c == '"' || c == '\'' {
            lemma_run_end_bounds(src, |x: char| x != c, i + 1);
        } else if c == '=' || c == '{' || c == '}' || c == ';' {
        } else if c == '/' && i + 1 < n && src[i + 1] == '*' {
            lemma_block_comment_end_bounds(src, i + 2);
            lemma_scan_progress(src, block_comment_end(src, i + 2));
        } else if c == '/' && i + 1 < n && src[i + 1] == '/' {
            lemma_line_end_bounds(src, i + 2);
            lemma_scan_progress(src, line_comment_end(src, i + 2));
        } else if c == '<' {
            lemma_close_from_bounds(src, '<', '>', i + 1, 0);
        } else if c == '\\' {
            lemma_scan_progress(src, i + 2);
        } else if is_blank(c) {
            lemma_scan_progress(src, i + 1);
        } else if is_letter(c) {
            let end = run_end(src, |x: char| is_letter_or_digit(x), i + 1);
            lemma_run_end_bounds(src, |x: char| is_letter_or_digit(x), i + 1);
            if end < n {
                lemma_close_from_bounds(src, '{', '}', end + 1, 0);
            }
        }
    }
}

/// Every token lies within the text, its lexeme is as long as its position
/// says, and its position does not end before it starts.
pub proof fn lemma_token_lies_in_text(src: Seq<char>, i: int)
    requires
        scan_from(src, i) is Token,
    ensures
        ({
            let token = token_at(
                src,
                scan_from(src, i)->ty,
                scan_from(src, i)->Token_start,
                scan_from(src, i)->Token_len,
            );
            &&& 0 <= token.pos.idx
            &&& 1 <= token.pos.len
            &&& token.pos.idx + token.pos.len <= src.len()
            &&& token.lexeme.len() == token.pos.len
            &&& token.pos.ordered()
        }),
{
    lemma_scan_progress(src, i);
    lemma_span_steps(src, scan_from(src, i)->Token_start, scan_from(src, i)->Token_len);
}

/// A string token starts with a quote, runs to the next occurrence of that
/// quote and ends with it.
pub proof fn lemma_string_token_shape(src: Seq<char>, i: int)
    requires
        scan_from(src, i) matches Lexed::Token { ty, start, len } && ty == TokenType::String
            && start == i,
    ensures
        0 <= i < src.len(),
        src[i] == '"' || src[i] == '\'',
        scan_from(src, i)->Token_len >= 2,
        i + scan_from(src, i)->Token_len <= src.len(),
        src[i + scan_from(src, i)->Token_len - 1] == src[i],
        forall|j: int| i < j < i + scan_from(src, i)->Token_len - 1 ==> src[j] != src[i],
{
    let c = src[i];
    let n = src.len() as int;
    if c == '"' || c == '\'' {
        lemma_run_end_bounds(src, |x: char| x != c, i + 1);
    } else if c == '/' && i + 1 < n && src[i + 1] == '*' {
        lemma_block_comment_end_bounds(src, i + 2);
        lemma_scan_progress(src, block_comment_end(src, i + 2));
    } else if c == '/' && i + 1 < n && src[i + 1] == '/' {
        lemma_line_end_bounds(src, i + 2);
        lemma_scan_progress(src, line_comment_end(src, i + 2));
    } else if c == '\\' {
        lemma_scan_progress(src, i + 2);
    } else if is_blank(c) {
        lemma_scan_progress(src, i + 1);
    }
}

/// The token of kind `ty` that covers `src[start..start + len]`.
pub open spec fn token_at(src: Seq<char>, ty: TokenType, start: int, len: int) -> TokenView {
    TokenView { ty, lexeme: src.subrange(start, start + len), pos: span_of(src, start, len) }
}

/// A lexical error, with the place it was found at.
#[derive(Debug)]
pub enum ScanError {
    InvalidCharacter(char, ErrorDisplay),
    MalformedString(ErrorDisplay),
    MalformedHTML(ErrorDisplay),
    MalformedJS(ErrorDisplay),
    MalformedCSS(ErrorDisplay),
}

/// The mathematical content of a [`ScanError`].
pub struct ScanErrorView {
    pub fault: LexFault,
    pub site: ErrorSite,
}

impl View for ScanError {
    type V = ScanErrorView;

    open spec fn view(&self) -> ScanErrorView {
        match self {
            ScanError::InvalidCharacter(c, d) => ScanErrorView {
                fault: LexFault::InvalidCharacter(*c),
                site: d@,
            },
            ScanError::MalformedString(d) => ScanErrorView {
                fault: LexFault::MalformedString,
                site: d@,
            },
            ScanError::MalformedHTML(d) => ScanErrorView { fault: LexFault::MalformedHTML, site: d@ },
            ScanError::MalformedJS(d) => ScanErrorView { fault: LexFault::MalformedJS, site: d@ },
            ScanError::MalformedCSS(d) => ScanErrorView { fault: LexFault::MalformedCSS, site: d@ },
        }
    }
}

/// What a lexical error says: what is wrong, then the diagnostic for its place.
pub open spec fn scan_message(error: ScanErrorView) -> Seq<char> {
    (match error.fault {
        LexFault::InvalidCharacter(c) => "Invalid character '"@.push(c) + "' at "@,
        LexFault::MalformedString => "Malformed string at "@,
        LexFault::MalformedHTML => "Malformed HTML at "@,
        LexFault::MalformedJS => "Malformed JS at "@,
        LexFault::MalformedCSS => "Malformed CSS at "@,
    }) + render(error.site)
}

impl ScanError {
    /// The place of the error.
    pub fn display(&self) -> (display: &ErrorDisplay)
        ensures
            display@ == self@.site,
    {
        match self {
            ScanError::InvalidCharacter(_, d) => d,
            ScanError::MalformedString(d) => d,
            ScanError::MalformedHTML(d) => d,
            ScanError::MalformedJS(d) => d,
            ScanError::MalformedCSS(d) => d,
        }
    }

    /// The error as text.
    pub fn message(&self) -> (text: String)
        ensures
            text@ == scan_message(self@),
    {
        let mut text = match self {
            ScanError::InvalidCharacter(c, _) => {
                let mut head = String::from_str("Invalid character '");
                head.push(*c);
                head.append("' at ");
                head
            },
            ScanError::MalformedString(_) => String::from_str("Malformed string at "),
            ScanError::MalformedHTML(_) => String::from_str("Malformed HTML at "),
            ScanError::MalformedJS(_) => String::from_str("Malformed JS at "),
            ScanError::MalformedCSS(_) => String::from_str("Malformed CSS at "),
        };
        let place = self.display().render();
        text.append(place.as_str());
        text
    }
}

/// The lexical error `fault` found in `src[start..start + len]`.
pub open spec fn fault_at(src: Seq<char>, fault: LexFault, start: int, len: int) -> ScanErrorView {
    ScanErrorView { fault, site: ErrorSite { pos: span_of(src, start, len), source: src } }
}

/// Whether `res` and the cursor index `cursor` are what a call of the scanner
/// gives whose cursor stood at index `from` of `src`. After an error the
/// cursor stands where the faulty lexeme starts.
pub open spec fn scanned(
    src: Seq<char>,
    from: int,
    res: Result<Option<Token>, ScanError>,
    cursor: int,
) -> bool {
    match scan_from(src, from) {
        Lexed::Token { ty, start, len } => {
            &&& res matches Ok(Some(t))
            &&& t@ == token_at(src, ty, start, len)
            &&& cursor == start + len
        },
        Lexed::End { at } => {
            &&& res matches Ok(None)
            &&& cursor == at
        },
        Lexed::Error { fault, start, len } => {
            &&& res matches Err(e)
            &&& e@ == fault_at(src, fault, start, len)
            &&& cursor == start
        },
    }
}

/// A scanner over one source text.
pub struct Scanner<'a> {
    src: &'a str,
    text: Vec<char>,
    pos: Position,
}

impl<'a> Scanner<'a> {
    /// The text being scanned.
    pub closed spec fn source(&self) -> Seq<char> {
        self.src@
    }

    /// The index of the character that the next call of [`Scanner::scan`] starts at.
    pub closed spec fn cursor(&self) -> int {
        self.pos.idx as int
    }

    /// The scanner's selection is `idx .. idx + len` of its text, recorded as
    /// growing and advancing from the start of the text records it.
    pub closed spec fn selects(&self, idx: int, len: int) -> bool {
        &&& self.text@ == self.src@
        &&& self.src@.len() + 3 <= usize::MAX
        &&& 1 <= len
        &&& 0 <= idx
        &&& idx + len <= self.src@.len() + 2
        &&& self.pos@ == span_of(self.src@, idx, len)
    }

    /// Between calls the scanner selects the one character at its cursor.
    pub open spec fn wf(&self) -> bool {
        self.selects(self.cursor(), 1)
    }

    /// The cursor of a well-formed scanner stands in the text or at most one past its end.
    pub proof fn lemma_cursor_bounds(&self)
        requires
            self.wf(),
        ensures
            0 <= self.cursor() <= self.source().len() + 1,
            self.source().len() + 3 <= usize::MAX,
    {
    }

    /// A scanner at the start of `src`.
    pub fn new(src: &'a str) -> (scanner: Self)
        requires
            src@.len() + 3 <= usize::MAX,
        ensures
            scanner.wf(),
            scanner.source() == src@,
            scanner.cursor() == 0,
    {
        Scanner { src, text: decode(src), pos: Position::new() }
    }

    /// The next token, or `None` at the end of the text.
    pub fn scan(&mut self) -> (res: Result<Option<Token>, ScanError>)
        requires
            old(self).wf(),
        ensures
            final(self).wf(),
            final(self).source() == old(self).source(),
            scanned(old(self).source(), old(self).cursor(), res, final(self).cursor()),
    {
        loop
            invariant
                self.wf(),
                self.source() == old(self).source(),
                scan_from(self.source(), self.cursor()) == scan_from(
                    old(self).source(),
                    old(self).cursor(),
                ),
            decreases self.source().len() + 2 - self.cursor(),
        {
            let c = match self.text.get_char(&self.pos) {
                Some(c) => c,
                None => {
                    return Ok(None);
                },
            };
            if c == '"' || c == '\'' {
                return self.string_token();
            } else if c == '=' {
                return Ok(self.token(TokenType::Equal));
            } else if c == '{' {
                return Ok(self.token(TokenType::LeftBrace));
            } else if c == '}' {
                return Ok(self.token(TokenType::RightBrace));
            } else if c == ';' {
                return Ok(self.token(TokenType::Semicolon));
            } else if c == '/' && self.if_next('*') {
                proof {
                    lemma_block_comment_end_bounds(self.src@, self.pos.idx + 2);
                }
                self.multiline_comment();
            } else if c == '/' && self.if_next('/') {
                proof {
                    lemma_line_end_bounds(self.src@, self.pos.idx + 2);
                }
                self.singleline_comment();
            } else if c == '<' {
                return self.html_token();
            } else if c == '\\' {
                proof {
                    lemma_span_steps(self.src@, self.pos.idx as int, 1);
                    lemma_span_steps(self.src@, self.pos.idx as int, 2);
                }
                self.pos.extend(&self.text);
                self.pos.advance(&self.text);
            } else if c == '\n' || c == '\r' || c == '\t' || c == ' ' {
                proof {
                    lemma_span_steps(self.src@, self.pos.idx as int, 1);
                }
                self.pos.advance(&self.text);
            } else if Self::is_letter(c) {
                return self.text_token();
            } else {
                proof {
                    lemma_span_steps(self.src@, self.pos.idx as int, 1);
                }
                return Err(ScanError::InvalidCharacter(c, self.pos.for_error(self.src)));
            }
        }
    }

    /// Skips the rest of a block comment whose `/*` is selected.
    fn multiline_comment(&mut self)
        requires
            old(self).selects(old(self).pos.idx as int, 2),
            old(self).pos.idx + 2 <= old(self).src@.len(),
        ensures
            final(self).wf(),
            final(self).src == old(self).src,
            final(self).pos.idx == block_comment_end(old(self).src@, old(self).pos.idx + 2),
    {
        loop
            invariant
                self.src == old(self).src,
                self.pos.idx == old(self).pos.idx,
                self.selects(self.pos.idx as int, self.pos.len as int),
                self.pos.len >= 2,
                self.pos.idx + self.pos.len <= self.src@.len(),
                block_comment_end(self.src@, self.pos.idx + self.pos.len) == block_comment_end(
                    self.src@,
                    self.pos.idx + 2,
                ),
            decreases self.src@.len() - self.pos.len,
        {
            proof {
                lemma_span_steps(self.src@, self.pos.idx as int, self.pos.len as int);
                lemma_span_steps(self.src@, self.pos.idx as int, self.pos.len + 1);
                lemma_span_steps(self.src@, self.pos.idx as int, self.pos.len + 2);
            }
            match self.text.peek_next(&self.pos) {
                None => {
                    self.pos.advance(&self.text);
                    return ;
                },
                Some(c) => {
                    self.pos.extend(&self.text);
                    if c == '*' {
                        match self.text.peek_next(&self.pos) {
                            Some(d) => {
                                if d == '/' {
                                    self.pos.extend(&self.text);
                                    self.pos.advance(&self.text);
                                    return ;
                                }
                            },
                            None => {},
                        }
                    }
                },
            }
        }
    }

    /// Skips the rest of a line comment whose `//` is selected, with the newline that ends it.
    fn singleline_comment(&mut self)
        requires
            old(self).selects(old(self).pos.idx as int, 2),
            old(self).pos.idx + 2 <= old(self).src@.len(),
        ensures
            final(self).wf(),
            final(self).src == old(self).src,
            final(self).pos.idx == line_comment_end(old(self).src@, old(self).pos.idx + 2),
    {
        loop
            invariant
                self.src == old(self).src,
                self.pos.idx == old(self).pos.idx,
                self.selects(self.pos.idx as int, self.pos.len as int),
                self.pos.len >= 2,
                self.pos.idx + self.pos.len <= self.src@.len(),
                line_end(self.src@, self.pos.idx + self.pos.len) == line_end(
                    self.src@,
                    self.pos.idx + 2,
                ),
            decreases self.src@.len() - self.pos.len,
        {
            proof {
                lemma_span_steps(self.src@, self.pos.idx as int, self.pos.len as int);
                lemma_span_steps(self.src@, self.pos.idx as int, self.pos.len + 1);
            }
            match self.text.peek_next(&self.pos) {
                None => {
                    self.pos.advance(&self.text);
                    return ;
                },
                Some(c) => {
                    self.pos.extend(&self.text);
                    if c == '\n' {
                        self.pos.advance(&self.text);
                        return ;
                    }
                },
            }
        }
    }

    /// Scans a string literal whose opening delimiter is at the cursor.
    fn string_token(&mut self) -> (res: Result<Option<Token>, ScanError>)
        requires
            old(self).wf(),
            old(self).pos.idx < old(self).src@.len(),
            old(self).src@[old(self).pos.idx as int] == '"' || old(self).src@[old(
                self,
            ).pos.idx as int] == '\'',
        ensures
            final(self).wf(),
            final(self).src == old(self).src,
            scanned(old(self).src@, old(self).pos.idx as int, res, final(self).pos.idx as int),
    {
        let begin = self.pos;
        let delimiter = self.text[self.pos.idx];
        let differs = |c: char| -> (keep: bool)
            ensures
                keep == (c != delimiter),
            { c != delimiter };
        self.extend_while(differs, Ghost(|c: char| c != delimiter));
        proof {
            lemma_span_steps(self.src@, self.pos.idx as int, self.pos.len as int);
            lemma_span_steps(self.src@, self.pos.idx as int, self.pos.len + 1);
        }
        match self.text.peek_next(&self.pos) {
            None => {
                let display = self.pos.for_error(self.src);
                self.pos = begin;
                Err(ScanError::MalformedString(display))
            },
            Some(_) => {
                self.pos.extend(&self.text);
                Ok(self.token(TokenType::String))
            },
        }
    }

    /// Grows the selection up to the `close` that balances an opener already
    /// selected, or to the end of the text.
    fn balance(&mut self, open: char, close: char)
        requires
            old(self).selects(old(self).pos.idx as int, old(self).pos.len as int),
            old(self).pos.idx + old(self).pos.len <= old(self).src@.len(),
        ensures
            final(self).src == old(self).src,
            final(self).pos.idx == old(self).pos.idx,
            final(self).selects(final(self).pos.idx as int, final(self).pos.len as int),
            final(self).pos.idx + final(self).pos.len == close_from(
                old(self).src@,
                open,
                close,
                old(self).pos.idx + old(self).pos.len,
                0,
            ),
            final(self).pos.idx + final(self).pos.len <= final(self).src@.len(),
    {
        let mut depth: usize = 0;
        loop
            invariant
                self.src == old(self).src,
                self.pos.idx == old(self).pos.idx,
                self.selects(self.pos.idx as int, self.pos.len as int),
                self.pos.idx + self.pos.len <= self.src@.len(),
                depth <= self.pos.len,
                close_from(
                    self.src@,
                    open,
                    close,
                    self.pos.idx + self.pos.len,
                    depth as nat,
                ) == close_from(
                    self.src@,
                    open,
                    close,
                    old(self).pos.idx + old(self).pos.len,
                    0,
                ),
            decreases self.src@.len() - self.pos.len,
        {
            proof {
                lemma_span_steps(self.src@, self.pos.idx as int, self.pos.len as int);
            }
            match self.text.peek_next(&self.pos) {
                None => {
                    return ;
                },
                Some(c) => {
                    if c == open {
                        depth += 1;
                    } else if c == close {
                        if depth == 0 {
                            return ;
                        }
                        depth -= 1;
                    }
                    self.pos.extend(&self.text);
                },
            }
        }
    }

    /// Closes a token that [`Scanner::balance`] has grown: a token of kind `ty`
    /// where the closer was found, else the place of the unclosed lexeme.
    fn balanced_token(&mut self, begin: Position, ty: TokenType) -> (res: Result<
        Option<Token>,
        ErrorDisplay,
    >)
        requires
            old(self).selects(old(self).pos.idx as int, old(self).pos.len as int),
            old(self).pos.idx + old(self).pos.len <= old(self).src@.len(),
            begin@ == span_of(old(self).src@, old(self).pos.idx as int, 1),
        ensures
            final(self).wf(),
            final(self).src == old(self).src,
            old(self).pos.idx + old(self).pos.len < old(self).src@.len() ==> {
                &&& res matches Ok(Some(t))
                &&& t@ == token_at(
                    old(self).src@,
                    ty,
                    old(self).pos.idx as int,
                    old(self).pos.len + 1,
                )
                &&& final(self).pos.idx == old(self).pos.idx + old(self).pos.len + 1
            },
            old(self).pos.idx + old(self).pos.len == old(self).src@.len() ==> {
                &&& res matches Err(display)
                &&& display@ == (ErrorSite {
                    pos: span_of(
                        old(self).src@,
                        old(self).pos.idx as int,
                        old(self).pos.len as int,
                    ),
                    source: old(self).src@,
                })
                &&& final(self).pos.idx == old(self).pos.idx
            },
    {
        proof {
            lemma_span_steps(self.src@, self.pos.idx as int, self.pos.len as int);
        }
        match self.text.peek_next(&self.pos) {
            None => {
                let display = self.pos.for_error(self.src);
                self.pos = begin;
                Err(display)
            },
            Some(_) => {
                self.pos.extend(&self.text);
                Ok(self.token(ty))
            },
        }
    }

    /// Scans a raw block whose `<` is at the cursor.
    fn html_token(&mut self) -> (res: Result<Option<Token>, ScanError>)
        requires
            old(self).wf(),
            old(self).pos.idx < old(self).src@.len(),
            old(self).src@[old(self).pos.idx as int] == '<',
        ensures
            final(self).wf(),
            final(self).src == old(self).src,
            scanned(old(self).src@, old(self).pos.idx as int, res, final(self).pos.idx as int),
    {
        let begin = self.pos;
        self.balance('<', '>');
        match self.balanced_token(begin, TokenType::Html) {
            Ok(token) => Ok(token),
            Err(display) => Err(ScanError::MalformedHTML(display)),
        }
    }

    /// Scans a name that starts at the cursor, or the opaque block that the
    /// names `js` and `css` open when `{` follows them.
    fn text_token(&mut self) -> (res: Result<Option<Token>, ScanError>)
        requires
            old(self).wf(),
            old(self).pos.idx < old(self).src@.len(),
            is_letter(old(self).src@[old(self).pos.idx as int]),
        ensures
            final(self).wf(),
            final(self).src == old(self).src,
            scanned(old(self).src@, old(self).pos.idx as int, res, final(self).pos.idx as int),
    {
        let begin = self.pos;
        self.extend_while(Self::is_letter_or_digit, Ghost(|c: char| is_letter_or_digit(c)));
        let braced = match self.text.peek_next(&self.pos) {
            Some(c) => c == '{',
            None => false,
        };
        let i = self.pos.idx;
        if braced && self.pos.len == 2 && self.text[i] == 'j' && self.text[i + 1] == 's' {
            self.parse_js(begin)
        } else if braced && self.pos.len == 3 && self.text[i] == 'c' && self.text[i + 1] == 's'
            && self.text[i + 2] == 's' {
            self.parse_css(begin)
        } else {
            Ok(self.token(TokenType::Text))
        }
    }

    /// Scans the block of a `js{` whose name is selected.
    fn parse_js(&mut self, begin: Position) -> (res: Result<Option<Token>, ScanError>)
        requires
            old(self).selects(old(self).pos.idx as int, old(self).pos.len as int),
            old(self).pos.idx + old(self).pos.len < old(self).src@.len(),
            begin@ == span_of(old(self).src@, old(self).pos.idx as int, 1),
        ensures
            final(self).wf(),
            final(self).src == old(self).src,
            opaque_block(
                old(self).src@,
                old(self).pos.idx as int,
                old(self).pos.idx + old(self).pos.len,
                TokenType::Js,
                LexFault::MalformedJS,
                res,
                final(self).pos.idx as int,
            ),
    {
        proof {
            lemma_span_steps(self.src@, self.pos.idx as int, self.pos.len as int);
        }
        self.pos.extend(&self.text);
        self.balance('{', '}');
        match self.balanced_token(begin, TokenType::Js) {
            Ok(token) => Ok(token),
            Err(display) => Err(ScanError::MalformedJS(display)),
        }
    }

    /// Scans the block of a `css{` whose name is selected.
    fn parse_css(&mut self, begin: Position) -> (res: Result<Option<Token>, ScanError>)
        requires
            old(self).selects(old(self).pos.idx as int, old(self).pos.len as int),
            old(self).pos.idx + old(self).pos.len < old(self).src@.len(),
            begin@ == span_of(old(self).src@, old(self).pos.idx as int, 1),
        ensures
            final(self).wf(),
            final(self).src == old(self).src,
            opaque_block(
                old(self).src@,
                old(self).pos.idx as int,
                old(self).pos.idx + old(self).pos.len,
                TokenType::Css,
                LexFault::MalformedCSS,
                res,
                final(self).pos.idx as int,
            ),
    {
        proof {
            lemma_span_steps(self.src@, self.pos.idx as int, self.pos.len as int);
        }
        self.pos.extend(&self.text);
        self.balance('{', '}');
        match self.balanced_token(begin, TokenType::Css) {
            Ok(token) => Ok(token),
            Err(display) => Err(ScanError::MalformedCSS(display)),
        }
    }

    /// Grows the selection over the characters that `func` accepts.
    fn extend_while<F: Fn(char) -> bool>(&mut self, func: F, Ghost(keep): Ghost<spec_fn(char) -> bool>)
        requires
            old(self).selects(old(self).pos.idx as int, old(self).pos.len as int),
            old(self).pos.idx + old(self).pos.len <= old(self).src@.len(),
            forall|c: char| func.requires((c,)),
            forall|c: char, r: bool| func.ensures((c,), r) ==> r == keep(c),
        ensures
            final(self).src == old(self).src,
            final(self).pos.idx == old(self).pos.idx,
            final(self).selects(final(self).pos.idx as int, final(self).pos.len as int),
            final(self).pos.idx + final(self).pos.len == run_end(
                old(self).src@,
                keep,
                old(self).pos.idx + old(self).pos.len,
            ),
            final(self).pos.idx + final(self).pos.len <= final(self).src@.len(),
    {
        loop
            invariant
                self.src == old(self).src,
                self.pos.idx == old(self).pos.idx,
                self.selects(self.pos.idx as int, self.pos.len as int),
                self.pos.idx + self.pos.len <= self.src@.len(),
                forall|c: char| func.requires((c,)),
                forall|c: char, r: bool| func.ensures((c,), r) ==> r == keep(c),
                run_end(self.src@, keep, self.pos.idx + self.pos.len) == run_end(
                    self.src@,
                    keep,
                    old(self).pos.idx + old(self).pos.len,
                ),
            decreases self.src@.len() - self.pos.len,
        {
            proof {
                lemma_span_steps(self.src@, self.pos.idx as int, self.pos.len as int);
            }
            match self.text.peek_next(&self.pos) {
                None => {
                    return ;
                },
                Some(c) => {
                    if !func(c) {
                        return ;
                    }
                    self.pos.extend(&self.text);
                },
            }
        }
    }

    /// Whether `c` follows the selection; if so, the selection grows over it.
    fn if_next(&mut self, c: char) -> (found: bool)
        requires
            old(self).selects(old(self).pos.idx as int, old(self).pos.len as int),
            old(self).pos.idx + old(self).pos.len <= old(self).src@.len(),
        ensures
            final(self).src == old(self).src,
            final(self).pos.idx == old(self).pos.idx,
            found == (old(self).pos.idx + old(self).pos.len < old(self).src@.len() && old(
                self,
            ).src@[old(self).pos.idx + old(self).pos.len] == c),
            final(self).pos.len == old(self).pos.len + (if found {
                1int
            } else {
                0int
            }),
            final(self).selects(final(self).pos.idx as int, final(self).pos.len as int),
    {
        proof {
            lemma_span_steps(self.src@, self.pos.idx as int, self.pos.len as int);
        }
        match self.text.peek_next(&self.pos) {
            Some(next) => {
                if next == c {
                    self.pos.extend(&self.text);
                    true
                } else {
                    false
                }
            },
            None => false,
        }
    }

    /// The diagnostic for `pos` in the scanner's text.
    pub fn pos_error(&self, pos: &Position) -> (display: ErrorDisplay)
        requires
            pos@.ordered(),
        ensures
            display@ == (ErrorSite { pos: pos@, source: self.source() }),
    {
        pos.for_error(self.src)
    }

    /// The scanner's cursor.
    pub fn pos(&self) -> (pos: Position)
        requires
            self.wf(),
        ensures
            pos@ == span_of(self.source(), self.cursor(), 1),
            pos@.ordered(),
    {
        proof {
            lemma_span_steps(self.src@, self.pos.idx as int, 1);
        }
        self.pos
    }

    /// The token of kind `ty` that covers the selection; the cursor moves past it.
    fn token(&mut self, ty: TokenType) -> (res: Option<Token>)
        requires
            old(self).selects(old(self).pos.idx as int, old(self).pos.len as int),
            old(self).pos.idx + old(self).pos.len <= old(self).src@.len(),
        ensures
            final(self).wf(),
            final(self).src == old(self).src,
            final(self).pos.idx == old(self).pos.idx + old(self).pos.len,
            res matches Some(t) && t@ == token_at(
                old(self).src@,
                ty,
                old(self).pos.idx as int,
                old(self).pos.len as int,
            ),
    {
        proof {
            lemma_span_steps(self.src@, self.pos.idx as int, self.pos.len as int);
        }
        let token = Token { ty, lexeme: self.text.get_str(&self.pos), pos: self.pos };
        self.pos.advance(&self.text);
        Some(token)
    }

    /// Whether `c` may start a name.
    fn is_letter(c: char) -> (b: bool)
        ensures
            b == is_letter(c),
    {
        c == '_' || c == '-' || ('a' <= c && c <= 'z') || ('A' <= c && c <= 'Z')
    }

    /// Whether `c` is a decimal digit.
    fn is_digit(c: char) -> (b: bool)
        ensures
            b == is_digit(c),
    {
        '0' <= c && c <= '9'
    }

    /// Whether `c` may continue a name.
    fn is_letter_or_digit(c: char) -> (b: bool)
        ensures
            b == is_letter_or_digit(c),
    {
        Self::is_letter(c) || Self::is_digit(c)
    }
}

/// Whether `res` and `cursor` are what the scanner gives for the block that
/// the `{` at index `brace` opens, the name before it starting at `start`.
pub open spec fn opaque_block(
    src: Seq<char>,
    start: int,
    brace: int,
    ty: TokenType,
    fault: LexFault,
    res: Result<Option<Token>, ScanError>,
    cursor: int,
) -> bool {
    let close = close_from(src, '{', '}', brace + 1, 0);
    if close < src.len() {
        &&& res matches Ok(Some(t))
        &&& t@ == token_at(src, ty, start, close + 1 - start)
        &&& cursor == close + 1
    } else {
        &&& res matches Err(e)
        &&& e@ == fault_at(src, fault, start, src.len() - start)
        &&& cursor == start
    }
}

} // verus!
