//! Positions: selections of source text with line and column bookkeeping.

use vstd::prelude::*;
use crate::source::{covered_lines, Source};
use crate::text::{push_repeated, repeated};

verus! {

/// The mathematical content of a [`Position`]: a selection `idx .. idx + len`
/// of the source characters, with the line and column recorded for its start
/// and for its end.
pub struct Span {
    pub idx: int,
    pub len: int,
    pub start_ln: int,
    pub start_cn: int,
    pub end_ln: int,
    pub end_cn: int,
}

impl Span {
    /// The selection before anything was read: the first character, on line 1.
    pub open spec fn origin() -> Span {
        Span { idx: 0, len: 1, start_ln: 1, start_cn: 1, end_ln: 1, end_cn: 2 }
    }

    /// Whether the last selected character is a newline of `src`.
    pub open spec fn ends_in_newline(self, src: Seq<char>) -> bool {
        let last = self.idx + self.len - 1;
        0 <= last < src.len() && src[last] == '\n'
    }

    /// The selection grown by one character. Its end moves one column on, or
    /// to column 1 of the next line where the last selected character was a newline.
    pub open spec fn extended(self, src: Seq<char>) -> Span {
        if self.ends_in_newline(src) {
            Span { len: self.len + 1, end_ln: self.end_ln + 1, end_cn: 1, ..self }
        } else {
            Span { len: self.len + 1, end_cn: self.end_cn + 1, ..self }
        }
    }

    /// The one-character selection right after this one.
    pub open spec fn advanced(self, src: Seq<char>) -> Span {
        let grown = self.extended(src);
        Span {
            idx: self.idx + self.len,
            len: 1,
            start_ln: grown.end_ln,
            start_cn: grown.end_cn,
            end_ln: grown.end_ln,
            end_cn: grown.end_cn,
        }
    }

    /// Lines and columns count from 1, and the start does not lie after the end.
    pub open spec fn ordered(self) -> bool {
        &&& 1 <= self.start_ln <= self.end_ln
        &&& 1 <= self.start_cn
        &&& self.start_ln == self.end_ln ==> self.start_cn <= self.end_cn
    }
}

/// The line and column that a selection's end carries when its last character
/// is the one at index `k`, the selection having grown there from
/// [`Span::origin`] one character at a time.
pub open spec fn end_mark(src: Seq<char>, k: int) -> (int, int)
    decreases k,
{
    if k <= 0 {
        (1, 2)
    } else {
        let before = end_mark(src, k - 1);
        if k - 1 < src.len() && src[k - 1] == '\n' {
            (before.0 + 1, 1)
        } else {
            (before.0, before.1 + 1)
        }
    }
}

/// The selection `idx .. idx + len` of `src` as the scanner's cursor records it.
pub open spec fn span_of(src: Seq<char>, idx: int, len: int) -> Span {
    let start = if idx <= 0 {
        (1, 1)
    } else {
        end_mark(src, idx)
    };
    let end = end_mark(src, idx + len - 1);
    Span { idx, len, start_ln: start.0, start_cn: start.1, end_ln: end.0, end_cn: end.1 }
}

/// A line never has a number below 1 nor above the count of characters before
/// it plus one; the same holds of columns, shifted by one.
pub proof fn lemma_end_mark_bounds(src: Seq<char>, k: int)
    ensures
        1 <= end_mark(src, k).0 <= (if k <= 0 { 1 } else { k + 1 }),
        1 <= end_mark(src, k).1 <= (if k <= 0 { 2 } else { k + 2 }),
    decreases k,
{
    if k > 0 {
        lemma_end_mark_bounds(src, k - 1);
    }
}

/// End marks do not go backwards as the selection grows.
pub proof fn lemma_end_mark_monotonic(src: Seq<char>, j: int, k: int)
    requires
        j <= k,
    ensures
        end_mark(src, j).0 <= end_mark(src, k).0,
        end_mark(src, j).0 == end_mark(src, k).0 ==> end_mark(src, j).1 <= end_mark(src, k).1,
    decreases k - j,
{
    if j < k {
        lemma_end_mark_monotonic(src, j, k - 1);
        lemma_end_mark_bounds(src, k - 1);
        if k <= 0 {
            assert(end_mark(src, j) == end_mark(src, k));
        }
    }
}

/// Growing the selection `idx .. idx + len` by one character gives the selection
/// `idx .. idx + len + 1`, and advancing past it gives the character after it.
/// The selection is ordered, and its end line and column are bounded by the
/// index it ends at.
pub proof fn lemma_span_steps(src: Seq<char>, idx: int, len: int)
    requires
        0 <= idx,
        1 <= len,
    ensures
        span_of(src, idx, len).extended(src) == span_of(src, idx, len + 1),
        span_of(src, idx, len).advanced(src) == span_of(src, idx + len, 1),
        span_of(src, idx, len).ordered(),
        span_of(src, idx, len).end_ln <= idx + len,
        span_of(src, idx, len).end_cn <= idx + len + 1,
{
    lemma_end_mark_bounds(src, idx);
    lemma_end_mark_bounds(src, idx + len - 1);
    lemma_end_mark_monotonic(src, idx, idx + len - 1);
}

/// A selection in the source text.
#[derive(Debug, Clone, Copy, PartialEq, Eq)]
pub struct Position {
    pub idx: usize,
    pub len: usize,
    pub start_ln: usize,
    pub start_cn: usize,
    pub end_ln: usize,
    pub end_cn: usize,
}

impl View for Position {
    type V = Span;

    open spec fn view(&self) -> Span {
        Span {
            idx: self.idx as int,
            len: self.len as int,
            start_ln: self.start_ln as int,
            start_cn: self.start_cn as int,
            end_ln: self.end_ln as int,
            end_cn: self.end_cn as int,
        }
    }
}

impl Default for Position {
    /// The position of the first character.
    fn default() -> (pos: Position)
        ensures
            pos@ == Span::origin(),
    {
        Position { idx: 0, len: 1, start_ln: 1, start_cn: 1, end_ln: 1, end_cn: 2 }
    }
}

impl Position {
    /// The position of the first character.
    pub fn new() -> (pos: Position)
        ensures
            pos@ == Span::origin(),
    {
        Position { idx: 0, len: 1, start_ln: 1, start_cn: 1, end_ln: 1, end_cn: 2 }
    }

    /// Grows the selection by one character.
    pub fn extend<S: Source + ?Sized>(&mut self, source: &S)
        requires
            1 <= old(self).idx + old(self).len <= usize::MAX,
            old(self).len < usize::MAX,
            old(self).end_ln < usize::MAX,
            old(self).end_cn < usize::MAX,
        ensures
            final(self)@ == old(self)@.extended(source.text()),
    {
        let last = source.get_char(self);
        let newline = match last {
            Some(c) => c == '\n',
            None => false,
        };
        self.len += 1;
        self.end_cn += 1;
        if newline {
            self.end_cn = 1;
            self.end_ln += 1;
        }
    }

    /// Moves the selection to the one character right after it.
    pub fn advance<S: Source + ?Sized>(&mut self, source: &S)
        requires
            1 <= old(self).idx + old(self).len <= usize::MAX,
            old(self).len < usize::MAX,
            old(self).end_ln < usize::MAX,
            old(self).end_cn < usize::MAX,
        ensures
            final(self)@ == old(self)@.advanced(source.text()),
    {
        self.extend(source);
        self.idx += self.len - 1;
        self.start_cn = self.end_cn;
        self.start_ln = self.end_ln;
        self.len = 1;
    }

    /// The start of the selection as text: line, `:`, column.
    pub fn label(&self) -> (text: String)
        ensures
            text@ == digits(self.start_ln as nat) + seq![':'] + digits(self.start_cn as nat),
    {
        proof {
            reveal_strlit(":");
        }
        let mut text = String::new();
        push_decimal(&mut text, self.start_ln);
        text.append(":");
        push_decimal(&mut text, self.start_cn);
        text
    }

    /// This position together with the text it lies in, for a diagnostic.
    pub fn for_error(&self, src: &str) -> (display: ErrorDisplay)
        requires
            self@.ordered(),
        ensures
            display@ == (ErrorSite { pos: self@, source: src@ }),
    {
        ErrorDisplay(*self, String::from_str(src))
    }
}

/// The mathematical content of an [`ErrorDisplay`].
pub struct ErrorSite {
    pub pos: Span,
    pub source: Seq<char>,
}

/// A position and the whole source text it lies in: what a diagnostic is rendered from.
#[derive(Debug)]
pub struct ErrorDisplay(Position, String);

impl View for ErrorDisplay {
    type V = ErrorSite;

    closed spec fn view(&self) -> ErrorSite {
        ErrorSite { pos: self.0@, source: self.1@ }
    }
}

impl ErrorDisplay {
    /// The position held is ordered, so that rendering never counts backwards.
    #[verifier::type_invariant]
    spec fn ordered(self) -> bool {
        self.0@.ordered()
    }

    /// The position of the error.
    pub fn position(&self) -> (pos: Position)
        ensures
            pos@ == self@.pos,
            pos@.ordered(),
    {
        proof {
            use_type_invariant(self);
        }
        self.0
    }

    /// The source text that the error lies in.
    pub fn source(&self) -> (src: &str)
        ensures
            src@ == self@.source,
    {
        self.1.as_str()
    }

    /// The diagnostic as text: where the error lies, a line of arrows over
    /// it, and the source lines it covers, each behind its line number.
    pub fn render(&self) -> (out: String)
        ensures
            out@ == render(self@),
    {
        proof {
            use_type_invariant(self);
        }
        let pos = self.0;
        let ghost site = self@;
        let width = digit_count(pos.end_ln);
        let lines = Source::get_lines(self.1.as_str(), &pos);
        let mut out = String::new();
        push_header(&mut out, &pos);
        push_arrow_line(&mut out, &pos);
        let ghost top = out@;
        assert(top =~= header(site.pos) + arrow_line(site.pos));
        let ghost covered = covered_lines(site.source, site.pos);
        let mut k: usize = 0;
        assert(covered.take(0) =~= Seq::<Seq<char>>::empty());
        while k < lines.len()
            invariant
                k <= lines.len(),
                lines.deep_view() == covered,
                covered.len() <= pos.end_ln - pos.start_ln + 1,
                1 <= pos.start_ln <= pos.end_ln,
                out@ == top + gutter(covered.take(k as int), pos.start_ln as int, width as nat),
            decreases lines.len() - k,
        {
            assert(covered.take(k + 1).drop_last() =~= covered.take(k as int));
            assert(covered.take(k + 1).last() == lines[k as int]@);
            push_gutter_line(&mut out, pos.start_ln + k, lines[k].as_str(), width);
            k += 1;
        }
        assert(covered.take(k as int) =~= covered);
        push_repeated(&mut out, ' ', width);
        proof {
            reveal_strlit(" |\n");
        }
        out.append(" |\n");
        assert(out@ =~= render(site));
        out
    }
}

/// Appends the first line of the diagnostic for `pos` to `out`.
fn push_header(out: &mut String, pos: &Position)
    ensures
        final(out)@ == old(out)@ + header(pos@),
{
    proof {
        reveal_strlit(":");
        reveal_strlit(" to ");
        reveal_strlit("\n");
    }
    push_decimal(out, pos.start_ln);
    out.append(":");
    push_decimal(out, pos.start_cn);
    if pos.start_ln != pos.end_ln || pos.start_cn != pos.end_cn {
        out.append(" to ");
        push_decimal(out, pos.end_ln);
        out.append(":");
        push_decimal(out, pos.end_cn);
    }
    out.append("\n");
    assert(out@ =~= old(out)@ + header(pos@));
}

/// Appends the line of arrows of the diagnostic for `pos` to `out`.
fn push_arrow_line(out: &mut String, pos: &Position)
    requires
        pos@.ordered(),
    ensures
        final(out)@ == old(out)@ + arrow_line(pos@),
{
    proof {
        reveal_strlit(" |");
        reveal_strlit(" -- here\n");
    }
    push_repeated(out, ' ', digit_count(pos.end_ln));
    out.append(" |");
    push_repeated(out, ' ', pos.start_cn);
    if pos.start_ln == pos.end_ln {
        push_repeated(out, 'v', pos.end_cn - pos.start_cn + 1);
    } else {
        push_repeated(out, 'v', 1);
        assert(repeated('v', 1) =~= seq!['v']);
    }
    out.append(" -- here\n");
    assert(out@ =~= old(out)@ + arrow_line(pos@));
}

/// Appends the source line `line` behind its number to `out`.
fn push_gutter_line(out: &mut String, number: usize, line: &str, width: usize)
    ensures
        final(out)@ == old(out)@ + gutter_line(number as int, line@, width as nat),
{
    proof {
        reveal_strlit(" | ");
        reveal_strlit("\n");
    }
    let used = digit_count(number);
    if used < width {
        push_repeated(out, ' ', width - used);
    }
    push_decimal(out, number);
    out.append(" | ");
    out.append(line);
    out.append("\n");
    assert(out@ =~= old(out)@ + gutter_line(number as int, line@, width as nat));
}

/// The decimal digit for `d`.
pub open spec fn digit(d: nat) -> char {
    seq!['0', '1', '2', '3', '4', '5', '6', '7', '8', '9'][d as int]
}

/// `n` in decimal.
pub open spec fn digits(n: nat) -> Seq<char>
    decreases n,
{
    if n < 10 {
        seq![digit(n)]
    } else {
        digits(n / 10).push(digit(n % 10))
    }
}

/// The first line of a diagnostic: the start of the selection and, where the
/// end differs from it, the end.
pub open spec fn header(pos: Span) -> Seq<char> {
    digits(pos.start_ln as nat) + seq![':'] + digits(pos.start_cn as nat) + (if pos.start_ln
        != pos.end_ln || pos.start_cn != pos.end_cn {
        seq![' ', 't', 'o', ' '] + digits(pos.end_ln as nat) + seq![':'] + digits(
            pos.end_cn as nat,
        )
    } else {
        Seq::empty()
    }) + seq!['\n']
}

/// The arrows of a diagnostic: as many as the selection is wide where it lies
/// on one line, else one.
pub open spec fn arrows(pos: Span) -> Seq<char> {
    if pos.start_ln == pos.end_ln {
        repeated('v', (pos.end_cn - pos.start_cn + 1) as nat)
    } else {
        seq!['v']
    }
}

/// The second line of a diagnostic: an empty gutter, then the arrows under as
/// many spaces as the start column says.
pub open spec fn arrow_line(pos: Span) -> Seq<char> {
    repeated(' ', digits(pos.end_ln as nat).len()) + seq![' ', '|'] + repeated(
        ' ',
        pos.start_cn as nat,
    ) + arrows(pos) + seq![' ', '-', '-', ' ', 'h', 'e', 'r', 'e', '\n']
}

/// One source line behind its number, the number right-aligned in `width` columns.
pub open spec fn gutter_line(number: int, line: Seq<char>, width: nat) -> Seq<char> {
    let shown = digits(number as nat);
    (if shown.len() < width {
        repeated(' ', (width - shown.len()) as nat)
    } else {
        Seq::empty()
    }) + shown + seq![' ', '|', ' '] + line + seq!['\n']
}

/// The source lines `lines`, numbered from `first`, each behind its number.
pub open spec fn gutter(lines: Seq<Seq<char>>, first: int, width: nat) -> Seq<char>
    decreases lines.len(),
{
    if lines.len() == 0 {
        Seq::empty()
    } else {
        gutter(lines.drop_last(), first, width) + gutter_line(
            first + lines.len() - 1,
            lines.last(),
            width,
        )
    }
}

/// The diagnostic for an error at `site`: the header, the line of arrows, the
/// covered source lines, and an empty gutter.
pub open spec fn render(site: ErrorSite) -> Seq<char> {
    header(site.pos) + arrow_line(site.pos) + gutter(
        covered_lines(site.source, site.pos),
        site.pos.start_ln,
        digits(site.pos.end_ln as nat).len(),
    ) + repeated(' ', digits(site.pos.end_ln as nat).len()) + seq![' ', '|', '\n']
}

/// The number of decimal digits of `n`.
pub fn digit_count(n: usize) -> (count: usize)
    ensures
        count == digits(n as nat).len(),
        count == 1 || count <= n,
    decreases n,
{
    if n < 10 {
        1
    } else {
        1 + digit_count(n / 10)
    }
}

/// Appends `n` in decimal to `out`.
pub fn push_decimal(out: &mut String, n: usize)
    ensures
        final(out)@ == old(out)@ + digits(n as nat),
    decreases n,
{
    if n >= 10 {
        push_decimal(out, n / 10);
    }
    let d = n % 10;
    let c = if d == 0 {
        '0'
    } else if d == 1 {
        '1'
    } else if d == 2 {
        '2'
    } else if d == 3 {
        '3'
    } else if d == 4 {
        '4'
    } else if d == 5 {
        '5'
    } else if d == 6 {
        '6'
    } else if d == 7 {
        '7'
    } else if d == 8 {
        '8'
    } else {
        '9'
    };
    out.push(c);
    assert(out@ =~= old(out)@ + digits(n as nat));
}

} // verus!
