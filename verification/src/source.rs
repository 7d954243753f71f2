//! Read access to a source text by position.

use vstd::prelude::*;
use crate::position::{Position, Span};
use crate::text::{char_at, decode, encode};

verus! {

/// The index of the first `\n` at or after `from`, or the length of `s` where there is none.
pub open spec fn line_end(s: Seq<char>, from: int) -> int
    decreases s.len() - from,
{
    if from < 0 || from >= s.len() {
        s.len() as int
    } else if s[from] == '\n' {
        from
    } else {
        line_end(s, from + 1)
    }
}

/// The line `s[from..end]` that the `\n` at `end` closes, without a `\r` at its end.
pub open spec fn line_content(s: Seq<char>, from: int, end: int) -> Seq<char> {
    if from < end && s[end - 1] == '\r' {
        s.subrange(from, end - 1)
    } else {
        s.subrange(from, end)
    }
}

/// The lines of `s` that start at or after index `from`, itself the start of a line.
pub open spec fn lines_from(s: Seq<char>, from: int) -> Seq<Seq<char>>
    decreases s.len() - from,
    via lines_from_decreases
{
    if from < 0 || from >= s.len() {
        Seq::empty()
    } else {
        let end = line_end(s, from);
        if end < s.len() {
            seq![line_content(s, from, end)] + lines_from(s, end + 1)
        } else {
            seq![s.subrange(from, s.len() as int)]
        }
    }
}

#[via_fn]
proof fn lines_from_decreases(s: Seq<char>, from: int) {
    if 0 <= from <= s.len() {
        lemma_line_end_bounds(s, from);
    }
}

/// A line ends at or after its start, and within the text.
pub proof fn lemma_line_end_bounds(s: Seq<char>, from: int)
    requires
        0 <= from <= s.len(),
    ensures
        from <= line_end(s, from) <= s.len(),
        forall|i: int| from <= i < line_end(s, from) ==> s[i] != '\n',
        line_end(s, from) < s.len() ==> s[line_end(s, from)] == '\n',
    decreases s.len() - from,
{
    if from < s.len() && s[from] != '\n' {
        lemma_line_end_bounds(s, from + 1);
    }
}

/// The lines of `s`. A line ends at `\n`; a `\r` directly before that `\n`
/// belongs to the line ending. Text after the last `\n` is a line of its own
/// unless it is empty.
pub open spec fn lines_of(s: Seq<char>) -> Seq<Seq<char>> {
    lines_from(s, 0)
}

/// The source lines that `pos` covers: none where `pos` starts at or after the
/// end of the text, else the lines numbered `start_ln` to `end_ln`, as far as
/// the text has them.
pub open spec fn covered_lines(s: Seq<char>, pos: Span) -> Seq<Seq<char>> {
    let all = lines_of(s);
    if pos.idx >= s.len() || pos.start_ln - 1 >= all.len() {
        Seq::empty()
    } else if pos.end_ln <= all.len() {
        all.subrange(pos.start_ln - 1, pos.end_ln)
    } else {
        all.subrange(pos.start_ln - 1, all.len() as int)
    }
}

/// A text that can be read by [`Position`].
pub trait Source {
    /// The characters of the text.
    spec fn text(&self) -> Seq<char>;

    /// The text that `pos` selects.
    fn get_str(&self, pos: &Position) -> (s: String)
        requires
            pos.idx + pos.len <= self.text().len(),
        ensures
            s@ == self.text().subrange(pos.idx as int, pos.idx + pos.len),
    ;

    /// The last character that `pos` selects.
    fn get_char(&self, pos: &Position) -> (c: Option<char>)
        requires
            1 <= pos.idx + pos.len <= usize::MAX,
        ensures
            c == char_at(self.text(), pos.idx + pos.len - 1),
    ;

    /// The first character that `pos` selects.
    fn get_char_start(&self, pos: &Position) -> (c: Option<char>)
        ensures
            c == char_at(self.text(), pos.idx as int),
    ;

    /// The character right after the selection.
    fn peek_next(&self, pos: &Position) -> (c: Option<char>)
        requires
            pos.idx + pos.len <= usize::MAX,
        ensures
            c == char_at(self.text(), pos.idx + pos.len),
    ;

    /// The lines that `pos` covers.
    fn get_lines(&self, pos: &Position) -> (lines: Vec<String>)
        requires
            1 <= pos.start_ln <= pos.end_ln,
        ensures
            lines.deep_view() == covered_lines(self.text(), pos@),
    ;
}

impl Source for Vec<char> {
    open spec fn text(&self) -> Seq<char> {
        self@
    }

    fn get_str(&self, pos: &Position) -> (s: String) {
        let n = self.len();
        encode(self, pos.idx, pos.idx + pos.len)
    }

    fn get_char(&self, pos: &Position) -> (c: Option<char>) {
        let i = pos.idx + pos.len - 1;
        if i < self.len() {
            Some(self[i])
        } else {
            None
        }
    }

    fn get_char_start(&self, pos: &Position) -> (c: Option<char>) {
        if pos.idx < self.len() {
            Some(self[pos.idx])
        } else {
            None
        }
    }

    fn peek_next(&self, pos: &Position) -> (c: Option<char>) {
        let i = pos.idx + pos.len;
        if i < self.len() {
            Some(self[i])
        } else {
            None
        }
    }

    fn get_lines(&self, pos: &Position) -> (lines: Vec<String>) {
        let mut lines: Vec<String> = Vec::new();
        let n = self.len();
        if pos.idx >= n {
            assert(lines.deep_view() =~= Seq::<Seq<char>>::empty());
            return lines;
        }
        let ghost all = lines_of(self@);
        let mut from: usize = 0;
        let mut count: usize = 0;
        assert(lines.deep_view() =~= Seq::<Seq<char>>::empty());
        assert(all =~= all.take(0) + lines_from(self@, 0));
        while from < n && count < pos.end_ln
            invariant
                n == self.len(),
                from <= n,
                all == lines_of(self@),
                1 <= pos.start_ln <= pos.end_ln,
                count <= pos.end_ln,
                count <= all.len(),
                all =~= all.take(count as int) + lines_from(self@, from as int),
                lines.deep_view() =~= (if count < pos.start_ln {
                    Seq::<Seq<char>>::empty()
                } else {
                    all.subrange(pos.start_ln - 1, count as int)
                }),
            decreases n - from,
        {
            let mut end: usize = from;
            while end < n && self[end] != '\n'
                invariant
                    n == self.len(),
                    from <= end <= n,
                    line_end(self@, from as int) == line_end(self@, end as int),
                decreases n - end,
            {
                end += 1;
            }
            let stop = if end < n && from < end && self[end - 1] == '\r' {
                end - 1
            } else {
                end
            };
            let next = if end < n {
                end + 1
            } else {
                n
            };
            proof {
                let line = self@.subrange(from as int, stop as int);
                assert(lines_from(self@, from as int) =~= seq![line] + lines_from(
                    self@,
                    next as int,
                ));
                assert(all =~= all.take(count as int).push(line) + lines_from(self@, next as int));
                assert(all[count as int] == line);
                assert(all.take(count + 1) =~= all.take(count as int).push(line));
            }
            if count + 1 >= pos.start_ln {
                let line = encode(self, from, stop);
                let ghost before = lines.deep_view();
                lines.push(line);
                proof {
                    assert(lines.deep_view() =~= before.push(line@));
                    assert(before.push(line@) =~= all.subrange(pos.start_ln - 1, count + 1));
                }
            }
            from = next;
            count += 1;
        }
        proof {
            if from >= n {
                assert(lines_from(self@, from as int) =~= Seq::<Seq<char>>::empty());
                assert(all =~= all.take(count as int));
            }
            assert(lines.deep_view() =~= covered_lines(self@, pos@));
        }
        lines
    }
}

impl Source for str {
    open spec fn text(&self) -> Seq<char> {
        self@
    }

    fn get_str(&self, pos: &Position) -> (s: String) {
        let chars = decode(self);
        let n = chars.len();
        encode(&chars, pos.idx, pos.idx + pos.len)
    }

    fn get_char(&self, pos: &Position) -> (c: Option<char>) {
        let chars = decode(self);
        Source::get_char(&chars, pos)
    }

    fn get_char_start(&self, pos: &Position) -> (c: Option<char>) {
        let chars = decode(self);
        Source::get_char_start(&chars, pos)
    }

    fn peek_next(&self, pos: &Position) -> (c: Option<char>) {
        let chars = decode(self);
        Source::peek_next(&chars, pos)
    }

    fn get_lines(&self, pos: &Position) -> (lines: Vec<String>) {
        let chars = decode(self);
        Source::get_lines(&chars, pos)
    }
}

} // verus!
