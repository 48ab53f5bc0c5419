//! The lines of a log's text.
//!
//! A line is a stretch of text that a line feed ends. What follows the last
//! line feed is a line still being written, and is no line yet.

use crate::text::to_chars;
use vstd::prelude::*;

verus! {

/// A line without the carriage return that may stand before its line feed.
pub open spec fn strip_cr(line: Seq<char>) -> Seq<char> {
    if line.len() > 0 && line.last() == '\r' {
        line.drop_last()
    } else {
        line
    }
}

/// Reading `text` character by character: the lines completed so far, and the
/// characters of the line that is still open.
pub open spec fn split(text: Seq<char>) -> (Seq<Seq<char>>, Seq<char>)
    decreases text.len(),
{
    if text.len() == 0 {
        (Seq::empty(), Seq::empty())
    } else {
        let (lines, open) = split(text.drop_last());
        if text.last() == '\n' {
            (lines.push(strip_cr(open)), Seq::empty())
        } else {
            (lines, open.push(text.last()))
        }
    }
}

/// The lines of `text`, each without its terminator.
pub open spec fn lines_of(text: Seq<char>) -> Seq<Seq<char>> {
    split(text).0
}

/// The number of line feeds in `text`.
pub open spec fn line_feeds(text: Seq<char>) -> nat
    decreases text.len(),
{
    if text.len() == 0 {
        0
    } else if text.last() == '\n' {
        line_feeds(text.drop_last()) + 1
    } else {
        line_feeds(text.drop_last())
    }
}

/// A text has as many lines as it has line feeds, and none of its lines holds
/// a line feed.
pub proof fn lemma_lines_count(text: Seq<char>)
    ensures
        lines_of(text).len() == line_feeds(text),
        forall|k: int, i: int|
            0 <= k < lines_of(text).len() && 0 <= i < lines_of(text)[k].len() ==> lines_of(
                text,
            )[k][i] != '\n',
        forall|i: int| 0 <= i < split(text).1.len() ==> split(text).1[i] != '\n',
    decreases text.len(),
{
    if text.len() > 0 {
        lemma_lines_count(text.drop_last());
    }
}

/// Text that grows keeps the lines it had: they are the first lines of the
/// longer text.
pub proof fn lemma_lines_grow(text: Seq<char>, more: Seq<char>)
    ensures
        lines_of(text).len() <= lines_of(text + more).len(),
        lines_of(text + more).take(lines_of(text).len() as int) == lines_of(text),
    decreases more.len(),
{
    if more.len() == 0 {
        assert(text + more =~= text);
        assert(lines_of(text).take(lines_of(text).len() as int) =~= lines_of(text));
    } else {
        let shorter = text + more.drop_last();
        lemma_lines_grow(text, more.drop_last());
        assert((text + more).drop_last() =~= shorter);
        assert(lines_of(text + more).take(lines_of(text).len() as int) =~= lines_of(shorter).take(
            lines_of(text).len() as int,
        ));
    }
}

/// A log's text, split into its lines.
pub struct LogText {
    chars: Vec<char>,
    spans: Vec<(usize, usize)>,
}

impl LogText {
    #[verifier::type_invariant]
    spec fn spans_are_lines(self) -> bool {
        &&& self.spans@.len() == lines_of(self.chars@).len()
        &&& forall|k: int|
            0 <= k < self.spans@.len() ==> {
                let (start, end) = #[trigger] self.spans@[k];
                start <= end <= self.chars@.len() && self.chars@.subrange(start as int, end as int)
                    == lines_of(self.chars@)[k]
            }
    }

    /// The text, character by character.
    pub closed spec fn text(self) -> Seq<char> {
        self.chars@
    }

    /// The lines of the text.
    pub open spec fn lines(self) -> Seq<Seq<char>> {
        lines_of(self.text())
    }

    /// Splits `content` into its lines.
    pub fn new(content: &str) -> (log: LogText)
        ensures
            log.text() == content@,
    {
        let chars = to_chars(content);
        let mut spans: Vec<(usize, usize)> = Vec::new();
        let mut start: usize = 0;
        let mut i: usize = 0;
        while i < chars.len()
            invariant
                start <= i <= chars@.len(),
                spans@.len() == split(chars@.take(i as int)).0.len(),
                split(chars@.take(i as int)).1 == chars@.subrange(start as int, i as int),
                forall|k: int|
                    0 <= k < spans@.len() ==> {
                        let (a, b) = #[trigger] spans@[k];
                        a <= b <= i && chars@.subrange(a as int, b as int) == split(
                            chars@.take(i as int),
                        ).0[k]
                    },
            decreases chars@.len() - i,
        {
            let ghost before = chars@.take(i as int);
            let ghost after = chars@.take(i + 1);
            proof {
                assert(after.drop_last() =~= before);
                assert(after.last() == chars@[i as int]);
            }
            if chars[i] == '\n' {
                let end: usize = if i > start && chars[i - 1] == '\r' {
                    i - 1
                } else {
                    i
                };
                proof {
                    let open = chars@.subrange(start as int, i as int);
                    assert(strip_cr(open) =~= chars@.subrange(start as int, end as int));
                    assert(chars@.subrange(i + 1, i + 1) =~= Seq::<char>::empty());
                }
                spans.push((start, end));
                start = i + 1;
            } else {
                proof {
                    assert(chars@.subrange(start as int, i as int).push(chars@[i as int])
                        =~= chars@.subrange(start as int, i + 1));
                }
            }
            i += 1;
        }
        proof {
            assert(chars@.take(i as int) =~= chars@);
        }
        LogText { chars, spans }
    }

    /// The number of lines.
    pub fn line_count(&self) -> (n: u64)
        ensures
            n == self.lines().len(),
            self.lines().len() <= usize::MAX,
    {
        proof {
            use_type_invariant(self);
        }
        self.spans.len() as u64
    }

    /// The line at `index`, counted from 0.
    pub fn line(&self, index: usize) -> (line: &[char])
        requires
            index < self.lines().len(),
        ensures
            line@ == self.lines()[index as int],
    {
        proof {
            use_type_invariant(self);
        }
        let (start, end) = self.spans[index];
        vstd::slice::slice_subrange(self.chars.as_slice(), start, end)
    }
}

} // verus!
