//! The tail of a growing log: which lines were delivered, and which lines a
//! change of the file brings.
//!
//! The tail reads nothing itself. Whoever watches the file hands over its
//! text, first when the file is opened and then again after every change, and
//! gets back the lines that are new, each with its number. Lines are numbered
//! from 1 by their place in the file, so that a change which brings several
//! lines at once delivers every one of them, once.

use crate::error::FatalError;
use crate::lines::{lemma_lines_grow, lines_of, LogText};
use crate::text::string_of;
use vstd::prelude::*;

verus! {

/// A line that the tail delivers, with its number in the file.
#[derive(Debug)]
pub struct TailedLine {
    pub text: String,
    pub number: u64,
}

/// `out` holds the lines of `lines` that are numbered above `after`, in
/// order, each with its number.
pub open spec fn is_delivery(out: Seq<TailedLine>, lines: Seq<Seq<char>>, after: int) -> bool {
    &&& out.len() == if lines.len() > after {
        lines.len() - after
    } else {
        0
    }
    &&& forall|k: int|
        0 <= k < out.len() ==> (#[trigger] out[k]).text@ == lines[after + k] && out[k].number
            == after + k + 1
}

/// The lines of `lines` that are numbered above `after`, each with its number.
pub open spec fn numbered_after(lines: Seq<Seq<char>>, after: int) -> Seq<(Seq<char>, int)> {
    Seq::new(
        if lines.len() > after {
            (lines.len() - after) as nat
        } else {
            0
        },
        |k: int| (lines[after + k], after + k + 1),
    )
}

/// The texts and numbers of delivered lines.
pub open spec fn numbered(out: Seq<TailedLine>) -> Seq<(Seq<char>, int)> {
    Seq::new(out.len(), |k: int| (out[k].text@, out[k].number as int))
}

/// A delivery holds the lines numbered above `after`, and nothing else.
pub proof fn lemma_delivery_numbered(out: Seq<TailedLine>, lines: Seq<Seq<char>>, after: int)
    requires
        is_delivery(out, lines, after),
    ensures
        numbered(out) == numbered_after(lines, after),
{
    assert(numbered(out) =~= numbered_after(lines, after));
}

/// What the watcher of the file hands to the tail.
pub enum TailEvent {
    /// The file changed; this is its text now.
    Changed(LogText),
    /// The notifications broke down.
    Failed,
}

/// The state of a tail: the number of the last line that was delivered.
pub struct TailSession {
    delivered: u64,
}

/// Tests that a file holds the `n` lines that a tail is to skip.
pub fn skip_n_lines(log: &LogText, n: u64) -> (r: Result<(), FatalError>)
    ensures
        r is Ok <==> n <= log.lines().len(),
        r matches Err(e) ==> e == FatalError::FileTooShort,
{
    if log.line_count() < n {
        Err(FatalError::FileTooShort)
    } else {
        Ok(())
    }
}

impl TailSession {
    /// The number of the last line that was delivered or skipped.
    pub closed spec fn last_delivered(self) -> u64 {
        self.delivered
    }

    /// Opens a tail on a file whose first `start_after_line` lines were read
    /// before, and delivers the lines that the file holds beyond them. A file
    /// that holds fewer lines is refused.
    pub fn open(log: &LogText, start_after_line: u64) -> (r: Result<
        (TailSession, Vec<TailedLine>),
        FatalError,
    >)
        ensures
            match r {
                Ok((session, out)) => {
                    &&& start_after_line <= log.lines().len()
                    &&& session.last_delivered() == log.lines().len()
                    &&& is_delivery(out@, log.lines(), start_after_line as int)
                },
                Err(e) => e == FatalError::FileTooShort && log.lines().len() < start_after_line,
            },
    {
        match skip_n_lines(log, start_after_line) {
            Err(e) => Err(e),
            Ok(()) => {
                let mut session = TailSession { delivered: start_after_line };
                let out = session.deliver(log);
                Ok((session, out))
            },
        }
    }

    /// Delivers the lines of the file that are numbered above the last one
    /// delivered. A file that holds no more lines than that delivers nothing
    /// and leaves the session as it is.
    pub fn deliver(&mut self, log: &LogText) -> (out: Vec<TailedLine>)
        ensures
            is_delivery(out@, log.lines(), old(self).last_delivered() as int),
            final(self).last_delivered() == if log.lines().len() > old(self).last_delivered() {
                log.lines().len() as int
            } else {
                old(self).last_delivered() as int
            },
    {
        let count = log.line_count();
        let first = self.delivered;
        let mut out: Vec<TailedLine> = Vec::new();
        let mut i: u64 = first;
        while i < count
            invariant
                *self == *old(self),
                first == self.delivered,
                first <= i,
                first < count ==> i <= count,
                first >= count ==> i == first,
                count == log.lines().len(),
                count <= usize::MAX,
                out@.len() == i - first,
                forall|k: int|
                    0 <= k < out@.len() ==> (#[trigger] out@[k]).text@ == log.lines()[first + k]
                        && out@[k].number == first + k + 1,
            decreases count - i,
        {
            let line = log.line(i as usize);
            let text = string_of(line, 0, line.len());
            proof {
                assert(line@.subrange(0, line@.len() as int) =~= line@);
            }
            out.push(TailedLine { text, number: i + 1 });
            i += 1;
        }
        if count > first {
            self.delivered = count;
        }
        out
    }

    /// One step of the tail: what to deliver for what the watcher handed over.
    pub fn tail_file(&mut self, event: &TailEvent) -> (r: Result<Vec<TailedLine>, FatalError>)
        ensures
            match *event {
                TailEvent::Changed(log) => r matches Ok(out) && is_delivery(
                    out@,
                    log.lines(),
                    old(self).last_delivered() as int,
                ) && final(self).last_delivered() == if log.lines().len() > old(
                    self,
                ).last_delivered() {
                    log.lines().len() as int
                } else {
                    old(self).last_delivered() as int
                },
                TailEvent::Failed => r == Err::<Vec<TailedLine>, FatalError>(
                    FatalError::WatchFailed,
                ) && *final(self) == *old(self),
            },
    {
        match event {
            TailEvent::Changed(log) => Ok(self.deliver(log)),
            TailEvent::Failed => Err(FatalError::WatchFailed),
        }
    }
}

/// A tail that starts where a file ends delivers nothing for that file, and
/// for the file grown by `more` it delivers exactly the lines that `more`
/// completed, numbered on from the old count.
pub proof fn lemma_tail_resumes(text: Seq<char>, more: Seq<char>, out: Seq<TailedLine>)
    requires
        is_delivery(out, lines_of(text + more), lines_of(text).len() as int),
    ensures
        forall|none: Seq<TailedLine>|
            is_delivery(none, lines_of(text), lines_of(text).len() as int) ==> none.len() == 0,
        out.len() == lines_of(text + more).len() - lines_of(text).len(),
        lines_of(text + more).take(lines_of(text).len() as int) == lines_of(text),
        forall|k: int|
            0 <= k < out.len() ==> (#[trigger] out[k]).number == lines_of(text).len() + k + 1
                && out[k].text@ == lines_of(text + more)[lines_of(text).len() + k],
{
    lemma_lines_grow(text, more);
}

/// Two deliveries in a row, the second for a file that grew, deliver together
/// what one delivery for the longer file would: every new line, in order,
/// once.
pub proof fn lemma_tail_composes(
    first: Seq<Seq<char>>,
    second: Seq<Seq<char>>,
    after: int,
    a: Seq<TailedLine>,
    b: Seq<TailedLine>,
)
    requires
        0 <= after <= first.len() <= second.len(),
        second.take(first.len() as int) == first,
        is_delivery(a, first, after),
        is_delivery(b, second, first.len() as int),
    ensures
        is_delivery(a + b, second, after),
{
    assert forall|k: int| 0 <= k < (a + b).len() implies (#[trigger] (a + b)[k]).text@
        == second[after + k] && (a + b)[k].number == after + k + 1 by {
        if k < a.len() {
            assert(second.take(first.len() as int)[after + k] == second[after + k]);
        }
    }
}

} // verus!
