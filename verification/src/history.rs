//! The scan of what a log already holds: the last URL that it reports, the
//! last seek at or after that URL's line, and the number of lines read.

use crate::error::FatalError;
use crate::lines::LogText;
use crate::pattern::{
    is_decimal_numeral, is_seek_event_of, is_seek_line, is_url_event_of, is_url_line,
    match_seek_line, match_url_line, seek_reading, url_reading, FoundSeek, FoundUrl,
};
use crate::timestamp::is_timestamp;
use vstd::prelude::*;

verus! {

/// The line at `index` reports a URL and no later line does.
pub open spec fn is_last_url_line(lines: Seq<Seq<char>>, index: int) -> bool {
    &&& 0 <= index < lines.len()
    &&& is_url_line(lines[index])
    &&& forall|j: int| index < j < lines.len() ==> !is_url_line(#[trigger] lines[j])
}

/// The line at `index` reports a seek, is not before `floor`, and no later
/// line reports a seek.
pub open spec fn is_last_seek_line(lines: Seq<Seq<char>>, floor: int, index: int) -> bool {
    &&& 0 <= index < lines.len()
    &&& floor <= index
    &&& is_seek_line(lines[index])
    &&& forall|j: int| index < j < lines.len() ==> !is_seek_line(#[trigger] lines[j])
}

/// No line from `floor` on reports a seek.
pub open spec fn no_seek_from(lines: Seq<Seq<char>>, floor: int) -> bool {
    forall|j: int| 0 <= j < lines.len() && floor <= j ==> !is_seek_line(#[trigger] lines[j])
}

/// The URL recogniser may fail on `line` with `e`: the line reports a URL, and
/// `e` is the refusal of its timestamp, or of the time zone where the
/// timestamp names a time.
pub open spec fn url_line_fails_with(line: Seq<char>, e: FatalError) -> bool {
    &&& url_reading(line) matches Some(reading)
    &&& if is_timestamp(reading.0) {
        e == FatalError::NoLocalTime
    } else {
        e == FatalError::MalformedTimestamp
    }
}

/// The seek recogniser may fail on `line` with `e`.
pub open spec fn seek_line_fails_with(line: Seq<char>, e: FatalError) -> bool {
    &&& seek_reading(line) matches Some(reading)
    &&& if is_timestamp(reading.0) {
        e == FatalError::NoLocalTime || (e == FatalError::MalformedNumber && !is_decimal_numeral(
            reading.1,
        ))
    } else {
        e == FatalError::MalformedTimestamp
    }
}

/// The timestamp of every URL line before `end` names a time.
pub open spec fn url_stamps_sound(lines: Seq<Seq<char>>, end: int) -> bool {
    forall|j: int|
        0 <= j < end && j < lines.len() ==> (url_reading(#[trigger] lines[j]) matches Some(reading)
            ==> is_timestamp(reading.0))
}

/// The timestamp and the position of every seek line in `floor..end` are
/// well formed.
pub open spec fn seek_lines_sound(lines: Seq<Seq<char>>, floor: int, end: int) -> bool {
    forall|j: int|
        0 <= j < end && floor <= j && j < lines.len() ==> (seek_reading(
            #[trigger] lines[j],
        ) matches Some(reading) ==> is_timestamp(reading.0) && is_decimal_numeral(reading.1))
}

/// What the search for the last URL may return.
pub open spec fn is_last_url_outcome(
    lines: Seq<Seq<char>>,
    r: Result<Option<FoundUrl>, FatalError>,
) -> bool {
    match r {
        Ok(None) => forall|j: int| 0 <= j < lines.len() ==> !is_url_line(#[trigger] lines[j]),
        Ok(Some(found)) => {
            &&& is_last_url_line(lines, found.found_url_on_line - 1)
            &&& is_url_event_of(
                found,
                lines[found.found_url_on_line - 1],
                found.found_url_on_line,
            )
            &&& url_stamps_sound(lines, lines.len() as int)
        },
        Err(e) => exists|i: int|
            0 <= i < lines.len() && url_stamps_sound(lines, i) && url_line_fails_with(
                #[trigger] lines[i],
                e,
            ),
    }
}

/// What the search for the last seek from the line numbered
/// `not_before_this_line` on may return.
pub open spec fn is_last_seek_outcome(
    lines: Seq<Seq<char>>,
    not_before_this_line: u64,
    r: Result<Option<FoundSeek>, FatalError>,
) -> bool {
    let floor = not_before_this_line - 1;
    match r {
        Ok(None) => no_seek_from(lines, floor),
        Ok(Some(found)) => exists|i: int|
            is_last_seek_line(lines, floor, i) && is_seek_event_of(found, #[trigger] lines[i])
                && seek_lines_sound(lines, floor, lines.len() as int),
        Err(e) => exists|i: int|
            0 <= i < lines.len() && floor <= i && seek_lines_sound(lines, floor, i)
                && seek_line_fails_with(#[trigger] lines[i], e),
    }
}

/// One step of a search for the last match: a failure ends the search, a
/// match replaces the one kept so far, and a line of another shape leaves it.
pub fn keep_last<T>(last: Option<T>, outcome: Result<Option<T>, FatalError>) -> (r: Result<
    Option<T>,
    FatalError,
>)
    ensures
        r == match outcome {
            Err(e) => Err::<Option<T>, FatalError>(e),
            Ok(Some(found)) => Ok::<Option<T>, FatalError>(Some(found)),
            Ok(None) => Ok::<Option<T>, FatalError>(last),
        },
{
    match outcome {
        Err(e) => Err(e),
        Ok(Some(found)) => Ok(Some(found)),
        Ok(None) => Ok(last),
    }
}

/// Finds the last line of `log` that reports a URL: applies the URL
/// recogniser to every line, and keeps the last match with `keep_last`.
pub fn last_url(log: &LogText) -> (r: Result<Option<FoundUrl>, FatalError>)
    ensures
        is_last_url_outcome(log.lines(), r),
{
    let count = log.line_count();
    let mut last: Option<FoundUrl> = None;
    let mut i: u64 = 0;
    while i < count
        invariant
            i <= count == log.lines().len(),
            count <= usize::MAX,
            url_stamps_sound(log.lines(), i as int),
            match last {
                None => forall|j: int| 0 <= j < i ==> !is_url_line(#[trigger] log.lines()[j]),
                Some(found) => {
                    &&& 1 <= found.found_url_on_line <= i
                    &&& is_url_line(log.lines()[found.found_url_on_line - 1])
                    &&& is_url_event_of(
                        found,
                        log.lines()[found.found_url_on_line - 1],
                        found.found_url_on_line,
                    )
                    &&& forall|j: int|
                        found.found_url_on_line <= j < i ==> !is_url_line(#[trigger] log.lines()[j])
                },
            },
        decreases count - i,
    {
        match keep_last(last, match_url_line(log.line(i as usize), i + 1)) {
            Ok(kept) => {
                last = kept;
            },
            Err(e) => {
                return Err(e);
            },
        }
        i += 1;
    }
    Ok(last)
}

/// Finds the last line of `log` that reports a seek, among the lines numbered
/// `not_before_this_line` and up: applies the seek recogniser to each of them,
/// and keeps the last match with `keep_last`.
pub fn last_seek(log: &LogText, not_before_this_line: u64) -> (r: Result<
    Option<FoundSeek>,
    FatalError,
>)
    ensures
        is_last_seek_outcome(log.lines(), not_before_this_line, r),
{
    let count = log.line_count();
    let ghost floor = not_before_this_line - 1;
    let ghost mut at: int = 0;
    let mut last: Option<FoundSeek> = None;
    let mut i: u64 = if not_before_this_line == 0 {
        0
    } else {
        not_before_this_line - 1
    };
    while i < count
        invariant
            floor <= i,
            count == log.lines().len(),
            count <= usize::MAX,
            floor == not_before_this_line - 1,
            seek_lines_sound(log.lines(), floor, i as int),
            match last {
                None => forall|j: int|
                    0 <= j < i && floor <= j ==> !is_seek_line(#[trigger] log.lines()[j]),
                Some(found) => {
                    &&& 0 <= at < i
                    &&& at < count
                    &&& floor <= at
                    &&& is_seek_line(log.lines()[at])
                    &&& is_seek_event_of(found, log.lines()[at])
                    &&& forall|j: int| at < j < i ==> !is_seek_line(#[trigger] log.lines()[j])
                },
            },
        decreases count - i,
    {
        let outcome = match_seek_line(log.line(i as usize));
        proof {
            if outcome matches Ok(Some(_)) {
                at = i as int;
            }
        }
        match keep_last(last, outcome) {
            Ok(kept) => {
                last = kept;
            },
            Err(e) => {
                return Err(e);
            },
        }
        i += 1;
    }
    proof {
        if last is Some {
            assert(is_last_seek_line(log.lines(), floor, at));
        }
    }
    Ok(last)
}

/// Joins what the two searches found with the number of lines read.
pub fn scan_result(url: Option<FoundUrl>, seek: Option<FoundSeek>, count: u64) -> (r:
    UrlAndSeekResult)
    ensures
        r == match url {
            None => UrlAndSeekResult::Nothing(count),
            Some(found) => match seek {
                None => UrlAndSeekResult::Url(found, count),
                Some(position) => UrlAndSeekResult::UrlAndSeek(found, position, count),
            },
        },
{
    match url {
        None => UrlAndSeekResult::Nothing(count),
        Some(found) => match seek {
            None => UrlAndSeekResult::Url(found, count),
            Some(position) => UrlAndSeekResult::UrlAndSeek(found, position, count),
        },
    }
}

/// What a log holds when tailing starts. Every variant carries the number of
/// lines that were read, which is where the tail takes over.
#[derive(Debug)]
pub enum UrlAndSeekResult {
    /// No line reports a URL.
    Nothing(u64),
    /// The last URL, and no seek at or after its line.
    Url(FoundUrl, u64),
    /// The last URL, and the last seek at or after its line.
    UrlAndSeek(FoundUrl, FoundSeek, u64),
}

/// What the scan of a log may return.
pub open spec fn is_scan_outcome(
    lines: Seq<Seq<char>>,
    r: Result<UrlAndSeekResult, FatalError>,
) -> bool {
    match r {
        Ok(UrlAndSeekResult::Nothing(count)) => {
            &&& count == lines.len()
            &&& is_last_url_outcome(lines, Ok(None))
        },
        Ok(UrlAndSeekResult::Url(url, count)) => {
            &&& count == lines.len()
            &&& is_last_url_outcome(lines, Ok(Some(url)))
            &&& is_last_seek_outcome(lines, url.found_url_on_line, Ok(None))
        },
        Ok(UrlAndSeekResult::UrlAndSeek(url, seek, count)) => {
            &&& count == lines.len()
            &&& is_last_url_outcome(lines, Ok(Some(url)))
            &&& is_last_seek_outcome(lines, url.found_url_on_line, Ok(Some(seek)))
        },
        Err(e) => {
            ||| is_last_url_outcome(lines, Err(e))
            ||| exists|url: FoundUrl|
                is_last_url_outcome(lines, Ok(Some(url))) && is_last_seek_outcome(
                    lines,
                    url.found_url_on_line,
                    Err(e),
                )
        },
    }
}

/// The reader of what a log holds so far.
pub struct VrcLogReader {
    log: LogText,
    lines_read_initially: Option<u64>,
}

impl VrcLogReader {
    /// The text that the reader scans.
    pub closed spec fn text(self) -> Seq<char> {
        self.log.text()
    }

    /// The lines that the reader scans.
    pub open spec fn lines(self) -> Seq<Seq<char>> {
        crate::lines::lines_of(self.text())
    }

    /// The number of lines that the search for the URL has read, once it ran.
    pub closed spec fn lines_read(self) -> Option<u64> {
        self.lines_read_initially
    }

    /// A reader of the text `content`.
    pub fn new(content: &str) -> (reader: Self)
        ensures
            reader.text() == content@,
            reader.lines_read() is None,
    {
        Self { log: LogText::new(content), lines_read_initially: None }
    }

    /// The number of lines that the search for the URL has read, once it ran.
    pub fn lines_read_initially(&self) -> (n: Option<u64>)
        ensures
            n == self.lines_read(),
    {
        self.lines_read_initially
    }

    /// Scans the log: the last URL, the last seek at or after the URL's line,
    /// and the number of lines, which is where the tail takes over.
    pub fn get_latest_url_and_seek(&mut self) -> (r: Result<UrlAndSeekResult, FatalError>)
        ensures
            final(self).text() == old(self).text(),
            is_scan_outcome(old(self).lines(), r),
            r is Ok ==> final(self).lines_read() == Some(old(self).lines().len() as u64),
    {
        let ghost lines = self.lines();
        let url = match self.find_last_url() {
            Ok(url) => url,
            Err(e) => {
                return Err(e);
            },
        };
        let seek = match &url {
            None => None,
            Some(found) => match self.find_last_seek(found.found_url_on_line) {
                Ok(seek) => seek,
                Err(e) => {
                    proof {
                        assert(is_last_url_outcome(lines, Ok(url)));
                    }
                    return Err(e);
                },
            },
        };
        Ok(scan_result(url, seek, self.log.line_count()))
    }

    /// Finds the last line that reports a URL, and records how many lines
    /// there are.
    pub fn find_last_url(&mut self) -> (r: Result<Option<FoundUrl>, FatalError>)
        ensures
            final(self).text() == old(self).text(),
            is_last_url_outcome(old(self).lines(), r),
            r is Ok ==> final(self).lines_read() == Some(old(self).lines().len() as u64),
    {
        let found = last_url(&self.log)?;
        self.lines_read_initially = Some(self.log.line_count());
        Ok(found)
    }

    /// Finds the last line that reports a seek, among the lines numbered
    /// `not_before_this_line` and up.
    pub fn find_last_seek(&mut self, not_before_this_line: u64) -> (r: Result<
        Option<FoundSeek>,
        FatalError,
    >)
        ensures
            *final(self) == *old(self),
            is_last_seek_outcome(old(self).lines(), not_before_this_line, r),
    {
        last_seek(&self.log, not_before_this_line)
    }
}

} // verus!
