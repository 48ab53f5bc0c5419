//! The two shapes of log line that carry an event, and their recognisers.

use crate::error::FatalError;
use crate::text::{
    all_in, has_at, is_digit, lemma_run_end, lemma_run_end_unique, lemma_run_start,
    lemma_run_start_unique, literal_at, run_end, run_start, scan_run, scan_run_back, string_of,
    to_chars, CharClass,
};
use crate::timestamp::{is_timestamp, parse_timestamp_chars, wall_clock_of, LocalInstant};
use vstd::prelude::*;

verus! {

/// What follows the timestamp of every log line.
pub open spec fn log_tag() -> Seq<char> {
    " Log"@
}

/// The dash between the tag and the message.
pub open spec fn dash() -> Seq<char> {
    "-"@
}

/// The head that both shapes share: a timestamp, the tag, and a dash with
/// spaces on either side.
pub struct LineHead {
    pub stamp: Seq<char>,
    pub pad_before_dash: Seq<char>,
    pub pad_after_dash: Seq<char>,
}

impl LineHead {
    /// The timestamp is a run of timestamp characters and both pads are runs
    /// of spaces, none of them empty.
    pub open spec fn well_formed(self) -> bool {
        &&& self.stamp.len() >= 1
        &&& all_in(self.stamp, CharClass::Stamp)
        &&& self.pad_before_dash.len() >= 1
        &&& all_in(self.pad_before_dash, CharClass::Space)
        &&& self.pad_after_dash.len() >= 1
        &&& all_in(self.pad_after_dash, CharClass::Space)
    }

    /// The head as it stands in a line.
    pub open spec fn text(self) -> Seq<char> {
        self.stamp + log_tag() + self.pad_before_dash + dash() + self.pad_after_dash
    }
}

/// Where the timestamp ends and where the message begins, for a line that
/// starts with a head.
spec fn head_span(line: Seq<char>) -> Option<(int, int)> {
    let stamp_end = run_end(line, 0, CharClass::Stamp) - 1;
    let tag_end = stamp_end + 4;
    let dash_at = run_end(line, tag_end, CharClass::Space);
    let message = run_end(line, dash_at + 1, CharClass::Space);
    if stamp_end >= 1 && has_at(line, stamp_end, log_tag()) && dash_at > tag_end && has_at(
        line,
        dash_at,
        dash(),
    ) && message > dash_at + 1 {
        Some((stamp_end, message))
    } else {
        None
    }
}

/// A span that `head_span` reports is a well-formed head, and the message
/// after it does not start with a space.
proof fn lemma_head_span_sound(line: Seq<char>)
    requires
        head_span(line) is Some,
    ensures
        ({
            let (stamp_end, message) = head_span(line)->0;
            &&& 1 <= stamp_end < message <= line.len()
            &&& exists|h: LineHead|
                h.well_formed() && h.stamp == line.take(stamp_end) && h.text() == line.take(message)
            &&& message < line.len() ==> line[message] != ' '
        }),
{
    reveal_strlit(" Log");
    reveal_strlit("-");
    let stamp_end = run_end(line, 0, CharClass::Stamp) - 1;
    let tag_end = stamp_end + 4;
    let dash_at = run_end(line, tag_end, CharClass::Space);
    let message = run_end(line, dash_at + 1, CharClass::Space);
    lemma_run_end(line, 0, CharClass::Stamp);
    lemma_run_end(line, tag_end, CharClass::Space);
    lemma_run_end(line, dash_at + 1, CharClass::Space);
    let h = LineHead {
        stamp: line.take(stamp_end),
        pad_before_dash: line.subrange(tag_end, dash_at),
        pad_after_dash: line.subrange(dash_at + 1, message),
    };
    assert(h.text() =~= line.take(message));
    assert(h.well_formed());
}

/// A line that starts with a well-formed head, followed by a message that
/// does not start with a space, has the span of that head.
proof fn lemma_head_span_complete(line: Seq<char>, h: LineHead, message: Seq<char>)
    requires
        h.well_formed(),
        line == h.text() + message,
        message.len() > 0 ==> message[0] != ' ',
    ensures
        head_span(line) == Some((h.stamp.len() as int, h.text().len() as int)),
{
    reveal_strlit(" Log");
    reveal_strlit("-");
    let stamp_end = h.stamp.len() as int;
    let tag_end = stamp_end + 4;
    let dash_at = tag_end + h.pad_before_dash.len();
    let start = dash_at + 1 + h.pad_after_dash.len();
    assert(h.text().len() == start);
    assert forall|i: int| 0 <= i < stamp_end implies line[i] == h.stamp[i] by {}
    assert(line[stamp_end] == ' ');
    assert(line[stamp_end + 1] == 'L');
    assert(line[stamp_end + 2] == 'o');
    assert(line[stamp_end + 3] == 'g');
    assert forall|i: int| tag_end <= i < dash_at implies line[i] == h.pad_before_dash[i
        - tag_end] by {}
    assert(line[dash_at] == '-');
    assert forall|i: int| dash_at + 1 <= i < start implies line[i] == h.pad_after_dash[i - dash_at
        - 1] by {}
    assert(start < line.len() ==> line[start] == message[0]);
    lemma_run_end_unique(line, 0, CharClass::Stamp, stamp_end + 1);
    lemma_run_end_unique(line, tag_end, CharClass::Space, dash_at);
    lemma_run_end_unique(line, dash_at + 1, CharClass::Space, start);
    assert(line.subrange(stamp_end, stamp_end + 4) =~= log_tag());
    assert(line.subrange(dash_at, dash_at + 1) =~= dash());
}

/// Finds the head of a line: where its timestamp ends and where its message
/// begins.
fn find_head(line: &[char]) -> (r: Option<(usize, usize)>)
    ensures
        match r {
            Some((stamp_end, message)) => head_span(line@) == Some(
                (stamp_end as int, message as int),
            ) && stamp_end < message <= line@.len(),
            None => head_span(line@) is None,
        },
{
    proof {
        reveal_strlit(" Log");
        reveal_strlit("-");
    }
    let stamp_run = scan_run(line, 0, CharClass::Stamp);
    if stamp_run < 2 {
        return None;
    }
    let stamp_end: usize = stamp_run - 1;
    if !literal_at(line, stamp_end, " Log") {
        return None;
    }
    let tag_end: usize = stamp_end + 4;
    let dash_at = scan_run(line, tag_end, CharClass::Space);
    if dash_at == tag_end || !literal_at(line, dash_at, "-") {
        return None;
    }
    let message = scan_run(line, dash_at + 1, CharClass::Space);
    if message == dash_at + 1 {
        return None;
    }
    Some((stamp_end, message))
}

/// What announces a media URL in a line's message.
pub open spec fn url_marker() -> Seq<char> {
    "[Video Playback] Attempting to resolve URL '"@
}

/// The quote that closes the URL.
pub open spec fn quote() -> Seq<char> {
    "'"@
}

/// The two schemes of a media URL.
pub open spec fn http_scheme() -> Seq<char> {
    "http://"@
}

pub open spec fn https_scheme() -> Seq<char> {
    "https://"@
}

/// A URL of one of the two schemes, with at least one character after the
/// scheme and no white space in it.
pub open spec fn is_http_url(url: Seq<char>) -> bool {
    ||| url.len() > 7 && url.take(7) == http_scheme() && all_in(url.skip(7), CharClass::Visible)
    ||| url.len() > 8 && url.take(8) == https_scheme() && all_in(url.skip(8), CharClass::Visible)
}

/// The parts of a line that reports a media URL being resolved: the head,
/// the marker, the URL between quotes, and whatever follows the closing quote.
pub struct UrlLine {
    pub head: LineHead,
    pub url: Seq<char>,
    pub trailer: Seq<char>,
}

impl UrlLine {
    pub open spec fn well_formed(self) -> bool {
        self.head.well_formed() && is_http_url(self.url)
    }

    /// The line that the parts make up.
    pub open spec fn text(self) -> Seq<char> {
        self.head.text() + url_marker() + self.url + quote() + self.trailer
    }
}

/// `line` reports a media URL being resolved.
pub open spec fn is_url_line(line: Seq<char>) -> bool {
    exists|p: UrlLine| p.well_formed() && p.text() == line
}

/// `stamp` and `url` are the timestamp and the URL that `line` reports. Where
/// a line can be split in more than one way, the URL is the longest: it runs
/// to the last quote that white space does not separate from it.
pub open spec fn is_url_reading(line: Seq<char>, stamp: Seq<char>, url: Seq<char>) -> bool {
    &&& exists|p: UrlLine|
        p.well_formed() && p.text() == line && p.head.stamp == stamp && p.url == url
    &&& forall|p: UrlLine| p.well_formed() && p.text() == line ==> p.url.len() <= url.len()
}

/// The timestamp and the URL that `line` reports, if it reports a URL.
pub open spec fn url_reading(line: Seq<char>) -> Option<(Seq<char>, Seq<char>)> {
    if is_url_line(line) {
        Some(choose|r: (Seq<char>, Seq<char>)| is_url_reading(line, r.0, r.1))
    } else {
        None
    }
}

/// The last position in `lo..hi` that holds a quote, or `lo - 1`.
spec fn last_quote(line: Seq<char>, lo: int, hi: int) -> int
    decreases hi - lo,
{
    if hi <= lo {
        lo - 1
    } else if line[hi - 1] == '\'' {
        hi - 1
    } else {
        last_quote(line, lo, hi - 1)
    }
}

proof fn lemma_last_quote(line: Seq<char>, lo: int, hi: int)
    requires
        0 <= lo,
        hi <= line.len(),
    ensures
        lo - 1 <= last_quote(line, lo, hi),
        lo <= last_quote(line, lo, hi) ==> last_quote(line, lo, hi) < hi && line[last_quote(
            line,
            lo,
            hi,
        )] == '\'',
        forall|i: int| lo <= i < hi && line[i] == '\'' ==> i <= last_quote(line, lo, hi),
    decreases hi - lo,
{
    if hi > lo && line[hi - 1] != '\'' {
        lemma_last_quote(line, lo, hi - 1);
    }
}

/// Where the timestamp ends and where the URL stands, for a line that
/// reports a URL.
spec fn url_span(line: Seq<char>) -> Option<(int, int, int)> {
    match head_span(line) {
        None => None,
        Some((stamp_end, message)) => {
            let url_start = message + url_marker().len();
            let plain = has_at(line, url_start, http_scheme());
            let rest = if plain {
                url_start + 7
            } else {
                url_start + 8
            };
            let url_end = last_quote(line, rest + 1, run_end(line, rest, CharClass::Visible));
            if has_at(line, message, url_marker()) && (plain || has_at(
                line,
                url_start,
                https_scheme(),
            )) && url_end > rest {
                Some((stamp_end, url_start, url_end))
            } else {
                None
            }
        },
    }
}

/// A span that `url_span` reports splits the line into the parts of a URL
/// line.
proof fn lemma_url_span_sound(line: Seq<char>)
    requires
        url_span(line) is Some,
    ensures
        ({
            let (stamp_end, url_start, url_end) = url_span(line)->0;
            &&& 1 <= stamp_end < url_start < url_end < line.len()
            &&& exists|p: UrlLine|
                p.well_formed() && p.text() == line && p.head.stamp == line.take(stamp_end)
                    && p.url == line.subrange(url_start, url_end)
        }),
{
    reveal_strlit("[Video Playback] Attempting to resolve URL '");
    reveal_strlit("'");
    reveal_strlit("http://");
    reveal_strlit("https://");
    let (stamp_end, message) = head_span(line)->0;
    let (_s, url_start, url_end) = url_span(line)->0;
    lemma_head_span_sound(line);
    let head = choose|h: LineHead|
        h.well_formed() && h.stamp == line.take(stamp_end) && h.text() == line.take(message);
    let plain = has_at(line, url_start, http_scheme());
    let rest = if plain {
        url_start + 7
    } else {
        url_start + 8
    };
    let run = run_end(line, rest, CharClass::Visible);
    lemma_run_end(line, rest, CharClass::Visible);
    lemma_last_quote(line, rest + 1, run);
    let p = UrlLine {
        head,
        url: line.subrange(url_start, url_end),
        trailer: line.skip(url_end + 1),
    };
    assert(line.subrange(message, url_start) == url_marker());
    assert(p.text() =~= line);
    if plain {
        assert(p.url.take(7) =~= line.subrange(url_start, url_start + 7));
        assert forall|i: int| 0 <= i < p.url.skip(7).len() implies CharClass::Visible.contains(
            #[trigger] p.url.skip(7)[i],
        ) by {
            assert(p.url.skip(7)[i] == line[rest + i]);
        }
    } else {
        assert(p.url.take(8) =~= line.subrange(url_start, url_start + 8));
        assert forall|i: int| 0 <= i < p.url.skip(8).len() implies CharClass::Visible.contains(
            #[trigger] p.url.skip(8)[i],
        ) by {
            assert(p.url.skip(8)[i] == line[rest + i]);
        }
    }
    assert(is_http_url(p.url));
}

/// Every way to split a line into the parts of a URL line agrees with the
/// span that `url_span` reports, whose URL is at least as long.
proof fn lemma_url_span_complete(line: Seq<char>, p: UrlLine)
    requires
        p.well_formed(),
        p.text() == line,
    ensures
        url_span(line) is Some,
        ({
            let (stamp_end, url_start, url_end) = url_span(line)->0;
            &&& p.head.stamp == line.take(stamp_end)
            &&& url_start + p.url.len() <= url_end
            &&& p.url == line.subrange(url_start, url_start + p.url.len())
        }),
{
    reveal_strlit("[Video Playback] Attempting to resolve URL '");
    reveal_strlit("'");
    reveal_strlit("http://");
    reveal_strlit("https://");
    let message_text = url_marker() + p.url + quote() + p.trailer;
    assert(line =~= p.head.text() + message_text);
    assert(message_text[0] == '[');
    lemma_head_span_complete(line, p.head, message_text);
    let stamp_end = p.head.stamp.len() as int;
    let message = p.head.text().len() as int;
    let url_start = message + url_marker().len();
    let close = url_start + p.url.len();
    assert(p.head.stamp =~= line.take(stamp_end));
    assert(line.subrange(message, url_start) =~= url_marker());
    assert(p.url =~= line.subrange(url_start, close));
    assert(line[close] == '\'');
    let plain = has_at(line, url_start, http_scheme());
    let scheme_len: int = if p.url.len() > 7 && p.url.take(7) == http_scheme() {
        7
    } else {
        8
    };
    if scheme_len == 7 {
        assert(line.subrange(url_start, url_start + 7) =~= p.url.take(7));
        assert(plain);
        assert(p.url.take(7)[4] == ':');
        if p.url.len() > 8 && p.url.take(8) == https_scheme() {
            assert(p.url.take(8)[4] == 's');
        }
    } else {
        assert(line.subrange(url_start, url_start + 8) =~= p.url.take(8));
        assert(line[url_start + 4] == p.url.take(8)[4]);
        if plain {
            assert(line.subrange(url_start, url_start + 7)[4] == ':');
        }
        assert(!plain);
    }
    let rest = url_start + scheme_len;
    assert(all_in(p.url.skip(scheme_len), CharClass::Visible));
    assert forall|i: int| rest <= i <= close implies CharClass::Visible.contains(
        #[trigger] line[i],
    ) by {
        if i < close {
            assert(line[i] == p.url.skip(scheme_len)[i - rest]);
        }
    }
    let run = run_end(line, rest, CharClass::Visible);
    lemma_run_end(line, rest, CharClass::Visible);
    assert(run > close) by {
        if run <= close {
            assert(CharClass::Visible.contains(line[run]));
        }
    }
    lemma_last_quote(line, rest + 1, run);
}

/// A reading of a line is the one that `url_reading` names.
pub proof fn lemma_url_reading_unique(line: Seq<char>, stamp: Seq<char>, url: Seq<char>)
    requires
        is_url_reading(line, stamp, url),
    ensures
        url_reading(line) == Some((stamp, url)),
{
    let p = choose|p: UrlLine|
        p.well_formed() && p.text() == line && p.head.stamp == stamp && p.url == url;
    let given = (stamp, url);
    assert(is_url_reading(line, given.0, given.1));
    let r = choose|r: (Seq<char>, Seq<char>)| is_url_reading(line, r.0, r.1);
    let q = choose|q: UrlLine|
        q.well_formed() && q.text() == line && q.head.stamp == r.0 && q.url == r.1;
    lemma_url_span_complete(line, p);
    lemma_url_span_complete(line, q);
    assert(r.1.len() == url.len());
    assert(r =~= (stamp, url));
}

/// Finds the last quote in `line[lo..hi]`.
fn find_last_quote(line: &[char], lo: usize, hi: usize) -> (r: Option<usize>)
    requires
        lo <= hi <= line@.len(),
    ensures
        match r {
            Some(at) => at == last_quote(line@, lo as int, hi as int) && lo <= at < hi,
            None => last_quote(line@, lo as int, hi as int) < lo,
        },
{
    let mut at: usize = hi;
    while at > lo
        invariant
            lo <= at <= hi <= line@.len(),
            last_quote(line@, lo as int, hi as int) == last_quote(line@, lo as int, at as int),
        decreases at,
    {
        if line[at - 1] == '\'' {
            proof {
                lemma_last_quote(line@, lo as int, at as int);
            }
            return Some(at - 1);
        }
        at -= 1;
    }
    None
}

/// Finds the timestamp and the URL of a line that reports a URL: where the
/// timestamp ends, where the URL starts and where it ends.
pub fn find_url(line: &[char]) -> (r: Option<(usize, usize, usize)>)
    ensures
        match r {
            Some((stamp_end, url_start, url_end)) => stamp_end <= url_start <= url_end
                <= line@.len() && url_reading(line@) == Some(
                (line@.take(stamp_end as int), line@.subrange(url_start as int, url_end as int)),
            ),
            None => url_reading(line@) is None,
        },
{
    proof {
        reveal_strlit("[Video Playback] Attempting to resolve URL '");
        reveal_strlit("http://");
        reveal_strlit("https://");
        if url_span(line@) is Some {
            lemma_url_span_sound(line@);
            let (stamp_end, url_start, url_end) = url_span(line@)->0;
            assert forall|p: UrlLine| p.well_formed() && p.text() == line@ implies p.url.len()
                <= url_end - url_start by {
                lemma_url_span_complete(line@, p);
            }
            lemma_url_reading_unique(
                line@,
                line@.take(stamp_end),
                line@.subrange(url_start, url_end),
            );
        } else {
            assert forall|p: UrlLine| p.well_formed() implies p.text() != line@ by {
                if p.text() == line@ {
                    lemma_url_span_complete(line@, p);
                }
            }
        }
    }
    let (stamp_end, message) = match find_head(line) {
        Some(span) => span,
        None => {
            return None;
        },
    };
    if !literal_at(line, message, "[Video Playback] Attempting to resolve URL '") {
        return None;
    }
    let url_start: usize = message + 44;
    let rest: usize = if literal_at(line, url_start, "http://") {
        url_start + 7
    } else if literal_at(line, url_start, "https://") {
        url_start + 8
    } else {
        return None;
    };
    let run = scan_run(line, rest, CharClass::Visible);
    if run == rest {
        assert(last_quote(line@, rest + 1, run as int) == rest);
        return None;
    }
    match find_last_quote(line, rest + 1, run) {
        Some(url_end) => Some((stamp_end, url_start, url_end)),
        None => None,
    }
}

/// A media URL that the log reports as being resolved.
#[derive(Debug)]
pub struct FoundUrl {
    /// When the line was written.
    pub timestamp: LocalInstant,
    /// The URL, as the line gives it.
    pub url: String,
    /// The number of the line that reports it, counted from 1.
    pub found_url_on_line: u64,
}

/// `found` is what the line numbered `line_number` reports.
pub open spec fn is_url_event_of(found: FoundUrl, line: Seq<char>, line_number: u64) -> bool {
    &&& url_reading(line) matches Some(reading)
    &&& wall_clock_of(reading.0) == Some(found.timestamp.wall_clock)
    &&& found.timestamp.is_valid()
    &&& found.url@ == reading.1
    &&& found.found_url_on_line == line_number
}

/// What the URL recogniser may return for a line: nothing for a line of
/// another shape, a refusal for a timestamp that names no time, and otherwise
/// the event, unless the local time zone skips the time.
pub open spec fn is_url_outcome(
    line: Seq<char>,
    line_number: u64,
    r: Result<Option<FoundUrl>, FatalError>,
) -> bool {
    match url_reading(line) {
        None => r == Ok::<Option<FoundUrl>, FatalError>(None),
        Some(reading) => if is_timestamp(reading.0) {
            match r {
                Ok(Some(found)) => is_url_event_of(found, line, line_number),
                Ok(None) => false,
                Err(e) => e == FatalError::NoLocalTime,
            }
        } else {
            r == Err::<Option<FoundUrl>, FatalError>(FatalError::MalformedTimestamp)
        },
    }
}

/// The event of a URL line: the URL that stands at `url_start..url_end`, the
/// line's number, and the instant that its timestamp was read as.
pub fn url_event(
    line: &[char],
    url_start: usize,
    url_end: usize,
    line_number: u64,
    timestamp: LocalInstant,
) -> (found: FoundUrl)
    requires
        url_start <= url_end <= line@.len(),
    ensures
        found.timestamp == timestamp,
        found.found_url_on_line == line_number,
        found.url@ == line@.subrange(url_start as int, url_end as int),
{
    let url = string_of(line, url_start, url_end);
    FoundUrl { timestamp, url, found_url_on_line: line_number }
}

/// Applies the URL recogniser to a line that is split into characters: finds
/// the URL with `find_url`, reads the timestamp with `parse_timestamp_chars`,
/// and makes the event with `url_event`.
pub fn match_url_line(line: &[char], line_number: u64) -> (r: Result<Option<FoundUrl>, FatalError>)
    ensures
        is_url_outcome(line@, line_number, r),
{
    match find_url(line) {
        None => Ok(None),
        Some((stamp_end, url_start, url_end)) => {
            let stamp = vstd::slice::slice_subrange(line, 0, stamp_end);
            match parse_timestamp_chars(stamp) {
                Ok(timestamp) => Ok(
                    Some(url_event(line, url_start, url_end, line_number, timestamp)),
                ),
                Err(e) => Err(e),
            }
        },
    }
}

/// Applies the URL recogniser to a line: the event that the line reports, if
/// it is of the URL shape.
pub fn try_match_url_line(line: &str, line_number: u64) -> (r: Result<
    Option<FoundUrl>,
    FatalError,
>)
    ensures
        is_url_outcome(line@, line_number, r),
{
    let chars = to_chars(line);
    match_url_line(chars.as_slice(), line_number)
}

/// What opens the message of the synchronisation subsystem.
pub open spec fn sync_tag() -> Seq<char> {
    "[AT "@
}

/// The two levels at which the subsystem reports a seek.
pub open spec fn level_info() -> Seq<char> {
    "INFO"@
}

pub open spec fn level_debug() -> Seq<char> {
    "DEBUG"@
}

/// The subsystem's name, up to the parenthesis that opens its label.
pub open spec fn manager_tag() -> Seq<char> {
    "TVManager ("@
}

/// What closes the label.
pub open spec fn label_close() -> Seq<char> {
    ")] "@
}

/// The two phrases that report a seek.
pub open spec fn phrase_sync() -> Seq<char> {
    "Sync enforcement"@
}

pub open spec fn phrase_drift() -> Seq<char> {
    "Paused drift threshold exceeded"@
}

/// What stands between the phrase and the position, full stop included.
pub open spec fn update_tag() -> Seq<char> {
    ". Updating to "@
}

/// The parts of a line that reports a seek: the head, the subsystem's tag
/// with a level, blanks, the subsystem's name with a label in parentheses, one
/// of the two phrases, the full stop with what announces the position, and the
/// position at the very end of the line.
pub struct SeekLine {
    pub head: LineHead,
    pub level: Seq<char>,
    pub blanks: Seq<char>,
    pub label: Seq<char>,
    pub phrase: Seq<char>,
    pub number: Seq<char>,
}

impl SeekLine {
    pub open spec fn well_formed(self) -> bool {
        &&& self.head.well_formed()
        &&& (self.level == level_info() || self.level == level_debug())
        &&& self.blanks.len() >= 1
        &&& all_in(self.blanks, CharClass::Blank)
        &&& all_in(self.label, CharClass::Inline)
        &&& (self.phrase == phrase_sync() || self.phrase == phrase_drift())
        &&& self.number.len() >= 1
        &&& all_in(self.number, CharClass::Numeral)
    }

    /// The message: all of the line after the head.
    pub open spec fn message(self) -> Seq<char> {
        sync_tag() + self.level + self.blanks + manager_tag() + self.label + label_close()
            + self.phrase + update_tag() + self.number
    }

    /// The line that the parts make up.
    pub open spec fn text(self) -> Seq<char> {
        self.head.text() + self.message()
    }
}

/// `line` reports a seek.
pub open spec fn is_seek_line(line: Seq<char>) -> bool {
    exists|p: SeekLine| p.well_formed() && p.text() == line
}

/// `stamp` and `number` are the timestamp and the position that `line`
/// reports.
pub open spec fn is_seek_reading(line: Seq<char>, stamp: Seq<char>, number: Seq<char>) -> bool {
    exists|p: SeekLine|
        p.well_formed() && p.text() == line && p.head.stamp == stamp && p.number == number
}

/// The timestamp and the position that `line` reports, if it reports a seek.
pub open spec fn seek_reading(line: Seq<char>) -> Option<(Seq<char>, Seq<char>)> {
    if is_seek_line(line) {
        Some(choose|r: (Seq<char>, Seq<char>)| is_seek_reading(line, r.0, r.1))
    } else {
        None
    }
}

/// Where the timestamp ends and where the position starts, for a line that
/// reports a seek. The head and the tags up to the label are found from the
/// left, the position and the phrase from the right, and the label is what
/// lies between.
spec fn seek_span(line: Seq<char>) -> Option<(int, int)> {
    match head_span(line) {
        None => None,
        Some((stamp_end, message)) => {
            let level_at = message + 4;
            let info = has_at(line, level_at, level_info());
            let blanks_at = if info {
                level_at + 4
            } else {
                level_at + 5
            };
            let manager_at = run_end(line, blanks_at, CharClass::Blank);
            let label_start = manager_at + 11;
            let number_start = run_start(line, line.len() as int, CharClass::Numeral);
            let update_at = number_start - 14;
            let sync = has_at(line, update_at - 16, phrase_sync());
            let phrase_at = if sync {
                update_at - 16
            } else {
                update_at - 31
            };
            let label_end = phrase_at - 3;
            if has_at(line, message, sync_tag()) && (info || has_at(line, level_at, level_debug()))
                && manager_at > blanks_at && has_at(line, manager_at, manager_tag())
                && number_start < line.len() && has_at(line, update_at, update_tag()) && (sync
                || has_at(line, phrase_at, phrase_drift())) && has_at(
                line,
                label_end,
                label_close(),
            ) && label_start <= label_end && label_end <= run_end(
                line,
                label_start,
                CharClass::Inline,
            ) {
                Some((stamp_end, number_start))
            } else {
                None
            }
        },
    }
}

proof fn reveal_seek_literals()
    ensures
        sync_tag() == seq!['[', 'A', 'T', ' '],
        level_info() == seq!['I', 'N', 'F', 'O'],
        level_debug() == seq!['D', 'E', 'B', 'U', 'G'],
        manager_tag().len() == 11,
        manager_tag()[0] == 'T',
        label_close() == seq![')', ']', ' '],
        phrase_sync().len() == 16,
        phrase_sync()[15] == 't',
        phrase_drift().len() == 31,
        phrase_drift()[30] == 'd',
        update_tag().len() == 14,
        update_tag()[13] == ' ',
{
    reveal_strlit("[AT ");
    reveal_strlit("INFO");
    reveal_strlit("DEBUG");
    reveal_strlit("TVManager (");
    reveal_strlit(")] ");
    reveal_strlit("Sync enforcement");
    reveal_strlit("Paused drift threshold exceeded");
    reveal_strlit(". Updating to ");
    assert(sync_tag() =~= seq!['[', 'A', 'T', ' ']);
    assert(level_info() =~= seq!['I', 'N', 'F', 'O']);
    assert(level_debug() =~= seq!['D', 'E', 'B', 'U', 'G']);
    assert(label_close() =~= seq![')', ']', ' ']);
}

/// Two neighbouring stretches of a line make up the stretch that spans both.
proof fn lemma_join(line: Seq<char>, a: int, b: int, c: int)
    requires
        0 <= a <= b <= c <= line.len(),
    ensures
        line.subrange(a, b) + line.subrange(b, c) == line.subrange(a, c),
{
    assert(line.subrange(a, b) + line.subrange(b, c) =~= line.subrange(a, c));
}

/// Where the first `end` characters of a line are `before + (parts + last)`,
/// `last` stands right before `end` and the rest before it.
proof fn lemma_peel(line: Seq<char>, end: int, before: Seq<char>, parts: Seq<char>, last: Seq<char>)
    requires
        0 <= end <= line.len(),
        line.take(end) == before + (parts + last),
    ensures
        end - last.len() == before.len() + parts.len(),
        line.subrange(end - last.len(), end) == last,
        line.take(end - last.len()) == before + parts,
{
    let whole = before + (parts + last);
    assert(whole.len() == end);
    assert(line.subrange(end - last.len(), end) =~= last) by {
        assert forall|i: int| 0 <= i < last.len() implies line[end - last.len() + i] == last[i] by {
            assert(line.take(end)[end - last.len() + i] == whole[end - last.len() + i]);
        }
    }
    assert(line.take(end - last.len()) =~= before + parts) by {
        assert forall|i: int| 0 <= i < end - last.len() implies line[i] == (before + parts)[i] by {
            assert(line.take(end)[i] == whole[i]);
        }
    }
}

/// The parts of a line give a reading of it.
proof fn lemma_seek_reading_intro(line: Seq<char>, p: SeekLine)
    requires
        p.well_formed(),
        p.text() == line,
    ensures
        is_seek_line(line),
        is_seek_reading(line, p.head.stamp, p.number),
{
}

/// Parts that stand one after another in a line, from its start to its end,
/// make up the line.
proof fn lemma_seek_assemble(
    line: Seq<char>,
    p: SeekLine,
    message: int,
    level_at: int,
    blanks_at: int,
    manager_at: int,
    label_start: int,
    label_end: int,
    phrase_at: int,
    update_at: int,
    number_start: int,
)
    requires
        0 <= message <= level_at <= blanks_at <= manager_at <= label_start <= label_end
            <= phrase_at <= update_at <= number_start <= line.len(),
        p.head.text() == line.take(message),
        sync_tag() == line.subrange(message, level_at),
        p.level == line.subrange(level_at, blanks_at),
        p.blanks == line.subrange(blanks_at, manager_at),
        manager_tag() == line.subrange(manager_at, label_start),
        p.label == line.subrange(label_start, label_end),
        label_close() == line.subrange(label_end, phrase_at),
        p.phrase == line.subrange(phrase_at, update_at),
        update_tag() == line.subrange(update_at, number_start),
        p.number == line.skip(number_start),
    ensures
        p.text() == line,
{
    let length = line.len() as int;
    assert(p.number =~= line.subrange(number_start, length));
    let c1 = sync_tag() + p.level;
    lemma_join(line, message, level_at, blanks_at);
    let c2 = c1 + p.blanks;
    lemma_join(line, message, blanks_at, manager_at);
    let c3 = c2 + manager_tag();
    lemma_join(line, message, manager_at, label_start);
    let c4 = c3 + p.label;
    lemma_join(line, message, label_start, label_end);
    let c5 = c4 + label_close();
    lemma_join(line, message, label_end, phrase_at);
    let c6 = c5 + p.phrase;
    lemma_join(line, message, phrase_at, update_at);
    let c8 = c6 + update_tag();
    lemma_join(line, message, update_at, number_start);
    let c9 = c8 + p.number;
    lemma_join(line, message, number_start, length);
    assert(c9 == line.subrange(message, length));
    assert(p.message() == c9);
    lemma_join(line, 0, message, length);
    assert(line.take(message) =~= line.subrange(0, message));
    assert(line.subrange(0, length) =~= line);
}

/// A span that `seek_span` reports splits the line into the parts of a seek
/// line.
proof fn lemma_seek_span_sound(line: Seq<char>)
    requires
        seek_span(line) is Some,
    ensures
        ({
            let (stamp_end, number_start) = seek_span(line)->0;
            &&& 1 <= stamp_end < number_start < line.len()
            &&& is_seek_reading(line, line.take(stamp_end), line.skip(number_start))
        }),
{
    reveal_seek_literals();
    let (stamp_end, message) = head_span(line)->0;
    lemma_head_span_sound(line);
    let head = choose|h: LineHead|
        h.well_formed() && h.stamp == line.take(stamp_end) && h.text() == line.take(message);
    let level_at = message + 4;
    let info = has_at(line, level_at, level_info());
    let blanks_at = if info {
        level_at + 4
    } else {
        level_at + 5
    };
    let manager_at = run_end(line, blanks_at, CharClass::Blank);
    let label_start = manager_at + 11;
    let number_start = run_start(line, line.len() as int, CharClass::Numeral);
    let update_at = number_start - 14;
    let sync = has_at(line, update_at - 16, phrase_sync());
    let phrase_at = if sync {
        update_at - 16
    } else {
        update_at - 31
    };
    let label_end = phrase_at - 3;
    let length = line.len() as int;
    lemma_run_end(line, blanks_at, CharClass::Blank);
    lemma_run_end(line, label_start, CharClass::Inline);
    lemma_run_start(line, length, CharClass::Numeral);
    let p = SeekLine {
        head,
        level: line.subrange(level_at, blanks_at),
        blanks: line.subrange(blanks_at, manager_at),
        label: line.subrange(label_start, label_end),
        phrase: line.subrange(phrase_at, update_at),
        number: line.skip(number_start),
    };
    assert(p.well_formed());
    lemma_seek_assemble(
        line,
        p,
        message,
        level_at,
        blanks_at,
        manager_at,
        label_start,
        label_end,
        phrase_at,
        update_at,
        number_start,
    );
    assert(p.head.stamp == line.take(stamp_end));
    assert(p.number == line.skip(number_start));
    assert(stamp_end < message <= number_start);
    lemma_seek_reading_intro(line, p);
}

/// Where each part of a seek line stands in the line.
proof fn lemma_seek_layout(line: Seq<char>, p: SeekLine)
    requires
        p.text() == line,
    ensures
        ({
            let message = p.head.text().len() as int;
            let level_at = message + sync_tag().len();
            let blanks_at = level_at + p.level.len();
            let manager_at = blanks_at + p.blanks.len();
            let label_start = manager_at + manager_tag().len();
            let label_end = label_start + p.label.len();
            let phrase_at = label_end + label_close().len();
            let update_at = phrase_at + p.phrase.len();
            let number_start = update_at + update_tag().len();
            &&& line.len() == number_start + p.number.len()
            &&& line.take(message) == p.head.text()
            &&& line.subrange(message, level_at) == sync_tag()
            &&& line.subrange(level_at, blanks_at) == p.level
            &&& line.subrange(blanks_at, manager_at) == p.blanks
            &&& line.subrange(manager_at, label_start) == manager_tag()
            &&& line.subrange(label_start, label_end) == p.label
            &&& line.subrange(label_end, phrase_at) == label_close()
            &&& line.subrange(phrase_at, update_at) == p.phrase
            &&& line.subrange(update_at, number_start) == update_tag()
            &&& line.skip(number_start) == p.number
        }),
{
    let h = p.head.text();
    let length = line.len() as int;
    assert(line.take(length) =~= line);
    let c1 = sync_tag() + p.level;
    let c2 = c1 + p.blanks;
    let c3 = c2 + manager_tag();
    let c4 = c3 + p.label;
    let c5 = c4 + label_close();
    let c6 = c5 + p.phrase;
    let c8 = c6 + update_tag();
    assert(p.message() == c8 + p.number);
    lemma_peel(line, length, h, c8, p.number);
    let number_start = length - p.number.len();
    assert(line.skip(number_start) =~= line.subrange(number_start, length));
    lemma_peel(line, number_start, h, c6, update_tag());
    let update_at = number_start - update_tag().len();
    lemma_peel(line, update_at, h, c5, p.phrase);
    let phrase_at = update_at - p.phrase.len();
    lemma_peel(line, phrase_at, h, c4, label_close());
    let label_end = phrase_at - label_close().len();
    lemma_peel(line, label_end, h, c3, p.label);
    let label_start = label_end - p.label.len();
    lemma_peel(line, label_start, h, c2, manager_tag());
    let manager_at = label_start - manager_tag().len();
    lemma_peel(line, manager_at, h, c1, p.blanks);
    let blanks_at = manager_at - p.blanks.len();
    lemma_peel(line, blanks_at, h, sync_tag(), p.level);
    let level_at = blanks_at - p.level.len();
    assert(line.take(level_at) == h + (Seq::<char>::empty() + sync_tag())) by {
        assert(Seq::<char>::empty() + sync_tag() =~= sync_tag());
    }
    lemma_peel(line, level_at, h, Seq::<char>::empty(), sync_tag());
    assert(h + Seq::<char>::empty() =~= h);
}

/// Every way to split a line into the parts of a seek line agrees with the
/// span that `seek_span` reports.
#[verifier::rlimit(40)]
proof fn lemma_seek_span_complete(line: Seq<char>, p: SeekLine)
    requires
        p.well_formed(),
        p.text() == line,
    ensures
        seek_span(line) is Some,
        ({
            let (stamp_end, number_start) = seek_span(line)->0;
            &&& p.head.stamp == line.take(stamp_end)
            &&& p.number == line.skip(number_start)
        }),
{
    reveal_seek_literals();
    let m = p.message();
    assert(m[0] == '[');
    lemma_head_span_complete(line, p.head, m);
    lemma_seek_layout(line, p);
    let stamp_end = p.head.stamp.len() as int;
    let message = p.head.text().len() as int;
    let level_at = message + 4;
    let blanks_at = level_at + p.level.len();
    let manager_at = blanks_at + p.blanks.len();
    let label_start = manager_at + 11;
    let label_end = label_start + p.label.len();
    let phrase_at = label_end + 3;
    let update_at = phrase_at + p.phrase.len();
    let number_start = update_at + 14;
    assert(p.head.stamp =~= line.take(stamp_end)) by {
        assert(p.head.stamp =~= p.head.text().take(stamp_end));
        assert(line.take(message).take(stamp_end) =~= line.take(stamp_end));
    }
    // the level and the blanks, from the left
    let info = has_at(line, level_at, level_info());
    if p.level == level_info() {
        assert(info);
    } else {
        assert(line[level_at] == line.subrange(level_at, blanks_at)[0]);
        if info {
            assert(line[level_at] == line.subrange(level_at, level_at + 4)[0]);
        }
        assert(!info);
    }
    assert forall|i: int| blanks_at <= i < manager_at implies CharClass::Blank.contains(
        #[trigger] line[i],
    ) by {
        assert(line[i] == line.subrange(blanks_at, manager_at)[i - blanks_at]);
    }
    assert(line[manager_at] == line.subrange(manager_at, label_start)[0]);
    lemma_run_end_unique(line, blanks_at, CharClass::Blank, manager_at);
    // the position and the phrase, from the right
    assert forall|i: int| number_start <= i < line.len() implies CharClass::Numeral.contains(
        #[trigger] line[i],
    ) by {
        assert(line[i] == line.skip(number_start)[i - number_start]);
    }
    assert(line[number_start - 1] == line.subrange(update_at, number_start)[13]);
    lemma_run_start_unique(line, line.len() as int, CharClass::Numeral, number_start);
    let sync = has_at(line, update_at - 16, phrase_sync());
    if p.phrase == phrase_sync() {
        assert(sync);
    } else {
        assert(line[update_at - 1] == line.subrange(phrase_at, update_at)[30]);
        if sync {
            assert(line[update_at - 1] == line.subrange(update_at - 16, update_at)[15]);
        }
        assert(!sync);
    }
    // the label, between the two
    assert forall|i: int| label_start <= i < label_end implies CharClass::Inline.contains(
        #[trigger] line[i],
    ) by {
        assert(line[i] == line.subrange(label_start, label_end)[i - label_start]);
    }
    lemma_run_end(line, label_start, CharClass::Inline);
    assert(label_end <= run_end(line, label_start, CharClass::Inline)) by {
        let run = run_end(line, label_start, CharClass::Inline);
        if run < label_end {
            assert(CharClass::Inline.contains(line[run]));
        }
    }
}

/// A reading of a line is the one that `seek_reading` names.
pub proof fn lemma_seek_reading_unique(line: Seq<char>, stamp: Seq<char>, number: Seq<char>)
    requires
        is_seek_reading(line, stamp, number),
    ensures
        seek_reading(line) == Some((stamp, number)),
{
    let p = choose|p: SeekLine|
        p.well_formed() && p.text() == line && p.head.stamp == stamp && p.number == number;
    let given = (stamp, number);
    assert(is_seek_reading(line, given.0, given.1));
    let r = choose|r: (Seq<char>, Seq<char>)| is_seek_reading(line, r.0, r.1);
    let q = choose|q: SeekLine|
        q.well_formed() && q.text() == line && q.head.stamp == r.0 && q.number == r.1;
    lemma_seek_span_complete(line, p);
    lemma_seek_span_complete(line, q);
    assert(r =~= (stamp, number));
}

/// Finds the timestamp and the position of a line that reports a seek: where
/// the timestamp ends and where the position starts.
pub fn find_seek(line: &[char]) -> (r: Option<(usize, usize)>)
    ensures
        match r {
            Some((stamp_end, number_start)) => stamp_end <= number_start <= line@.len()
                && seek_reading(line@) == Some(
                (line@.take(stamp_end as int), line@.skip(number_start as int)),
            ),
            None => seek_reading(line@) is None,
        },
{
    proof {
        reveal_seek_literals();
        if seek_span(line@) is Some {
            lemma_seek_span_sound(line@);
            let (stamp_end, number_start) = seek_span(line@)->0;
            lemma_seek_reading_unique(line@, line@.take(stamp_end), line@.skip(number_start));
        } else {
            assert forall|p: SeekLine| p.well_formed() implies p.text() != line@ by {
                if p.text() == line@ {
                    lemma_seek_span_complete(line@, p);
                }
            }
        }
    }
    let length: usize = line.len();
    let (stamp_end, message) = match find_head(line) {
        Some(span) => span,
        None => {
            return None;
        },
    };
    if !literal_at(line, message, "[AT ") {
        return None;
    }
    let level_at: usize = message + 4;
    let blanks_at: usize = if literal_at(line, level_at, "INFO") {
        level_at + 4
    } else if literal_at(line, level_at, "DEBUG") {
        level_at + 5
    } else {
        return None;
    };
    let manager_at = scan_run(line, blanks_at, CharClass::Blank);
    if manager_at == blanks_at || !literal_at(line, manager_at, "TVManager (") {
        return None;
    }
    let label_start: usize = manager_at + 11;
    let number_start = scan_run_back(line, length, CharClass::Numeral);
    if number_start == length || number_start < 14 {
        return None;
    }
    let update_at: usize = number_start - 14;
    if !literal_at(line, update_at, ". Updating to ") {
        return None;
    }
    let phrase_at: usize = if update_at >= 16 && literal_at(
        line,
        update_at - 16,
        "Sync enforcement",
    ) {
        update_at - 16
    } else if update_at >= 31 && literal_at(
        line,
        update_at - 31,
        "Paused drift threshold exceeded",
    ) {
        update_at - 31
    } else {
        return None;
    };
    if phrase_at < 3 || !literal_at(line, phrase_at - 3, ")] ") {
        return None;
    }
    let label_end: usize = phrase_at - 3;
    if label_start > label_end || scan_run(line, label_start, CharClass::Inline) < label_end {
        return None;
    }
    Some((stamp_end, number_start))
}

/// A decimal numeral: digits with at most one point among them, and at least
/// one digit.
pub open spec fn is_decimal_numeral(s: Seq<char>) -> bool {
    &&& all_in(s, CharClass::Numeral)
    &&& exists|i: int| 0 <= i < s.len() && is_digit(#[trigger] s[i])
    &&& forall|i: int, j: int|
        0 <= i < j < s.len() ==> !(#[trigger] s[i] == '.' && #[trigger] s[j] == '.')
}

/// Tests whether `line[from..]` is a decimal numeral.
pub fn check_numeral(line: &[char], from: usize) -> (b: bool)
    requires
        from <= line@.len(),
    ensures
        b == is_decimal_numeral(line@.skip(from as int)),
{
    let ghost s = line@.skip(from as int);
    let mut digits: usize = 0;
    let mut points: usize = 0;
    let mut i: usize = from;
    while i < line.len()
        invariant
            from <= i <= line@.len(),
            s == line@.skip(from as int),
            digits <= i - from,
            points <= 1,
            forall|k: int| 0 <= k < i - from ==> CharClass::Numeral.contains(#[trigger] s[k]),
            digits > 0 <==> exists|k: int| 0 <= k < i - from && is_digit(#[trigger] s[k]),
            points == 0 <==> forall|k: int| 0 <= k < i - from ==> #[trigger] s[k] != '.',
            forall|k: int, j: int|
                0 <= k < j < i - from ==> !(#[trigger] s[k] == '.' && #[trigger] s[j] == '.'),
        decreases line@.len() - i,
    {
        let c = line[i];
        assert(s[i - from] == c);
        if '0' <= c && c <= '9' {
            digits += 1;
        } else if c == '.' {
            if points == 1 {
                proof {
                    let k = choose|k: int| 0 <= k < i - from && s[k] == '.';
                    assert(s[k] == '.' && s[i - from] == '.');
                }
                return false;
            }
            points = 1;
        } else {
            return false;
        }
        i += 1;
    }
    digits > 0
}

/// A seek that the log reports: playback was moved to a position.
#[derive(Debug)]
pub struct FoundSeek {
    /// When the line was written.
    pub timestamp: LocalInstant,
    /// The position in seconds, as the decimal numeral that the line gives.
    pub seek_offset: String,
}

/// `found` is what the line reports.
pub open spec fn is_seek_event_of(found: FoundSeek, line: Seq<char>) -> bool {
    &&& seek_reading(line) matches Some(reading)
    &&& wall_clock_of(reading.0) == Some(found.timestamp.wall_clock)
    &&& found.timestamp.is_valid()
    &&& is_decimal_numeral(reading.1)
    &&& found.seek_offset@ == reading.1
}

/// What the seek recogniser may return for a line: nothing for a line of
/// another shape; a refusal for a timestamp that names no time; where the
/// local time zone has the time, a refusal for a position that is no decimal
/// numeral, and otherwise the event.
pub open spec fn is_seek_outcome(line: Seq<char>, r: Result<Option<FoundSeek>, FatalError>) -> bool {
    match seek_reading(line) {
        None => r == Ok::<Option<FoundSeek>, FatalError>(None),
        Some(reading) => if !is_timestamp(reading.0) {
            r == Err::<Option<FoundSeek>, FatalError>(FatalError::MalformedTimestamp)
        } else {
            match r {
                Ok(Some(found)) => is_seek_event_of(found, line),
                Ok(None) => false,
                Err(e) => e == FatalError::NoLocalTime || (e == FatalError::MalformedNumber
                    && !is_decimal_numeral(reading.1)),
            }
        },
    }
}

/// The event of a seek line whose position starts at `number_start`, with the
/// instant that its timestamp was read as; or the refusal of a position that
/// is no decimal numeral.
pub fn seek_event(line: &[char], number_start: usize, timestamp: LocalInstant) -> (r: Result<
    FoundSeek,
    FatalError,
>)
    requires
        number_start <= line@.len(),
    ensures
        match r {
            Ok(found) => is_decimal_numeral(line@.skip(number_start as int)) && found.timestamp
                == timestamp && found.seek_offset@ == line@.skip(number_start as int),
            Err(e) => e == FatalError::MalformedNumber && !is_decimal_numeral(
                line@.skip(number_start as int),
            ),
        },
{
    if check_numeral(line, number_start) {
        let seek_offset = string_of(line, number_start, line.len());
        Ok(FoundSeek { timestamp, seek_offset })
    } else {
        Err(FatalError::MalformedNumber)
    }
}

/// Applies the seek recogniser to a line that is split into characters: finds
/// the position with `find_seek`, reads the timestamp with
/// `parse_timestamp_chars`, and makes the event with `seek_event`.
pub fn match_seek_line(line: &[char]) -> (r: Result<Option<FoundSeek>, FatalError>)
    ensures
        is_seek_outcome(line@, r),
{
    match find_seek(line) {
        None => Ok(None),
        Some((stamp_end, number_start)) => {
            let stamp = vstd::slice::slice_subrange(line, 0, stamp_end);
            match parse_timestamp_chars(stamp) {
                Ok(timestamp) => match seek_event(line, number_start, timestamp) {
                    Ok(found) => Ok(Some(found)),
                    Err(e) => Err(e),
                },
                Err(e) => Err(e),
            }
        },
    }
}

/// Applies the seek recogniser to a line: the event that the line reports, if
/// it is of the seek shape.
pub fn try_match_seek_line(line: &str) -> (r: Result<Option<FoundSeek>, FatalError>)
    ensures
        is_seek_outcome(line@, r),
{
    let chars = to_chars(line);
    match_seek_line(chars.as_slice())
}

/// A line that reports a URL has a reading, which `url_reading` names.
pub proof fn lemma_url_line_has_reading(line: Seq<char>)
    requires
        is_url_line(line),
    ensures
        url_reading(line) matches Some(r) && is_url_reading(line, r.0, r.1),
{
    let p = choose|p: UrlLine| p.well_formed() && p.text() == line;
    lemma_url_span_complete(line, p);
    lemma_url_span_sound(line);
    let (stamp_end, url_start, url_end) = url_span(line)->0;
    assert forall|q: UrlLine| q.well_formed() && q.text() == line implies q.url.len() <= url_end
        - url_start by {
        lemma_url_span_complete(line, q);
    }
    lemma_url_reading_unique(line, line.take(stamp_end), line.subrange(url_start, url_end));
}

/// A line that reports a seek has a reading, which `seek_reading` names.
pub proof fn lemma_seek_line_has_reading(line: Seq<char>)
    requires
        is_seek_line(line),
    ensures
        seek_reading(line) matches Some(r) && is_seek_reading(line, r.0, r.1),
{
    let p = choose|p: SeekLine| p.well_formed() && p.text() == line;
    lemma_seek_reading_intro(line, p);
    lemma_seek_reading_unique(line, p.head.stamp, p.number);
}

/// No line is of both shapes: the message of the one starts with the URL
/// marker, that of the other with the tag of the synchronisation subsystem.
pub proof fn lemma_shapes_disjoint(line: Seq<char>)
    ensures
        !(is_url_line(line) && is_seek_line(line)),
{
    if is_url_line(line) && is_seek_line(line) {
        let p = choose|p: UrlLine| p.well_formed() && p.text() == line;
        let q = choose|q: SeekLine| q.well_formed() && q.text() == line;
        reveal_strlit("[Video Playback] Attempting to resolve URL '");
        reveal_strlit("[AT ");
        let url_message = url_marker() + p.url + quote() + p.trailer;
        let seek_message = q.message();
        assert(line =~= p.head.text() + url_message);
        assert(url_message[0] == '[' && url_message[1] == 'V');
        assert(seek_message[0] == '[' && seek_message[1] == 'A');
        lemma_head_span_complete(line, p.head, url_message);
        lemma_head_span_complete(line, q.head, seek_message);
        let start = p.head.text().len() as int;
        assert(line[start + 1] == url_message[1]);
        assert(line[start + 1] == seek_message[1]);
    }
}

/// A line of neither shape yields no event from either recogniser.
pub proof fn lemma_unrecognised_line(
    line: Seq<char>,
    line_number: u64,
    from_url: Result<Option<FoundUrl>, FatalError>,
    from_seek: Result<Option<FoundSeek>, FatalError>,
)
    requires
        !is_url_line(line),
        !is_seek_line(line),
        is_url_outcome(line, line_number, from_url),
        is_seek_outcome(line, from_seek),
    ensures
        from_url == Ok::<Option<FoundUrl>, FatalError>(None),
        from_seek == Ok::<Option<FoundSeek>, FatalError>(None),
{
}

} // verus!
