//! The watcher of a growing log: the tail, with both recognisers applied to
//! every line that it delivers.

use crate::error::FatalError;
use crate::history::{seek_line_fails_with, url_line_fails_with};
use crate::lines::LogText;
use crate::pattern::{
    is_seek_event_of, is_seek_line, is_url_event_of, is_url_line, lemma_shapes_disjoint,
    try_match_seek_line, try_match_url_line, FoundSeek, FoundUrl,
};
use crate::tail::{
    lemma_delivery_numbered, numbered, numbered_after, TailEvent, TailSession, TailedLine,
};
use vstd::prelude::*;

verus! {

/// An event that a line of the log reports.
#[derive(Debug)]
pub enum VrcLogWatcherEvent {
    FoundUrl(FoundUrl),
    FoundSeek(FoundSeek),
}

/// `events` is what the line numbered `number` reports: its URL, its seek, or
/// nothing.
pub open spec fn is_line_events(
    line: Seq<char>,
    number: int,
    events: Seq<VrcLogWatcherEvent>,
) -> bool {
    if is_url_line(line) {
        &&& events.len() == 1
        &&& events[0] matches VrcLogWatcherEvent::FoundUrl(found)
        &&& found.found_url_on_line == number
        &&& is_url_event_of(found, line, found.found_url_on_line)
    } else if is_seek_line(line) {
        &&& events.len() == 1
        &&& events[0] matches VrcLogWatcherEvent::FoundSeek(found)
        &&& is_seek_event_of(found, line)
    } else {
        events.len() == 0
    }
}

/// `events` is what the first `upto` of the numbered lines report, in the
/// order of the lines.
pub open spec fn is_events_of(
    lines: Seq<(Seq<char>, int)>,
    upto: int,
    events: Seq<VrcLogWatcherEvent>,
) -> bool
    decreases upto,
{
    if upto <= 0 {
        events.len() == 0
    } else {
        exists|cut: int|
            #![trigger events.skip(cut)]
            0 <= cut <= events.len() && is_events_of(lines, upto - 1, events.take(cut))
                && is_line_events(lines[upto - 1].0, lines[upto - 1].1, events.skip(cut))
    }
}

/// The events of some lines, followed by the events of the next line, are the
/// events of all of them.
proof fn lemma_events_extend(
    lines: Seq<(Seq<char>, int)>,
    upto: int,
    events: Seq<VrcLogWatcherEvent>,
    cut: int,
)
    requires
        0 < upto <= lines.len(),
        0 <= cut <= events.len(),
        is_events_of(lines, upto - 1, events.take(cut)),
        is_line_events(lines[upto - 1].0, lines[upto - 1].1, events.skip(cut)),
    ensures
        is_events_of(lines, upto, events),
{
}

/// What one step of the watcher gives: the events to hand on, in order, and
/// the failure that ended the step, if one did.
#[derive(Debug)]
pub struct WatchStep {
    pub events: Vec<VrcLogWatcherEvent>,
    pub failure: Option<FatalError>,
}

/// `step` is what the numbered lines give: the events of all of them, or the
/// events of those before the first line on which a recogniser fails, with
/// that failure.
pub open spec fn is_watch_step(lines: Seq<(Seq<char>, int)>, step: WatchStep) -> bool {
    match step.failure {
        None => is_events_of(lines, lines.len() as int, step.events@),
        Some(e) => exists|stop: int|
            0 <= stop < lines.len() && #[trigger] is_events_of(lines, stop, step.events@) && (
            url_line_fails_with(lines[stop].0, e) || seek_line_fails_with(lines[stop].0, e)),
    }
}

/// Takes in what the URL recogniser gave for a line: its event is added to
/// `events`, its failure is handed back.
pub fn record_url(
    events: &mut Vec<VrcLogWatcherEvent>,
    outcome: Result<Option<FoundUrl>, FatalError>,
) -> (failure: Option<FatalError>)
    ensures
        match outcome {
            Err(e) => failure == Some(e) && final(events)@ == old(events)@,
            Ok(Some(found)) => failure is None && final(events)@ == old(events)@.push(
                VrcLogWatcherEvent::FoundUrl(found),
            ),
            Ok(None) => failure is None && final(events)@ == old(events)@,
        },
{
    match outcome {
        Err(e) => Some(e),
        Ok(Some(found)) => {
            events.push(VrcLogWatcherEvent::FoundUrl(found));
            None
        },
        Ok(None) => None,
    }
}

/// Takes in what the seek recogniser gave for a line: its event is added to
/// `events`, its failure is handed back.
pub fn record_seek(
    events: &mut Vec<VrcLogWatcherEvent>,
    outcome: Result<Option<FoundSeek>, FatalError>,
) -> (failure: Option<FatalError>)
    ensures
        match outcome {
            Err(e) => failure == Some(e) && final(events)@ == old(events)@,
            Ok(Some(found)) => failure is None && final(events)@ == old(events)@.push(
                VrcLogWatcherEvent::FoundSeek(found),
            ),
            Ok(None) => failure is None && final(events)@ == old(events)@,
        },
{
    match outcome {
        Err(e) => Some(e),
        Ok(Some(found)) => {
            events.push(VrcLogWatcherEvent::FoundSeek(found));
            None
        },
        Ok(None) => None,
    }
}

/// Applies both recognisers to the lines that the tail delivered, in order,
/// and stops at the first failure.
pub fn recognise(delivered: &Vec<TailedLine>) -> (step: WatchStep)
    ensures
        is_watch_step(numbered(delivered@), step),
{
    let ghost lines = numbered(delivered@);
    let mut events: Vec<VrcLogWatcherEvent> = Vec::new();
    let mut k: usize = 0;
    while k < delivered.len()
        invariant
            k <= delivered@.len(),
            lines == numbered(delivered@),
            is_events_of(lines, k as int, events@),
        decreases delivered@.len() - k,
    {
        let line = &delivered[k];
        let ghost before = events@;
        proof {
            lemma_shapes_disjoint(line.text@);
            assert(before.take(before.len() as int) =~= before);
            assert(lines[k as int] == (line.text@, line.number as int));
        }
        let from_url = try_match_url_line(line.text.as_str(), line.number);
        if let Some(e) = record_url(&mut events, from_url) {
            let step = WatchStep { events, failure: Some(e) };
            proof {
                assert(url_line_fails_with(lines[k as int].0, e));
                assert(is_events_of(lines, k as int, step.events@));
            }
            return step;
        }
        let from_seek = try_match_seek_line(line.text.as_str());
        if let Some(e) = record_seek(&mut events, from_seek) {
            let step = WatchStep { events, failure: Some(e) };
            proof {
                assert(seek_line_fails_with(lines[k as int].0, e));
                assert(step.events@ == before);
                assert(is_events_of(lines, k as int, step.events@));
            }
            return step;
        }
        proof {
            let cut = before.len() as int;
            assert(events@.take(cut) =~= before);
            assert(is_line_events(lines[k as int].0, lines[k as int].1, events@.skip(cut)));
            lemma_events_extend(lines, k + 1, events@, cut);
        }
        k += 1;
    }
    WatchStep { events, failure: None }
}

/// The watcher's state: the tail that it reads through.
pub struct VrcLogWatcher {
    session: TailSession,
}

impl VrcLogWatcher {
    /// The number of the last line that was dealt with or skipped.
    pub closed spec fn last_delivered(self) -> u64 {
        self.session.last_delivered()
    }

    /// Opens a watcher on a file whose first `start_after_line` lines were
    /// read before, and gives the events of the lines beyond them. A file that
    /// holds fewer lines is refused.
    pub fn new(log: &LogText, start_after_line: u64) -> (r: Result<
        (VrcLogWatcher, WatchStep),
        FatalError,
    >)
        ensures
            match r {
                Ok((watcher, step)) => {
                    &&& start_after_line <= log.lines().len()
                    &&& watcher.last_delivered() == log.lines().len()
                    &&& is_watch_step(numbered_after(log.lines(), start_after_line as int), step)
                },
                Err(e) => e == FatalError::FileTooShort && log.lines().len() < start_after_line,
            },
    {
        match TailSession::open(log, start_after_line) {
            Err(e) => Err(e),
            Ok((session, delivered)) => {
                proof {
                    lemma_delivery_numbered(delivered@, log.lines(), start_after_line as int);
                }
                Ok((VrcLogWatcher { session }, recognise(&delivered)))
            },
        }
    }

    /// One step of the watcher: the events to hand on for what the watcher of
    /// the file handed over.
    pub fn watch_file(&mut self, event: &TailEvent) -> (step: WatchStep)
        ensures
            match *event {
                TailEvent::Changed(log) => is_watch_step(
                    numbered_after(log.lines(), old(self).last_delivered() as int),
                    step,
                ) && final(self).last_delivered() == if log.lines().len() > old(
                    self,
                ).last_delivered() {
                    log.lines().len() as int
                } else {
                    old(self).last_delivered() as int
                },
                TailEvent::Failed => step.events@.len() == 0 && step.failure == Some(
                    FatalError::WatchFailed,
                ) && *final(self) == *old(self),
            },
    {
        match self.session.tail_file(event) {
            Ok(delivered) => {
                proof {
                    if *event is Changed {
                        lemma_delivery_numbered(
                            delivered@,
                            event->Changed_0.lines(),
                            old(self).last_delivered() as int,
                        );
                    }
                }
                recognise(&delivered)
            },
            Err(e) => WatchStep { events: Vec::new(), failure: Some(e) },
        }
    }
}

} // verus!
