use vrc_log::watcher::{recognise, record_seek, record_url};
use vrc_log::{
    skip_n_lines, FatalError, LogText, TailEvent, TailSession, VrcLogWatcher, VrcLogWatcherEvent,
};

fn url(second: u32, path: &str) -> String {
    format!(
        "2024.04.14 21:25:{:02} Log        -  [Video Playback] Attempting to resolve URL 'https://example.com/{}'\n",
        second, path
    )
}

fn seek(second: u32, offset: &str) -> String {
    format!(
        "2024.04.14 21:26:{:02} Log        -  [AT DEBUG \tTVManager (Theatre 1)] Paused drift threshold exceeded. Updating to {}\n",
        second, offset
    )
}

fn changed(text: &str) -> TailEvent {
    TailEvent::Changed(LogText::new(text))
}

fn numbered(lines: &[vrc_log::TailedLine]) -> Vec<(u64, String)> {
    lines.iter().map(|l| (l.number, l.text.clone())).collect()
}

#[test]
fn tail_at_the_end_of_a_file_waits_for_more() {
    let mut text = String::from("one\ntwo\nthree\n");
    let (mut session, first) = TailSession::open(&LogText::new(&text), 3).unwrap();
    assert!(first.is_empty());
    assert!(session.tail_file(&changed(&text)).unwrap().is_empty());
    text.push_str("four\n");
    let out = session.tail_file(&changed(&text)).unwrap();
    assert_eq!(numbered(&out), vec![(4, "four".to_string())]);
    assert!(session.tail_file(&changed(&text)).unwrap().is_empty());
    text.push_str("five\nsix\n");
    let out = session.tail_file(&changed(&text)).unwrap();
    assert_eq!(numbered(&out), vec![(5, "five".to_string()), (6, "six".to_string())]);
}

#[test]
fn lines_that_arrive_together_are_all_delivered_once() {
    let mut text = String::from("one\n");
    let (mut session, _) = TailSession::open(&LogText::new(&text), 1).unwrap();
    text.push_str("two\nthree\n");
    let out = session.tail_file(&changed(&text)).unwrap();
    assert_eq!(numbered(&out), vec![(2, "two".to_string()), (3, "three".to_string())]);
    assert!(session.tail_file(&changed(&text)).unwrap().is_empty());
}

#[test]
fn tail_delivers_what_the_file_holds_beyond_the_skipped_lines() {
    let text = "one\ntwo\r\nthree\nfour";
    let (_, out) = TailSession::open(&LogText::new(text), 1).unwrap();
    assert_eq!(numbered(&out), vec![(2, "two".to_string()), (3, "three".to_string())]);
    let (_, out) = TailSession::open(&LogText::new(text), 0).unwrap();
    assert_eq!(out.len(), 3);
    assert_eq!(out[0].number, 1);
}

#[test]
fn line_is_delivered_only_when_it_is_finished() {
    let mut text = String::from("one\ntw");
    let (mut session, out) = TailSession::open(&LogText::new(&text), 0).unwrap();
    assert_eq!(numbered(&out), vec![(1, "one".to_string())]);
    text.push('o');
    assert!(session.tail_file(&changed(&text)).unwrap().is_empty());
    text.push('\n');
    let out = session.tail_file(&changed(&text)).unwrap();
    assert_eq!(numbered(&out), vec![(2, "two".to_string())]);
}

#[test]
fn file_shorter_than_the_skip_count_is_refused() {
    let log = LogText::new("one\ntwo\npartial");
    assert_eq!(skip_n_lines(&log, 2), Ok(()));
    assert_eq!(skip_n_lines(&log, 3), Err(FatalError::FileTooShort));
    assert_eq!(TailSession::open(&log, 3).err(), Some(FatalError::FileTooShort));
    assert_eq!(VrcLogWatcher::new(&log, 3).err(), Some(FatalError::FileTooShort));
    assert!(TailSession::open(&log, 2).is_ok());
}

#[test]
fn broken_watch_is_fatal() {
    let (mut session, _) = TailSession::open(&LogText::new(""), 0).unwrap();
    assert_eq!(session.tail_file(&TailEvent::Failed).err(), Some(FatalError::WatchFailed));
    let (mut watcher, _) = VrcLogWatcher::new(&LogText::new(""), 0).unwrap();
    let step = watcher.watch_file(&TailEvent::Failed);
    assert!(step.events.is_empty());
    assert_eq!(step.failure, Some(FatalError::WatchFailed));
}

#[test]
fn file_that_shrank_delivers_nothing() {
    let (mut session, _) = TailSession::open(&LogText::new("one\ntwo\n"), 2).unwrap();
    assert!(session.tail_file(&changed("one\n")).unwrap().is_empty());
    let out = session.tail_file(&changed("one\ntwo\nthree\n")).unwrap();
    assert_eq!(numbered(&out), vec![(3, "three".to_string())]);
}

#[test]
fn watcher_reports_events_in_line_order() {
    let mut text = format!("{}{}", url(1, "old"), seek(2, "1.5"));
    let (mut watcher, first) = VrcLogWatcher::new(&LogText::new(&text), 2).unwrap();
    assert!(first.events.is_empty());
    assert_eq!(first.failure, None);
    text.push_str("noise\n");
    text.push_str(&url(4, "new"));
    text.push_str(&seek(5, "20.25"));
    text.push_str(&seek(6, "30"));
    let step = watcher.watch_file(&changed(&text));
    assert_eq!(step.failure, None);
    assert_eq!(step.events.len(), 3);
    match &step.events[0] {
        VrcLogWatcherEvent::FoundUrl(found) => {
            assert_eq!(found.url, "https://example.com/new");
            assert_eq!(found.found_url_on_line, 4);
            assert_eq!(found.timestamp.wall_clock.second, 4);
        }
        other => panic!("{:?}", other),
    }
    match &step.events[1] {
        VrcLogWatcherEvent::FoundSeek(found) => {
            assert_eq!(found.seek_offset.parse::<f64>().unwrap(), 20.25)
        }
        other => panic!("{:?}", other),
    }
    match &step.events[2] {
        VrcLogWatcherEvent::FoundSeek(found) => assert_eq!(found.seek_offset, "30"),
        other => panic!("{:?}", other),
    }
    let step = watcher.watch_file(&changed(&text));
    assert!(step.events.is_empty());
    assert_eq!(step.failure, None);
}

#[test]
fn watcher_hands_on_the_events_before_a_failure() {
    let text = format!("{}{}{}", url(1, "a"), seek(2, "1.2.3"), url(3, "b"));
    let (_, step) = VrcLogWatcher::new(&LogText::new(&text), 0).unwrap();
    assert_eq!(step.failure, Some(FatalError::MalformedNumber));
    assert_eq!(step.events.len(), 1);
    assert!(matches!(&step.events[0], VrcLogWatcherEvent::FoundUrl(found) if found.url == "https://example.com/a"));
}

#[test]
fn scan_and_watch_meet_without_gap_or_overlap() {
    let mut text = format!("{}{}", url(1, "a"), seek(2, "5"));
    let mut reader = vrc_log::VrcLogReader::new(&text);
    let count = match reader.get_latest_url_and_seek().unwrap() {
        vrc_log::UrlAndSeekResult::UrlAndSeek(_, _, count) => count,
        other => panic!("{:?}", other),
    };
    assert_eq!(count, 2);
    text.push_str(&seek(3, "6"));
    let (mut watcher, step) = VrcLogWatcher::new(&LogText::new(&text), count).unwrap();
    assert_eq!(step.events.len(), 1);
    text.push_str(&url(4, "b"));
    let step = watcher.watch_file(&changed(&text));
    assert_eq!(step.events.len(), 1);
    assert!(matches!(&step.events[0], VrcLogWatcherEvent::FoundUrl(found) if found.found_url_on_line == 4));
}

#[test]
fn recognisers_are_applied_to_what_the_tail_delivers() {
    let text = format!("noise\n{}{}", url(2, "a"), seek(3, "9"));
    let (_, delivered) = TailSession::open(&LogText::new(&text), 1).unwrap();
    let step = recognise(&delivered);
    assert_eq!(step.failure, None);
    assert_eq!(step.events.len(), 2);
    assert!(matches!(&step.events[0], VrcLogWatcherEvent::FoundUrl(f) if f.found_url_on_line == 2));
    assert!(matches!(&step.events[1], VrcLogWatcherEvent::FoundSeek(f) if f.seek_offset == "9"));

    let mut events = Vec::new();
    assert_eq!(record_url(&mut events, Ok(None)), None);
    assert_eq!(record_seek(&mut events, Ok(None)), None);
    assert!(events.is_empty());
    assert_eq!(record_url(&mut events, Err(FatalError::NoLocalTime)), Some(FatalError::NoLocalTime));
    assert_eq!(
        record_seek(&mut events, Err(FatalError::MalformedNumber)),
        Some(FatalError::MalformedNumber)
    );
    assert!(events.is_empty());
    let found = vrc_log::try_match_url_line(url(5, "b").trim_end(), 5).unwrap();
    assert_eq!(record_url(&mut events, Ok(found)), None);
    let found = vrc_log::try_match_seek_line(seek(6, "1.5").trim_end()).unwrap();
    assert_eq!(record_seek(&mut events, Ok(found)), None);
    assert_eq!(events.len(), 2);
    assert!(matches!(&events[0], VrcLogWatcherEvent::FoundUrl(f) if f.url == "https://example.com/b"));
    assert!(matches!(&events[1], VrcLogWatcherEvent::FoundSeek(f) if f.seek_offset == "1.5"));
}
