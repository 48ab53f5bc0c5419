use vrc_log::history::{keep_last, last_seek, last_url, scan_result};
use vrc_log::{FatalError, LogText, UrlAndSeekResult, VrcLogReader};

fn url(second: u32, path: &str) -> String {
    format!(
        "2024.04.14 21:25:{:02} Log        -  [Video Playback] Attempting to resolve URL 'http://example.com/{}'",
        second, path
    )
}

fn seek(second: u32, offset: &str) -> String {
    format!(
        "2024.04.14 21:26:{:02} Log        -  [AT INFO    \tTVManager (Theatre 1)] Sync enforcement. Updating to {}",
        second, offset
    )
}

fn file(lines: &[String]) -> String {
    let mut text = String::new();
    for line in lines {
        text.push_str(line);
        text.push('\n');
    }
    text
}

fn noise(n: u32) -> String {
    format!("2024.04.14 21:20:{:02} Log        -  something else", n)
}

#[test]
fn empty_file_holds_nothing() {
    let mut reader = VrcLogReader::new("");
    assert_eq!(reader.lines_read_initially(), None);
    match reader.get_latest_url_and_seek().unwrap() {
        UrlAndSeekResult::Nothing(count) => assert_eq!(count, 0),
        other => panic!("{:?}", other),
    }
    assert_eq!(reader.lines_read_initially(), Some(0));
}

#[test]
fn line_count_is_the_number_of_terminated_lines() {
    let text = "a\nb\n\nc\r\nd";
    let log = LogText::new(text);
    assert_eq!(log.line_count(), 4);
    assert_eq!(log.line(0).iter().collect::<String>(), "a");
    assert_eq!(log.line(1).iter().collect::<String>(), "b");
    assert_eq!(log.line(2).iter().collect::<String>(), "");
    assert_eq!(log.line(3).iter().collect::<String>(), "c");
    let mut reader = VrcLogReader::new(text);
    match reader.get_latest_url_and_seek().unwrap() {
        UrlAndSeekResult::Nothing(count) => assert_eq!(count, 4),
        other => panic!("{:?}", other),
    }
    assert_eq!(LogText::new("\n\n\n").line_count(), 3);
    assert_eq!(LogText::new("no line feed").line_count(), 0);
    assert_eq!(LogText::new("\r\n").line(0).len(), 0);
    assert_eq!(LogText::new("a\r\r\n").line(0).iter().collect::<String>(), "a\r");
}

#[test]
fn seek_before_the_last_url_is_left_out() {
    let text = file(&[noise(1), noise(2), url(3, "a"), noise(4), seek(5, "10.5"), noise(6), url(7, "b"), noise(8)]);
    let mut reader = VrcLogReader::new(&text);
    match reader.get_latest_url_and_seek().unwrap() {
        UrlAndSeekResult::Url(found, count) => {
            assert_eq!(found.found_url_on_line, 7);
            assert_eq!(found.url, "http://example.com/b");
            assert_eq!(found.timestamp.wall_clock.second, 7);
            assert_eq!(count, 8);
        }
        other => panic!("{:?}", other),
    }
}

#[test]
fn last_seek_after_the_url_is_paired_with_it() {
    let text = file(&[
        noise(1), noise(2), url(3, "a"), seek(4, "1.25"), noise(5), noise(6), noise(7), noise(8), seek(9, "99.5"), noise(10),
    ]);
    let mut reader = VrcLogReader::new(&text);
    match reader.get_latest_url_and_seek().unwrap() {
        UrlAndSeekResult::UrlAndSeek(found, seek, count) => {
            assert_eq!(found.found_url_on_line, 3);
            assert_eq!(found.url, "http://example.com/a");
            assert_eq!(seek.seek_offset.parse::<f64>().unwrap(), 99.5);
            assert_eq!(seek.timestamp.wall_clock.second, 9);
            assert_eq!(count, 10);
        }
        other => panic!("{:?}", other),
    }
    assert_eq!(reader.lines_read_initially(), Some(10));
}

#[test]
fn seeks_without_a_url_are_nothing() {
    let text = file(&[seek(1, "1"), seek(2, "2")]);
    let mut reader = VrcLogReader::new(&text);
    match reader.get_latest_url_and_seek().unwrap() {
        UrlAndSeekResult::Nothing(count) => assert_eq!(count, 2),
        other => panic!("{:?}", other),
    }
}

#[test]
fn unfinished_last_line_is_not_scanned() {
    let mut text = file(&[url(1, "a")]);
    text.push_str(&url(2, "b"));
    let mut reader = VrcLogReader::new(&text);
    match reader.get_latest_url_and_seek().unwrap() {
        UrlAndSeekResult::Url(found, count) => {
            assert_eq!(found.found_url_on_line, 1);
            assert_eq!(count, 1);
        }
        other => panic!("{:?}", other),
    }
}

#[test]
fn carriage_returns_before_line_feeds_are_dropped() {
    let text = format!("{}\r\n{}\r\n", url(1, "a"), seek(2, "3.5"));
    let mut reader = VrcLogReader::new(&text);
    match reader.get_latest_url_and_seek().unwrap() {
        UrlAndSeekResult::UrlAndSeek(found, seek, count) => {
            assert_eq!(found.url, "http://example.com/a");
            assert_eq!(seek.seek_offset, "3.5");
            assert_eq!(count, 2);
        }
        other => panic!("{:?}", other),
    }
}

#[test]
fn searches_can_be_run_one_by_one() {
    let text = file(&[seek(1, "1"), url(2, "a"), seek(3, "3"), url(4, "b"), seek(5, "5"), seek(6, "6")]);
    let mut reader = VrcLogReader::new(&text);
    let found = reader.find_last_url().unwrap().unwrap();
    assert_eq!(found.found_url_on_line, 4);
    assert_eq!(reader.lines_read_initially(), Some(6));
    assert_eq!(reader.find_last_seek(4).unwrap().unwrap().seek_offset, "6");
    assert_eq!(reader.find_last_seek(6).unwrap().unwrap().seek_offset, "6");
    assert!(reader.find_last_seek(7).unwrap().is_none());
    assert!(reader.find_last_seek(100).unwrap().is_none());
    assert_eq!(reader.find_last_seek(0).unwrap().unwrap().seek_offset, "6");
    let log = LogText::new(&text);
    assert_eq!(last_url(&log).unwrap().unwrap().url, "http://example.com/b");
    assert_eq!(last_seek(&log, 1).unwrap().unwrap().seek_offset, "6");
}

#[test]
fn malformed_url_line_ends_the_scan() {
    let bad = "2024.04.14 21:25:77 Log - [Video Playback] Attempting to resolve URL 'http://example.com/x'".to_string();
    let text = file(&[url(1, "a"), bad, url(3, "b")]);
    let mut reader = VrcLogReader::new(&text);
    assert_eq!(reader.get_latest_url_and_seek().unwrap_err(), FatalError::MalformedTimestamp);
}

#[test]
fn malformed_seek_before_the_url_is_not_read() {
    let text = file(&[seek(1, "1.2.3"), url(2, "a"), seek(3, "4")]);
    let mut reader = VrcLogReader::new(&text);
    match reader.get_latest_url_and_seek().unwrap() {
        UrlAndSeekResult::UrlAndSeek(found, seek, count) => {
            assert_eq!(found.found_url_on_line, 2);
            assert_eq!(seek.seek_offset, "4");
            assert_eq!(count, 3);
        }
        other => panic!("{:?}", other),
    }
    let text = file(&[url(1, "a"), seek(2, "1.2.3"), seek(3, "4")]);
    let mut reader = VrcLogReader::new(&text);
    assert_eq!(reader.get_latest_url_and_seek().unwrap_err(), FatalError::MalformedNumber);
}

#[test]
fn search_keeps_the_last_match_and_stops_at_a_failure() {
    assert_eq!(keep_last(Some(1), Ok(None)), Ok(Some(1)));
    assert_eq!(keep_last(Some(1), Ok(Some(2))), Ok(Some(2)));
    assert_eq!(keep_last(None::<u8>, Ok(None)), Ok(None));
    assert_eq!(keep_last(None, Ok(Some(3))), Ok(Some(3)));
    assert_eq!(keep_last(Some(1), Err(FatalError::NoLocalTime)), Err(FatalError::NoLocalTime));
    assert_eq!(
        keep_last(None::<u8>, Err(FatalError::MalformedNumber)),
        Err(FatalError::MalformedNumber)
    );
}

#[test]
fn scan_result_is_made_of_what_the_searches_found() {
    let log = LogText::new(&file(&[url(1, "a"), seek(2, "3.5")]));
    let found = last_url(&log).unwrap();
    let position = last_seek(&log, 1).unwrap();
    assert!(matches!(scan_result(None, None, 7), UrlAndSeekResult::Nothing(7)));
    assert!(matches!(scan_result(None, last_seek(&log, 1).unwrap(), 7), UrlAndSeekResult::Nothing(7)));
    assert!(matches!(
        scan_result(last_url(&log).unwrap(), None, 8),
        UrlAndSeekResult::Url(u, 8) if u.url == "http://example.com/a"
    ));
    assert!(matches!(
        scan_result(found, position, 9),
        UrlAndSeekResult::UrlAndSeek(u, s, 9) if u.found_url_on_line == 1 && s.seek_offset == "3.5"
    ));
}
