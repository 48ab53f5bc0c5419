use vrc_log::pattern::{match_seek_line, match_url_line, seek_event, url_event};
use vrc_log::{
    try_match_seek_line, try_match_url_line, FatalError, LocalInstant, WallClock,
};

const URL_LINE: &str =
    "2024.04.14 21:25:34 Log        -  [Video Playback] Attempting to resolve URL 'http://example.com/s.m3u8'";
const SEEK_LINE: &str =
    "2024.04.22 17:55:53 Log        -  [AT INFO\tTVManager (Theatre 1)] Sync enforcement. Updating to 116.47";

#[test]
fn url_line_yields_url_and_timestamp() {
    let found = try_match_url_line(URL_LINE, 3).unwrap().unwrap();
    assert_eq!(found.url, "http://example.com/s.m3u8");
    assert_eq!(found.found_url_on_line, 3);
    let w = found.timestamp.wall_clock;
    assert_eq!((w.year, w.month, w.day), (2024, 4, 14));
    assert_eq!((w.hour, w.minute, w.second), (21, 25, 34));
}

#[test]
fn seek_line_yields_offset() {
    let found = try_match_seek_line(SEEK_LINE).unwrap().unwrap();
    assert_eq!(found.seek_offset, "116.47");
    assert_eq!(found.seek_offset.parse::<f64>().unwrap(), 116.47);
    let w = found.timestamp.wall_clock;
    assert_eq!((w.year, w.month, w.day), (2024, 4, 22));
    assert_eq!((w.hour, w.minute, w.second), (17, 55, 53));
}

#[test]
fn paused_drift_line_at_debug_level_yields_offset() {
    let line = "2024.05.09 19:11:19 Log        -  [AT DEBUG \tTVManager (Theatre 1 TVManager)] Paused drift threshold exceeded. Updating to 64.8041";
    let found = try_match_seek_line(line).unwrap().unwrap();
    assert_eq!(found.seek_offset.parse::<f64>().unwrap(), 64.8041);
}

#[test]
fn https_url_is_recognised() {
    let line = "2024.04.14 21:25:34 Log - [Video Playback] Attempting to resolve URL 'https://example.net/a?b=c'";
    let found = try_match_url_line(line, 1).unwrap().unwrap();
    assert_eq!(found.url, "https://example.net/a?b=c");
}

#[test]
fn lines_of_other_shapes_yield_nothing() {
    let lines = [
        "",
        "2024.04.14 21:25:36 Log        -  [AVProVideo] Opening http://example.com/stream.m3u8 (offset 0)",
        "2024.04.14 21:25:36 Log        -  [Video Playback] URL 'http://example.com/a' resolved to 'http://example.com/b'",
        "2024.04.14 21:25:34 Log - [Video Playback] Attempting to resolve URL 'ftp://example.com/s'",
        "2024.04.14 21:25:34 Log - [Video Playback] Attempting to resolve URL 'http://'",
        "2024.04.14 21:25:34 Log - [Video Playback] Attempting to resolve URL 'http://example.com/s",
        "x2024.04.14 21:25:34 Log - [Video Playback] Attempting to resolve URL 'http://x'",
        "2024.04.22 17:55:53 Log - [AT WARN TVManager (T)] Sync enforcement. Updating to 1.5",
        "2024.04.22 17:55:53 Log - [AT INFO TVManager (T)] Sync enforcement. Updating to 1.5 ",
        "2024.04.22 17:55:53 Log - [AT INFO TVManager (T)] Sync enforcement. Updating to ",
        "2024.04.22 17:55:53 Log - [AT INFOTVManager (T)] Sync enforcement. Updating to 1.5",
        "2024.04.22 17:55:53 Log - [AT INFO TVManager T] Sync enforcement. Updating to 1.5",
        "2024.04.22 17:55:53 Log -[AT INFO TVManager (T)] Sync enforcement. Updating to 1.5",
        "2024.04.22 17:55:53 Log - [AT INFO TVManager (T)] Sync enforcement.\n Updating to 1.5",
        "2024.04.22 17:55:53 Log - [AT INFO TVManager (T)] Sync enforcement: Updating to 1.5",
        "2024.04.22 17:55:53 Log - [AT INFO TVManager (T\n)] Sync enforcement. Updating to 1.5",
    ];
    for line in lines {
        assert!(matches!(try_match_url_line(line, 1), Ok(None)), "{}", line);
        assert!(matches!(try_match_seek_line(line), Ok(None)), "{}", line);
    }
}

#[test]
fn url_runs_to_the_last_quote_before_white_space() {
    let line = "2024.04.14 21:25:34 Log - [Video Playback] Attempting to resolve URL 'http://a/b'c'd' and 'more'";
    let found = try_match_url_line(line, 9).unwrap().unwrap();
    assert_eq!(found.url, "http://a/b'c'd");
}

#[test]
fn url_stops_at_unicode_white_space() {
    let line = "2024.04.14 21:25:34 Log - [Video Playback] Attempting to resolve URL 'http://a/b'\u{3000}c'";
    let found = try_match_url_line(line, 1).unwrap().unwrap();
    assert_eq!(found.url, "http://a/b");
    let broken = "2024.04.14 21:25:34 Log - [Video Playback] Attempting to resolve URL 'http://a\u{a0}b'";
    assert!(matches!(try_match_url_line(broken, 1), Ok(None)));
}

#[test]
fn url_line_may_carry_a_trailer() {
    let line = "2024.04.14 21:25:34 Log - [Video Playback] Attempting to resolve URL 'http://a/b' (retry)";
    let found = try_match_url_line(line, 2).unwrap().unwrap();
    assert_eq!(found.url, "http://a/b");
}

#[test]
fn seek_phrase_ends_with_a_full_stop() {
    let comma = "2024.04.22 17:55:53 Log        -  [AT INFO\tTVManager (Theatre 1)] Sync enforcement, Updating to 116.47";
    assert!(matches!(try_match_seek_line(comma), Ok(None)));
    for stop in ["!", "x", " ", "", "..", "\u{3002}"] {
        let line = format!(
            "2024.04.22 17:55:53 Log - [AT INFO TVManager (T)] Sync enforcement{} Updating to 7",
            stop
        );
        assert!(matches!(try_match_seek_line(&line), Ok(None)), "{:?}", line);
        assert!(matches!(try_match_url_line(&line, 1), Ok(None)), "{:?}", line);
    }
}

#[test]
fn label_runs_to_the_last_closing_bracket() {
    let line = "2024.04.22 17:55:53 Log - [AT INFO TVManager (a) (b)] x)] Sync enforcement. Updating to 7";
    let found = try_match_seek_line(line).unwrap().unwrap();
    assert_eq!(found.seek_offset, "7");
}

#[test]
fn events_are_made_of_what_the_line_holds() {
    let t = LocalInstant {
        wall_clock: WallClock { year: 2024, month: 4, day: 22, hour: 17, minute: 55, second: 53 },
        utc_offset: 7200,
    };
    let line: Vec<char> = "ab'http://x/y' 12.5".chars().collect();
    let found = url_event(&line, 3, 13, 42, t);
    assert_eq!(found.url, "http://x/y");
    assert_eq!(found.found_url_on_line, 42);
    assert_eq!(found.timestamp, t);
    let found = seek_event(&line, 15, t).unwrap();
    assert_eq!(found.seek_offset, "12.5");
    assert_eq!(found.timestamp, t);
    assert_eq!(seek_event(&line, 14, t).unwrap_err(), FatalError::MalformedNumber);
    assert_eq!(seek_event(&line, line.len(), t).unwrap_err(), FatalError::MalformedNumber);
}

#[test]
fn event_carries_the_instant_of_its_timestamp() {
    let expected = vrc_log::parse_timestamp("2024.04.14 21:25:34").unwrap();
    let found = try_match_url_line(URL_LINE, 3).unwrap().unwrap();
    assert_eq!(found.timestamp, expected);
    let expected = vrc_log::parse_timestamp("2024.04.22 17:55:53").unwrap();
    let found = try_match_seek_line(SEEK_LINE).unwrap().unwrap();
    assert_eq!(found.timestamp, expected);
}

#[test]
fn malformed_timestamp_in_url_line_is_fatal() {
    let line = "2024.13.14 21:25:34 Log - [Video Playback] Attempting to resolve URL 'http://a/b'";
    assert_eq!(try_match_url_line(line, 1).unwrap_err(), FatalError::MalformedTimestamp);
    let line = "2024.04.14  21:25:34 Log - [Video Playback] Attempting to resolve URL 'http://a/b'";
    assert_eq!(try_match_url_line(line, 1).unwrap_err(), FatalError::MalformedTimestamp);
    let line = ". Log - [Video Playback] Attempting to resolve URL 'http://a/b'";
    assert_eq!(try_match_url_line(line, 1).unwrap_err(), FatalError::MalformedTimestamp);
}

#[test]
fn malformed_timestamp_in_seek_line_is_fatal() {
    let line = "2024.04.22 24:55:53 Log - [AT INFO TVManager (T)] Sync enforcement. Updating to 1.5";
    assert_eq!(try_match_seek_line(line).unwrap_err(), FatalError::MalformedTimestamp);
}

#[test]
fn malformed_number_is_fatal() {
    for number in ["1.2.3", ".", "..", "1..2"] {
        let line = format!(
            "2024.04.22 17:55:53 Log - [AT INFO TVManager (T)] Sync enforcement. Updating to {}",
            number
        );
        assert_eq!(try_match_seek_line(&line).unwrap_err(), FatalError::MalformedNumber);
        assert!(number.parse::<f64>().is_err());
    }
}

#[test]
fn numerals_with_one_point_are_positions() {
    for number in ["0", "12", "1.", ".5", "116.47", "00012.500"] {
        let line = format!(
            "2024.04.22 17:55:53 Log - [AT INFO TVManager (T)] Sync enforcement. Updating to {}",
            number
        );
        let found = try_match_seek_line(&line).unwrap().unwrap();
        assert_eq!(found.seek_offset, number);
        assert!(found.seek_offset.parse::<f64>().is_ok());
    }
}

#[test]
fn malformed_timestamp_comes_before_malformed_number() {
    let line = "2024.04.22 17:55:99 Log - [AT INFO TVManager (T)] Sync enforcement. Updating to 1.2.3";
    assert_eq!(try_match_seek_line(line).unwrap_err(), FatalError::MalformedTimestamp);
}

#[test]
fn recognisers_on_characters_agree_with_those_on_strings() {
    let chars: Vec<char> = URL_LINE.chars().collect();
    let found = match_url_line(&chars, 5).unwrap().unwrap();
    assert_eq!(found.url, "http://example.com/s.m3u8");
    assert_eq!(found.found_url_on_line, 5);
    let chars: Vec<char> = SEEK_LINE.chars().collect();
    let found = match_seek_line(&chars).unwrap().unwrap();
    assert_eq!(found.seek_offset, "116.47");
}
