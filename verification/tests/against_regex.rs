use lazy_regex::Regex;
use vrc_log::pattern::{find_seek, find_url};

fn samples() -> Vec<String> {
    let heads = [
        "2024.04.14 21:25:34 Log        -  ",
        "2024.04.14 21:25:34 Log - ",
        "2024.04.14 21:25:34 Log-  ",
        "2024.04.14 21:25:34 Log  -",
        "2024.04.14 21:25:34  Log - ",
        "2024.04.14 21:25:34Log - ",
        "1 Log - ",
        "  Log - ",
        " Log - ",
        ":. Log - ",
        "2024 Log - Log - ",
        "x Log - ",
        "",
    ];
    let messages = [
        "[Video Playback] Attempting to resolve URL 'http://example.com/s.m3u8'",
        "[Video Playback] Attempting to resolve URL 'https://example.com/s.m3u8' tail",
        "[Video Playback] Attempting to resolve URL 'https://a'b'c 'd'",
        "[Video Playback] Attempting to resolve URL 'http://''",
        "[Video Playback] Attempting to resolve URL 'http://'",
        "[Video Playback] Attempting to resolve URL 'https//a'",
        "[Video Playback] Attempting to resolve URL 'http://a\tb'",
        "[Video Playback] Attempting to resolve URL 'http://a\u{2003}b'c'",
        "[Video Playback] Attempting to resolve URL 'http://a\u{85}'",
        "[Video Playback] Attempting to resolve URL 'http://\u{e9}t\u{e9}'",
        "[Video Playback] Attempting to resolve URL 'httpss://a'",
        "[Video Playback]  Attempting to resolve URL 'http://a'",
        "[AT INFO    \tTVManager (Theatre 1 TVManager)] Sync enforcement. Updating to 116.47",
        "[AT DEBUG \tTVManager (Theatre 1 TVManager)] Paused drift threshold exceeded. Updating to 64.8041",
        "[AT DEBUG\tTVManager ()] Paused drift threshold exceeded. Updating to .",
        "[AT INFO TVManager (a)] b)] Sync enforcementX Updating to 1.2.3",
        "[AT INFO TVManager (a)] b)] Sync enforcement. Updating to 1.2.3",
        "[AT INFO TVManager (a)] Sync enforcement, Updating to 116.47",
        "[AT DEBUG TVManager (a)] Paused drift threshold exceeded Updating to 3",
        "[AT INFO TVManager (a)] Sync enforcement\n Updating to 1",
        "[AT INFO TVManager (a\nb)] Sync enforcement. Updating to 1",
        "[AT INFO TVManager (a\rb)] Sync enforcement. Updating to 1",
        "[AT INFO TVManager (a)] Sync enforcement. Updating to 1\n",
        "[AT INFO TVManager (a)] Sync enforcement. Updating to 1 ",
        "[AT INFO TVManager (a)] Sync enforcement. Updating to x1",
        "[AT INFO TVManager (a)] Sync enforcement. Updating to",
        "[AT INFO TVManager (a)] Sync enforcement.  Updating to 5",
        "[AT INFO TVManager (] Sync enforcement. Updating to 5",
        "[AT INFO TVManager ()] Sync enforcement. Updating to 5",
        "[AT INFO TVManager )] Sync enforcement. Updating to 5",
        "[AT INFO  TVManager(x)] Sync enforcement. Updating to 5",
        "[AT INFODEBUG TVManager (x)] Sync enforcement. Updating to 5",
        "[AT INFO TVManager (x)] Paused drift threshold exceeded Sync enforcement. Updating to 5",
        "[AT INFO TVManager (x)] Sync enforcement. Updating to 5. Updating to 6",
        "[AT INFO\u{a0}TVManager (x)] Sync enforcement. Updating to 5",
        "nothing of interest",
        "",
    ];
    let mut all = Vec::new();
    for head in heads {
        for message in messages {
            all.push(format!("{}{}", head, message));
        }
    }
    all
}

#[test]
fn url_spans_agree_with_the_pattern() {
    let pattern = Regex::new(
        r"^([0-9.: ]+) Log +- +\[Video Playback\] Attempting to resolve URL '(https?://\S+)'",
    )
    .unwrap();
    let mut matched = 0;
    for line in samples() {
        let chars: Vec<char> = line.chars().collect();
        let ours = find_url(&chars).map(|(stamp_end, url_start, url_end)| {
            (
                chars[..stamp_end].iter().collect::<String>(),
                chars[url_start..url_end].iter().collect::<String>(),
            )
        });
        let theirs = pattern
            .captures(&line)
            .map(|c| (c[1].to_string(), c[2].to_string()));
        assert_eq!(ours, theirs, "{:?}", line);
        if ours.is_some() {
            matched += 1;
        }
    }
    assert!(matched >= 20);
}

#[test]
fn seek_spans_agree_with_the_pattern() {
    let pattern = Regex::new(
        r"^([0-9.: ]+) Log +- +\[AT (INFO|DEBUG)[ \t]+TVManager \(.*\)\] (Sync enforcement|Paused drift threshold exceeded)\. Updating to ([0-9.]+)$",
    )
    .unwrap();
    let mut matched = 0;
    for line in samples() {
        let chars: Vec<char> = line.chars().collect();
        let ours = find_seek(&chars).map(|(stamp_end, number_start)| {
            (
                chars[..stamp_end].iter().collect::<String>(),
                chars[number_start..].iter().collect::<String>(),
            )
        });
        let theirs = pattern
            .captures(&line)
            .map(|c| (c[1].to_string(), c[4].to_string()));
        assert_eq!(ours, theirs, "{:?}", line);
        if ours.is_some() {
            matched += 1;
        }
    }
    assert!(matched >= 20);
}
