//! Tailing and event extraction for an append-only application log.
//!
//! The library recognises two shapes of log line (a media URL being resolved
//! and a playback position being corrected), finds the most recent of each in
//! the text written so far, and keeps the line-number bookkeeping that lets a
//! live tail continue exactly where that first scan stopped.

pub mod error;
pub mod history;
pub mod lines;
pub mod logfiles;
pub mod pattern;
pub mod tail;
pub mod text;
pub mod timestamp;
pub mod watcher;

pub use error::FatalError;
pub use history::{UrlAndSeekResult, VrcLogReader};
pub use lines::LogText;
pub use pattern::{try_match_seek_line, try_match_url_line, FoundSeek, FoundUrl};
pub use tail::{skip_n_lines, TailEvent, TailSession, TailedLine};
pub use timestamp::{parse_timestamp, LocalInstant, WallClock, ZoneQuery};
pub use watcher::{VrcLogWatcher, VrcLogWatcherEvent, WatchStep};
