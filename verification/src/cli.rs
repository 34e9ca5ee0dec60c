//! Run configuration, as plain data.
//!
//! Argument and environment handling produce these values outside the
//! library; everything in here is inert.

use vstd::prelude::*;

verus! {

/// What the program has been asked to do.
#[derive(Clone, Debug)]
pub enum Mode {
    /// Show the lyric for the current playback position, once.
    Instant,
    /// Stream lyrics in real time as playback progresses.
    Stream,
    /// Show the help text for this program name.
    ShowHelp { program_name: String },
    /// Record timestamps for an unsynced lyric file, line by line.
    Sync { unsynced_filename: String },
}

/// One run's settings.
#[derive(Clone, Debug)]
pub struct Config {
    pub mode: Mode,
    /// Where the daemon listens, as `host:port`.
    pub url: String,
    /// The directory holding `.lrc` files.
    pub lyric_dir: String,
    /// Whether blank lyric lines are kept and printed.
    pub blank_lines: bool,
}

} // verus!
