//! A client library for a line-oriented music-player daemon protocol,
//! together with a timed lyric engine.
//!
//! The crate is organised leaf-first:
//! - [`error`] holds the failure taxonomy shared by every layer;
//! - [`text`] holds character-level string helpers and decimal
//!   formatting/parsing, all fully specified;
//! - [`transport`] models the duplex line channel to the daemon and provides
//!   a verified in-memory implementation;
//! - [`client`] frames and parses the request/response protocol;
//! - [`api`] exposes the typed commands (`status`, `currentsong`, ...);
//! - [`lyric_parser`] loads, renders and queries timestamped lyric tracks;
//! - [`stream`] is the event-driven state machine that schedules lyric
//!   output against live playback;
//! - [`cli`] holds the plain configuration types.

pub mod api;
pub mod cli;
pub mod client;
pub mod error;
pub mod lyric_parser;
pub mod stream;
pub mod text;
pub mod transport;
