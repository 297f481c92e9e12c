//! Core of an IRC server: wire-format message building and parsing, the
//! channel and member-mode data model, glob-style mask matching,
//! configuration records, and the process-wide registry of peers and
//! channels with its lifecycle operations.

pub mod buffers;
pub mod channel;
pub mod config;
pub mod message;
pub mod modes;
pub mod state;
pub mod strings;
pub mod util;
