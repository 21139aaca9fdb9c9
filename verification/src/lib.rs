//! Print the contents of files, each under a header line.
//!
//! The crate holds the decisions of the tool and leaves the disk and the
//! terminal to its caller:
//!
//! - [`glob`], [`path`] and [`exclude`]: wildcard patterns, the normal
//!   form of paths, and the rules that keep paths out of a run;
//! - [`classify`], [`hex`] and [`render`]: telling text from binary
//!   content, and turning a buffer into what is written for it;
//! - [`header`], [`paint`] and [`log`]: the line above each file, colours,
//!   and the messages of a run;
//! - [`state`] and [`run`]: the settings and count of a run, and what is
//!   settled before it starts;
//! - [`expand`] and [`traverse`]: from patterns to entries, and the walk
//!   over the entries, both as machines that ask the caller to list or
//!   read and take the answer;
//! - [`harvest`] and [`journey`]: what those machines do as a whole,
//!   given what is on disk.

pub mod classify;
pub mod exclude;
pub mod expand;
pub mod glob;
pub mod harvest;
pub mod header;
pub mod hex;
pub mod journey;
pub mod log;
pub mod paint;
pub mod path;
pub mod render;
pub mod run;
pub mod state;
pub mod text;
pub mod traverse;
