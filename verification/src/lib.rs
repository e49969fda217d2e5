//! An embeddable vector database: its file format, its data structures and its rules.
//!
//! Every function here is verified, but for two that are trusted: what the standard library says of
//! UTF-8 in [`bytes`] and of the debug form of a string in [`text`]. What touches the outside world (files, clocks, locks and
//! floating-point kernels) lives in the application crate, which performs the actions this
//! library decides on and hands back what it read.
use vstd::prelude::*;

pub mod api;
pub mod bytes;
pub mod count;
pub mod document;
pub mod error;
pub mod ffi;
pub mod filter;
pub mod float;
pub mod float_laws;
pub mod format;
pub mod idmap;
pub mod index;
pub mod metadata;
pub mod path;
pub mod persistence;
pub mod search;
pub mod storage;
pub mod text;
pub mod validation;
pub mod validation_laws;
pub mod vector;
pub mod write;
