//! Core of a small web server: a disk-backed logging service that keeps its
//! directory under a byte budget, a labelled directed graph with cycle
//! detection, a file-template includer, and content-type selection for
//! served files.
//!
//! Everything here is pure logic on plain values; the thin shells that
//! touch the clock, threads and the filesystem live with the binary that
//! embeds the library.

pub mod bytes;
pub mod datetime;
pub mod graph;
pub mod logging;
pub mod quota;
pub mod templating;
pub mod web;
