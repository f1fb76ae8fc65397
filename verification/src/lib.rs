//! simple-metrics: a small in-memory metrics collector.
//!
//! The daemon samples a fixed set of variables at a regular interval, keeps
//! only the most recent records in memory (older ones are discarded as new
//! ones arrive) and serves them over a Unix socket. Nothing is persisted.
//!
//! The library holds the logic, proved against its contracts; reading files and
//! sockets is left to the program around it. What the functions that call
//! `serde_json` or the standard library promise is stated above them, not proved.
//!
//! - [`config`] and [`cli`]: the command line.
//! - [`proc`]: parsing `/proc` and `/sys`.
//! - [`sampler`]: turning successive readings into rows of values.
//! - [`store`] and [`state`]: the bounded in-memory store of those rows.
//! - [`protocol`], [`read`], [`downsample`], [`dialogue`] and [`server`]: the
//!   JSON-lines socket API, with ranges, subsets and summaries of recorded history.
//! - [`daemon`]: starting the collector, and when it samples.
//! - [`query`], [`render`], [`table`] and [`calendar`]: the `smq` command-line
//!   client.
//! - [`json`] and [`text`]: what JSON and text are to all of these.
use vstd::prelude::*;

pub mod calendar;
pub mod cli;
pub mod config;
pub mod daemon;
pub mod dialogue;
pub mod downsample;
pub mod json;
pub mod metrics;
pub mod proc;
pub mod protocol;
pub mod query;
pub mod read;
pub mod render;
pub mod sampler;
pub mod server;
pub mod state;
pub mod store;
pub mod table;
pub mod text;

verus! {

/// This program's version.
pub const VERSION: &'static str = "0.1.0";

}
