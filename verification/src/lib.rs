//! md-orphan: finds markdown files that no link reaches, and links that are broken,
//! ambiguous, point at a missing heading, or are not written in canonical form.
//!
//! Every item here is verified: it computes on plain values. What touches the file
//! system, the environment or the terminal belongs to the program around the library.
pub mod ascii;
pub mod cache;
pub mod collections;
pub mod config;
pub mod crawl;
pub mod discovery;
pub mod encoding;
pub mod exclude;
pub mod excluding;
pub mod expanding;
pub mod extract;
pub mod fix;
pub mod glob;
pub mod joined;
pub mod judging;
pub mod keeping;
pub mod leading;
pub mod listing;
pub mod mending;
pub mod path;
pub mod reachability;
pub mod reordering;
pub mod reading;
pub mod repeats;
pub mod report;
pub mod reread;
pub mod resolve;
pub mod rewriting;
pub mod roaming;
pub mod scene;
pub mod second_run;
pub mod sort;
pub mod telling;
pub mod text;
pub mod walk_cache;
