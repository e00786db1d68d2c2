//! Mining of version-control history into per-commit and per-file facts,
//! and software-evolution analytics (hotspots, change coupling, ownership,
//! commit spread) computed from those facts.
//!
//! The crate is organised around three stages:
//! - `indexer` walks a commit graph (handed over as plain data) and builds
//!   the two logical tables: the commit log and the file-revision entries.
//! - `stats` classifies source text into code, comment and blank lines.
//! - `engine` computes the analytics over the two tables, filtered by
//!   `rules` (ignore patterns, module rules, author aliases) and a date range.
//!
//! `model` holds the result records, `trees` the path-hierarchy reports,
//! and `printing` a plain-text table renderer.

pub mod engine;
pub mod indexer;
pub mod model;
pub mod printing;
pub mod rules;
pub mod sets;
pub mod sorting;
pub mod stats;
pub mod text;
pub mod trees;
