//! palimpsest reads how the files of a repository are actually related out of
//! its history, including relationships that no longer exist in the source.
//!
//! - What version control reports becomes file changes (`vcs`, `changes`,
//!   `classify`, `index`).
//! - What a file says becomes imports, definitions and references (`extract`,
//!   `grammar`, `rust_use`, `coffee`, `markdown`), and those become edges
//!   (`resolve`).
//! - The walk keeps the identity of files through renames and deletions, and
//!   which edges are open (`walk`); it logs what a store has to write
//!   (`store_op`).
//! - Over the rows of an index (`rows`, `query`, `graph`) stand the analyses
//!   (`cochange`, `ghosts`) and the queries (`blast`, `listing`, `why`,
//!   `path_query`, `timeline`, `hotspots`, `stats`, `export`, `viz`).
//! - `human` and `cli` say it all to people.
//!
//! Weights, confidences and scores are floating point and are measured outside;
//! the library decides by what was measured, in rounded hundredths and tenths,
//! and says by slots which measurements belong to what.
pub mod bfs;
pub mod blast;
pub mod changes;
pub mod classify;
pub mod cli;
pub mod cochange;
pub mod coffee;
pub mod config;
pub mod excluded;
pub mod export;
pub mod extract;
pub mod ghosts;
pub mod grammar;
pub mod graph;
pub mod hotspots;
pub mod human;
pub mod index;
pub mod lang;
pub mod listing;
pub mod markdown;
pub mod model;
pub mod names;
pub mod open_edges;
pub mod order;
pub mod params;
pub mod parsed;
pub mod path_query;
pub mod pattern;
pub mod plain;
pub mod postings;
pub mod query;
pub mod resolve;
pub mod rows;
pub mod rust_use;
pub mod stats;
pub mod store_op;
pub mod tables;
pub mod text;
pub mod time;
pub mod timeline;
pub mod vcs;
pub mod viz;
pub mod walk;
pub mod why;
