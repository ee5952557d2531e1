//! A log-browsing engine: schemas, filters, searches, hubs and projects.

use vstd::prelude::*;

pub mod ai;
pub mod archive;
pub mod cli;
pub mod clock;
pub mod detect;
pub mod extractor;
pub mod filters;
pub mod formats;
pub mod hub;
pub mod json;
pub mod library;
pub mod lists;
pub mod mcp;
pub mod merge;
pub mod models;
pub mod packs;
pub mod parser;
pub mod paths;
pub mod pattern;
pub mod project;
pub mod regexes;
pub mod release;
pub mod repo;
pub mod search;
pub mod shapes;
pub mod shell;
pub mod sorting;
pub mod sync;
pub mod templates;
pub mod text;
pub mod timestamp;
pub mod tokens;
pub mod views;

verus! {

} // verus!
