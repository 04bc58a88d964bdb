//! Programmatic hunk selection for jj.

pub mod absorb;
pub mod commands;
pub mod diff;
pub mod dry_run;
pub mod errors;
pub mod fields;
pub mod files;
pub mod glob;
pub mod hunkset;
pub mod keeping;
pub mod listing;
pub mod names;
pub mod node;
pub mod patch;
pub mod paths;
pub mod render;
pub mod resolve;
pub mod revisions;
pub mod schema;
pub mod spec;
pub mod template;
pub mod text;
