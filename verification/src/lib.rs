//! Storage statistics over a scanned directory tree.
//!
//! A scan puts everything it finds into one list of entries ([`entry`],
//! [`scan`]), which form a tree ([`shape`]) whose directories account for the
//! files below them ([`totals`], [`sums`]). Bytes are also counted by file type
//! ([`file_types`]), and the progress of the scan is known ([`progress`], [`run`]).
//! The list can be edited ([`edit`]), ordered by size
//! ([`by_size`]), searched by path ([`find`]), shown ([`display`]) and laid out as
//! a treemap ([`treemap`]).
pub mod by_size;
pub mod descent;
pub mod display;
pub mod edit;
pub mod entry;
pub mod file_types;
pub mod find;
pub mod order;
pub mod paths;
pub mod progress;
pub mod run;
pub mod scan;
pub mod shape;
pub mod sums;
pub mod totals;
pub mod treemap;
