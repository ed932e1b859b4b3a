//! Verified core of a tool that streams geospatial elements (points, lines,
//! relations carrying key/value tags) and either counts them with a top-N
//! tag-frequency report, or converts them into geometry records.
//!
//! The crate holds the tag-filter grammar and matching, the frequency
//! counter with top-N extraction, the point cache and geometry resolution,
//! and the counting and conversion pipelines.  Reading the element stream
//! and writing the output are left to the surrounding program.

pub mod cache;
pub mod convert;
pub mod count;
pub mod counter;
pub mod elements;
pub mod keys;
pub mod props;
pub mod tags;
