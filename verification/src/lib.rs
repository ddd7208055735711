//! Query engine for suffix-array based text indexes.
//!
//! An index image holds a text, its suffix array (SA), and the array of
//! longest common prefixes (LCP) of adjacent suffixes.  The engine answers
//! count / locate / extract queries over a batch of query strings, either
//! straight from the stored SA or from an in-memory SA subsampled for a
//! maximum query length.

pub mod file_access;
pub mod sufr_file;
pub mod sufr_search;
pub mod types;
pub mod util;
