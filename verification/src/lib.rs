//! An on-the-fly lexical search engine for a small book catalog.
//!
//! Free-text queries are matched against catalog entries by turning every
//! entry into a term-frequency vector, expanding the query against that
//! vocabulary, and scoring each entry by cosine similarity.  All counts are
//! exact integers, and a similarity score is kept as an exact triple
//! (dot product, squared query norm, squared document norm) so that the
//! whole pipeline can be reasoned about without floating point.

pub mod args;
pub mod book;
pub mod score;
pub mod search;
pub mod serve;
pub mod sql;
pub mod summation;
pub mod text;
pub mod vector;
