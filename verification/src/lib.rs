//! A single-node vector similarity search engine.
//!
//! Named collections hold points: an id, a vector of fixed dimensionality
//! and a schemaless payload. A collection is partitioned into segments; a
//! segment keeps its points in offset-addressed storage, logs every
//! mutation, and indexes its vectors in a layered proximity graph and the
//! integers of its payloads in postings. Collections answer exact lookups,
//! filtered pagination, nearest-neighbour search and recommendation, and
//! compact and merge their segments.
//!
//! Vectors are held in fixed point (`i8` components) and every score is an
//! exact rational, so that rankings are decided without rounding. Every
//! operation is specified over a mathematical model of the points
//! ([`model`]); [`laws`] proves how the operations relate.

pub mod collection;
pub mod error;
pub mod filter;
pub mod index;
pub mod laws;
pub mod metric;
pub mod model;
pub mod payload;
pub mod postings;
pub mod ranking;
pub mod recommend;
pub mod scroll;
pub mod search;
pub mod segment;
pub mod service;
pub mod storage;
pub mod toc;
