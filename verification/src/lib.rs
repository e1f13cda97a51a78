//! Fraud scores for card transactions: an HTTP server that compares a transaction with
//! reference transactions, the index that it searches, the tool that builds the index, and a
//! load balancer in front of several servers.
//!
//! Real numbers are held as their bit patterns. Bit patterns of numbers that are not negative
//! are ordered as the numbers are, so the library compares them, sorts them and keeps the
//! smallest ones; the arithmetic itself is handed in by the caller.
use vstd::prelude::*;

pub mod balancer;
pub mod bytes;
pub mod connection;
pub mod flat;
pub mod http_parser;
pub mod indexer;
pub mod input;
pub mod json_lexer;
pub mod json_parser;
pub mod json_text;
pub mod kmeans;
pub mod knn;
pub mod layout;
pub mod logging;
pub mod lookups;
pub mod random;
pub mod records;
pub mod response;
pub mod scoring;
pub mod timestamp;
pub mod top_k;
pub mod tuning;
pub mod vectorizer;

verus! {

} // verus!
