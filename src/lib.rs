//! Correction of sequencing barcodes against a whitelist: a prefix tree answers
//! bounded-mismatch neighbour queries, and a Phred-based error model weighted by observed
//! counts decides whether a read can be confidently assigned to one whitelisted barcode.

pub mod annotate;
pub mod correct;
pub mod error_model;
pub mod hamming;
pub mod priors;
pub mod tables;
pub mod trie;
