//! Parsing and coordinate queries for CIGAR alignment strings.
//!
//! A CIGAR string is a run-length encoding of how a read aligns to a
//! reference sequence: a series of `<length><code>` tokens such as
//! `"35M110N45M"`. This crate parses such strings into a [`cigar::Cigar`]
//! value and answers coordinate questions against it: where splice
//! junctions fall, whether an interval lies inside one matched block,
//! where the alignment ends, and how much is soft-clipped at either end.

pub mod cigar;
pub mod laws;
pub mod text;
