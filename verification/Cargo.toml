[package]
name = "cigar_parser"
version = "0.1.0"
edition = "2021"
publish = false

[dependencies]
bam = "=0.1.4"
