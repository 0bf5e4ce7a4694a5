//! Sampling and summary statistics for FASTQ sequence-read files.
//!
//! The library holds the logic: recognising compressed input by its magic
//! bytes, checking the FASTQ record layout, picking the sequence and quality
//! lines out of a bounded sample, decoding Phred+33 qualities, and reducing
//! the sample to length, quality and duplication summaries.
pub mod records;
pub mod stats;
pub mod grouping;
pub mod sample;
pub mod numbers;
