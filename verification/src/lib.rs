//! Record-aligned scanning of FASTA and FASTQ data.
//!
//! A producer carves a byte buffer into blocks that end where a record
//! ends, a decoder hands out the records of a block as slices of it, and a
//! fold binds both to a reducer. The buffer is any `&[u8]`; it is meant to
//! be a file mapped into memory.
//!
//! - [`lines`]: newlines in a byte sequence, found by `bstr`.
//! - [`format`]: the two things a format has to say, as traits.
//! - [`block`]: blocks and their producer, for any format.
//! - [`fasta`], [`fastq`]: the two formats, each with the laws of its finder
//!   and decoder in a module `laws`.
//! - [`pipeline`]: the fold over blocks and records.

pub mod block;
pub mod error;
pub mod fasta;
pub mod fastq;
pub mod format;
pub mod lines;
pub mod pipeline;
mod search;
