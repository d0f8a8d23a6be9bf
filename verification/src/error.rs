//! Errors of block production and record decoding.

use vstd::prelude::*;

verus! {

/// Why a block could not be cut or a record could not be decoded.
#[derive(Clone, Copy, Debug, PartialEq, Eq, Structural)]
pub enum Error {
    /// A backward probe ran out of newlines before it could settle on a boundary.
    NoNewLineInBlock,
    /// No line starting with `>` among the last two lines of a window.
    NotAFastaFile,
    /// The `@` and `+` lines near the end of a window do not fit a FASTQ record.
    NotAFastqFile,
    /// A record misses the newline that ends one of its lines.
    PartialRecord,
}

} // verus!
