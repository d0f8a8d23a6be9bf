//! What a format has to say: where a window may be cut, and how a block is
//! read record by record.

use crate::block::Block;
use crate::error::Error;
use vstd::prelude::*;

verus! {

/// A format's rule for shortening a window so that it ends where a record
/// ends.
pub trait BoundaryFinder {
    /// The corrected length of `window`, or why the format gives none.
    spec fn cut(window: Seq<u8>) -> Result<nat, Error>;

    /// A corrected length is positive and shorter than the window.
    proof fn lemma_cut_inside(window: Seq<u8>)
        ensures
            Self::cut(window) matches Ok(len) ==> 0 < len < window.len(),
    ;

    /// Computes `cut` for the bytes of `block`.
    fn correct_block_size(block: &[u8]) -> (cut: Result<u64, Error>)
        ensures
            match cut {
                Ok(len) => Self::cut(block@) == Ok::<nat, Error>(len as nat),
                Err(e) => Self::cut(block@) == Err::<nat, Error>(e),
            },
    ;
}

/// A cursor over one block that hands out the records of a format.
pub trait RecordDecoder<'a>: Sized {
    /// The record of the format, borrowed from the block.
    type Record: View;

    /// The bytes of the block that is decoded.
    spec fn bytes(&self) -> Seq<u8>;

    /// Where the next record starts in the block.
    spec fn position(&self) -> int;

    /// What decoding `block` at `offset` gives, and the offset it leaves.
    spec fn decode(block: Seq<u8>, offset: int) -> (
        Result<Option<<Self::Record as View>::V>, Error>,
        int,
    );

    /// Decoding ends without a record at the end of the block and nowhere
    /// else, a record takes up at least one byte, and the offset never
    /// leaves the block.
    proof fn lemma_decode_moves(block: Seq<u8>, offset: int)
        requires
            0 <= offset <= block.len(),
        ensures
            Self::decode(block, offset).0 == Ok::<Option<<Self::Record as View>::V>, Error>(None)
                <==> offset == block.len(),
            Self::decode(block, offset).0 matches Ok(Some(_)) ==> offset < Self::decode(
                block,
                offset,
            ).1,
            offset <= Self::decode(block, offset).1 <= block.len(),
    ;

    /// Decoding is local: a record that lies in a part of the block is
    /// decoded from that part alone, as the same record.
    proof fn lemma_decode_local(block: Seq<u8>, from: int, to: int, offset: int)
        requires
            0 <= from <= offset <= to <= block.len(),
            Self::decode(block, offset).0 matches Ok(Some(_)),
            Self::decode(block, offset).1 <= to,
        ensures
            Self::decode(block.subrange(from, to), offset - from) == (
                Self::decode(block, offset).0,
                Self::decode(block, offset).1 - from,
            ),
    ;

    /// A decoder at the start of `block`.
    fn start(block: Block<'a>) -> (decoder: Self)
        ensures
            decoder.bytes() == block@,
            decoder.position() == 0,
    ;

    /// Decodes the record at the cursor and moves the cursor behind it.
    fn advance(&mut self) -> (next: Result<Option<Self::Record>, Error>)
        ensures
            final(self).bytes() == old(self).bytes(),
            0 <= old(self).position() <= old(self).bytes().len(),
            final(self).position() == Self::decode(old(self).bytes(), old(self).position()).1,
            match Self::decode(old(self).bytes(), old(self).position()).0 {
                Ok(Some(record)) => next matches Ok(Some(r)) && r@ == record,
                Ok(None) => next == Ok::<Option<Self::Record>, Error>(None),
                Err(e) => next == Err::<Option<Self::Record>, Error>(e),
            },
    ;
}

} // verus!
