//! Blocks: record-aligned byte ranges of a buffer, and the producer that
//! carves them.

use crate::error::Error;
use crate::format::BoundaryFinder;
use core::marker::PhantomData;
use vstd::prelude::*;
use vstd::slice::slice_subrange;

verus! {

/// The block size of a producer that was not given one.
pub const DEFAULT_BLOCKSIZE: u64 = 8192;

/// A range of the scanned buffer that ends where a record ends.
#[derive(Clone, Copy, Debug)]
pub struct Block<'a> {
    offset: u64,
    data: &'a [u8],
}

impl<'a> View for Block<'a> {
    type V = Seq<u8>;

    /// The bytes of the block.
    closed spec fn view(&self) -> Seq<u8> {
        self.data@
    }
}

impl<'a> Block<'a> {
    /// Where the block starts in the scanned buffer.
    pub closed spec fn start(&self) -> nat {
        self.offset as nat
    }

    /// A block of the bytes `data`, found at `offset` in the buffer.
    pub fn new(offset: u64, data: &'a [u8]) -> (block: Self)
        ensures
            block.start() == offset,
            block@ == data@,
    {
        Block { offset, data }
    }

    /// Where the block starts in the scanned buffer.
    pub fn offset(&self) -> (offset: u64)
        ensures
            offset == self.start(),
    {
        self.offset
    }

    /// The number of bytes in the block.
    pub fn len(&self) -> (len: u64)
        ensures
            len == self@.len(),
    {
        self.data.len() as u64
    }

    /// Whether the block holds no byte.
    pub fn is_empty(&self) -> (empty: bool)
        ensures
            empty == (self@.len() == 0),
    {
        self.data.len() == 0
    }

    /// The bytes of the block, borrowed from the scanned buffer.
    pub fn data(&self) -> (data: &'a [u8])
        ensures
            data@ == self@,
    {
        self.data
    }
}

/// The length of the block that starts at `cursor`: `Ok(None)` at the end of
/// the buffer; all that is left when the window of `blocksize` bytes reaches
/// the end; else the window as the format `F` corrects it.
pub open spec fn next_len<F: BoundaryFinder>(file: Seq<u8>, blocksize: nat, cursor: nat) -> Result<
    Option<nat>,
    Error,
> {
    if cursor >= file.len() {
        Ok(None)
    } else if blocksize >= file.len() - cursor {
        Ok(Some((file.len() - cursor) as nat))
    } else {
        match F::cut(file.subrange(cursor as int, (cursor + blocksize) as int)) {
            Ok(len) => Ok(Some(len)),
            Err(e) => Err(e),
        }
    }
}

/// A block is not empty and lies inside the buffer.
pub proof fn lemma_next_len_inside<F: BoundaryFinder>(file: Seq<u8>, blocksize: nat, cursor: nat)
    ensures
        next_len::<F>(file, blocksize, cursor) matches Ok(Some(len)) ==> 0 < len <= file.len()
            - cursor,
{
    if cursor < file.len() && blocksize < file.len() - cursor {
        F::lemma_cut_inside(file.subrange(cursor as int, (cursor + blocksize) as int));
    }
}

/// What a scan hands out.
pub struct Scan {
    /// The blocks, in the order in which they come.
    pub blocks: Seq<Seq<u8>>,
    /// The error that ended the scan, if one did.
    pub error: Option<Error>,
}

/// The scan of `file` from `cursor` on: block after block until the end of
/// the buffer or the first error.
pub open spec fn scan<F: BoundaryFinder>(file: Seq<u8>, blocksize: nat, cursor: nat) -> Scan
    decreases file.len() - cursor,
{
    match next_len::<F>(file, blocksize, cursor) {
        Ok(Some(len)) => {
            proof {
                lemma_next_len_inside::<F>(file, blocksize, cursor);
            }
            let rest = scan::<F>(file, blocksize, cursor + len);
            Scan {
                blocks: seq![file.subrange(cursor as int, (cursor + len) as int)] + rest.blocks,
                error: rest.error,
            }
        },
        Ok(None) => Scan { blocks: Seq::empty(), error: None },
        Err(e) => Scan { blocks: Seq::empty(), error: Some(e) },
    }
}

/// Round trip: the blocks of a scan, put end to end, are the bytes of the
/// buffer from the cursor on, up to where the scan stopped. They are all the
/// bytes from the cursor to the end exactly when no error ended the scan.
pub proof fn lemma_scan_round_trip<F: BoundaryFinder>(file: Seq<u8>, blocksize: nat, cursor: nat)
    requires
        cursor <= file.len(),
    ensures
        ({
            let scanned = scan::<F>(file, blocksize, cursor);
            let bytes = scanned.blocks.flatten();
            &&& cursor + bytes.len() <= file.len()
            &&& bytes == file.subrange(cursor as int, (cursor + bytes.len()) as int)
            &&& scanned.error is None <==> bytes == file.subrange(cursor as int, file.len() as int)
        }),
    decreases file.len() - cursor,
{
    let scanned = scan::<F>(file, blocksize, cursor);
    lemma_next_len_inside::<F>(file, blocksize, cursor);
    match next_len::<F>(file, blocksize, cursor) {
        Ok(Some(len)) => {
            let block = file.subrange(cursor as int, (cursor + len) as int);
            let rest = scan::<F>(file, blocksize, cursor + len);
            lemma_scan_round_trip::<F>(file, blocksize, cursor + len);
            assert(scanned.blocks.drop_first() =~= rest.blocks);
            assert(scanned.blocks.flatten() =~= block + rest.blocks.flatten());
            let bytes = scanned.blocks.flatten();
            assert(bytes =~= file.subrange(cursor as int, (cursor + bytes.len()) as int));
            if bytes == file.subrange(cursor as int, file.len() as int) {
                assert(rest.blocks.flatten().len() == file.len() - cursor - len);
            }
        },
        Ok(None) => {
            assert(scanned.blocks.flatten() =~= file.subrange(cursor as int, file.len() as int));
        },
        Err(e) => {
            assert(scanned.blocks.flatten().len() == 0);
        },
    }
}

/// A cursor over a buffer that hands out one block after the other.
pub struct BlockProducer<'a, F: BoundaryFinder> {
    data: &'a [u8],
    blocksize: u64,
    offset: u64,
    finder: PhantomData<F>,
}

impl<'a, F: BoundaryFinder> BlockProducer<'a, F> {
    /// The buffer that is scanned.
    pub closed spec fn file(&self) -> Seq<u8> {
        self.data@
    }

    /// The size of the window that a block is cut from.
    pub closed spec fn blocksize(&self) -> nat {
        self.blocksize as nat
    }

    /// Where the next block starts.
    pub closed spec fn cursor(&self) -> nat {
        self.offset as nat
    }

    /// A producer over `data` with the default block size, starting at 0.
    pub fn new(data: &'a [u8]) -> (producer: Self)
        ensures
            producer.file() == data@,
            producer.blocksize() == DEFAULT_BLOCKSIZE,
            producer.cursor() == 0,
    {
        Self::with_blocksize_offset(DEFAULT_BLOCKSIZE, 0, data)
    }

    /// A producer over `data` with windows of `blocksize` bytes, starting at 0.
    pub fn with_blocksize(blocksize: u64, data: &'a [u8]) -> (producer: Self)
        ensures
            producer.file() == data@,
            producer.blocksize() == blocksize,
            producer.cursor() == 0,
    {
        Self::with_blocksize_offset(blocksize, 0, data)
    }

    /// A producer over `data` with the default block size, starting at `offset`.
    pub fn with_offset(offset: u64, data: &'a [u8]) -> (producer: Self)
        ensures
            producer.file() == data@,
            producer.blocksize() == DEFAULT_BLOCKSIZE,
            producer.cursor() == offset,
    {
        Self::with_blocksize_offset(DEFAULT_BLOCKSIZE, offset, data)
    }

    /// A producer over `data` with windows of `blocksize` bytes, starting at
    /// `offset`.
    pub fn with_blocksize_offset(blocksize: u64, offset: u64, data: &'a [u8]) -> (producer: Self)
        ensures
            producer.file() == data@,
            producer.blocksize() == blocksize,
            producer.cursor() == offset,
    {
        BlockProducer { data, blocksize, offset, finder: PhantomData }
    }

    /// The length at which the format cuts `block`.
    pub fn correct_block_size(block: &[u8]) -> (cut: Result<u64, Error>)
        ensures
            match cut {
                Ok(len) => F::cut(block@) == Ok::<nat, Error>(len as nat),
                Err(e) => F::cut(block@) == Err::<nat, Error>(e),
            },
    {
        F::correct_block_size(block)
    }

    /// Hands out the block at the cursor and moves the cursor behind it.
    /// `Ok(None)` once the cursor has reached the end of the buffer. On an
    /// error the cursor stays.
    pub fn next_block(&mut self) -> (next: Result<Option<Block<'a>>, Error>)
        ensures
            final(self).file() == old(self).file(),
            final(self).blocksize() == old(self).blocksize(),
            match next_len::<F>(old(self).file(), old(self).blocksize(), old(self).cursor()) {
                Ok(Some(len)) => {
                    &&& 0 < len <= old(self).file().len() - old(self).cursor()
                    &&& next matches Ok(Some(block))
                    &&& block.start() == old(self).cursor()
                    &&& block@ == old(self).file().subrange(
                        old(self).cursor() as int,
                        (old(self).cursor() + len) as int,
                    )
                    &&& final(self).cursor() == old(self).cursor() + len
                },
                Ok(None) => next == Ok::<Option<Block<'a>>, Error>(None) && final(self).cursor()
                    == old(self).cursor(),
                Err(e) => next == Err::<Option<Block<'a>>, Error>(e) && final(self).cursor()
                    == old(self).cursor(),
            },
    {
        proof {
            lemma_next_len_inside::<F>(self.file(), self.blocksize(), self.cursor());
        }
        let file_length = self.data.len();
        if self.offset >= file_length as u64 {
            return Ok(None);
        }
        let cursor = self.offset as usize;
        let remaining = file_length - cursor;
        if self.blocksize >= remaining as u64 {
            let data = slice_subrange(self.data, cursor, file_length);
            self.offset = file_length as u64;
            Ok(Some(Block::new(cursor as u64, data)))
        } else {
            let window = slice_subrange(self.data, cursor, cursor + self.blocksize as usize);
            match F::correct_block_size(window) {
                Ok(len) => {
                    proof {
                        F::lemma_cut_inside(window@);
                    }
                    let data = slice_subrange(window, 0, len as usize);
                    self.offset = self.offset + len;
                    Ok(Some(Block::new(cursor as u64, data)))
                },
                Err(e) => Err(e),
            }
        }
    }
}

} // verus!
