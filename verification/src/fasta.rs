//! FASTA: records of two lines, `>` comment and sequence.

use crate::block::{Block, BlockProducer};
use crate::error::Error;
use crate::format::{BoundaryFinder, RecordDecoder};
use crate::lines::{
    get_line, last_newline, lemma_last_newline_bounds, lemma_next_newline_bounds,
    lemma_next_newline_subrange, line_starts_with, next_newline, rfind_newline, NEWLINE,
};
use vstd::prelude::*;
use vstd::slice::slice_subrange;

pub mod laws;

verus! {

/// The byte that opens a comment line, `>`.
pub const COMMENT_SIGIL: u8 = 62;

/// How many newlines the finder looks back over for a line that starts with
/// `>`.
pub const PROBES: u8 = 2;

/// Looks back from `end` over at most `probes` newlines for the nearest line
/// that starts with `>`; the cut is where that line begins.
pub open spec fn probe(window: Seq<u8>, end: int, probes: nat) -> Result<nat, Error>
    decreases probes,
{
    let newline = last_newline(window, end);
    if probes == 0 {
        Err(Error::NotAFastaFile)
    } else if newline < 0 {
        Err(Error::NoNewLineInBlock)
    } else if line_starts_with(window, newline, COMMENT_SIGIL) {
        Ok((newline + 1) as nat)
    } else {
        probe(window, newline, (probes - 1) as nat)
    }
}

/// The corrected length of `window`: the offset of the last comment line in
/// it, looked for among its last two lines.
pub open spec fn fasta_cut(window: Seq<u8>) -> Result<nat, Error> {
    probe(window, window.len() as int, PROBES as nat)
}

/// Finds the length at which `block` has to be cut to end with a whole
/// record.
pub fn fasta(block: &[u8]) -> (cut: Result<u64, Error>)
    ensures
        match cut {
            Ok(len) => fasta_cut(block@) == Ok::<nat, Error>(len as nat),
            Err(e) => fasta_cut(block@) == Err::<nat, Error>(e),
        },
{
    let mut end: usize = block.len();
    let mut probes: u8 = PROBES;

    while probes > 0
        invariant
            end <= block@.len(),
            fasta_cut(block@) == probe(block@, end as int, probes as nat),
        decreases probes,
    {
        end = match rfind_newline(block, end) {
            Some(at) => at,
            None => {
                return Err(Error::NoNewLineInBlock);
            },
        };

        if end + 1 < block.len() && block[end + 1] == COMMENT_SIGIL {
            return Ok((end + 1) as u64);
        }
        probes -= 1;
    }

    Err(Error::NotAFastaFile)
}

/// The FASTA rule for cutting a window.
pub struct Fasta;

impl BoundaryFinder for Fasta {
    open spec fn cut(window: Seq<u8>) -> Result<nat, Error> {
        fasta_cut(window)
    }

    proof fn lemma_cut_inside(window: Seq<u8>) {
        lemma_probe_lands_on_comment(window, window.len() as int, PROBES as nat);
    }

    fn correct_block_size(block: &[u8]) -> (cut: Result<u64, Error>) {
        fasta(block)
    }
}

/// The producer of FASTA blocks.
pub type File2Block<'a> = BlockProducer<'a, Fasta>;

/// One FASTA record, borrowed from the block it was decoded from.
#[derive(Copy, Clone, Eq, PartialEq, Ord, PartialOrd, Hash, Debug)]
pub struct Record<'a> {
    comment: &'a [u8],
    sequence: &'a [u8],
}

impl<'a> Default for Record<'a> {
    /// The record with two empty fields.
    fn default() -> (record: Self)
        ensures
            record@.comment.len() == 0,
            record@.sequence.len() == 0,
    {
        let empty: &'a [u8] = &[];
        Record { comment: empty, sequence: empty }
    }
}

/// What a `Record` holds.
pub struct RecordView {
    /// The comment line, without the `>` that opens it.
    pub comment: Seq<u8>,
    /// The sequence line.
    pub sequence: Seq<u8>,
}

impl<'a> View for Record<'a> {
    type V = RecordView;

    closed spec fn view(&self) -> RecordView {
        RecordView { comment: self.comment@, sequence: self.sequence@ }
    }
}

impl<'a> Record<'a> {
    /// Fasta comment without `>`
    pub fn comment(&self) -> (comment: &'a [u8])
        ensures
            comment@ == self@.comment,
    {
        self.comment
    }

    /// Fasta sequence
    pub fn sequence(&self) -> (sequence: &'a [u8])
        ensures
            sequence@ == self@.sequence,
    {
        self.sequence
    }
}

/// A comment line without the `>` that opens it; a line that does not open
/// with `>` is kept whole.
pub open spec fn without_sigil(line: Seq<u8>) -> Seq<u8> {
    if line.len() > 0 && line[0] == COMMENT_SIGIL {
        line.skip(1)
    } else {
        line
    }
}

/// What decoding `block` at `offset` gives, and the offset it leaves: no
/// record at the end of the block; else the record made of the next two
/// lines, or `PartialRecord` behind the last line that has its newline.
pub open spec fn decode(block: Seq<u8>, offset: int) -> (Result<Option<RecordView>, Error>, int) {
    let end1 = next_newline(block, offset);
    let end2 = next_newline(block, end1 + 1);
    if offset >= block.len() {
        (Ok(None), offset)
    } else if end1 >= block.len() {
        (Err(Error::PartialRecord), offset)
    } else if end2 >= block.len() {
        (Err(Error::PartialRecord), end1 + 1)
    } else {
        (
            Ok(
                Some(
                    RecordView {
                        comment: without_sigil(block.subrange(offset, end1)),
                        sequence: block.subrange(end1 + 1, end2),
                    },
                ),
            ),
            end2 + 1,
        )
    }
}

/// A cursor over one block that hands out its records.
pub struct Block2Record<'a> {
    offset: u64,
    block: Block<'a>,
}

impl<'a> Block2Record<'a> {
    #[verifier::type_invariant]
    spec fn inside(&self) -> bool {
        self.offset <= self.block@.len()
    }

    /// The bytes of the block that is decoded.
    pub closed spec fn bytes(&self) -> Seq<u8> {
        self.block@
    }

    /// Where the next record starts in the block.
    pub closed spec fn position(&self) -> int {
        self.offset as int
    }

    /// A decoder at the start of `block`.
    pub fn new(block: Block<'a>) -> (reader: Self)
        ensures
            reader.bytes() == block@,
            reader.position() == 0,
    {
        Block2Record { offset: 0, block }
    }

    /// Decodes the record at the cursor and moves the cursor behind it.
    /// `Ok(None)` once the cursor has reached the end of the block.
    pub fn next_record(&mut self) -> (next: Result<Option<Record<'a>>, Error>)
        ensures
            final(self).bytes() == old(self).bytes(),
            0 <= old(self).position() <= old(self).bytes().len(),
            final(self).position() == decode(old(self).bytes(), old(self).position()).1,
            match decode(old(self).bytes(), old(self).position()).0 {
                Ok(Some(record)) => next matches Ok(Some(r)) && r@ == record,
                Ok(None) => next == Ok::<Option<Record<'a>>, Error>(None),
                Err(e) => next == Err::<Option<Record<'a>>, Error>(e),
            },
    {
        proof {
            use_type_invariant(&*self);
        }
        let data = self.block.data();
        assert(self.offset <= data.len());
        if self.offset == self.block.len() {
            Ok(None)
        } else {
            let line = match get_line(data, self.offset as usize) {
                Ok(line) => line,
                Err(e) => {
                    return Err(e);
                },
            };
            let comment = if line.start < line.end && data[line.start] == COMMENT_SIGIL {
                slice_subrange(data, line.start + 1, line.end)
            } else {
                slice_subrange(data, line.start, line.end)
            };
            proof {
                let first = data@.subrange(line.start as int, line.end as int);
                assert(first.len() > 0 ==> first[0] == data@[line.start as int]);
                assert(comment@ =~= without_sigil(first));
            }
            self.offset = line.end as u64 + 1;

            let line = match get_line(data, self.offset as usize) {
                Ok(line) => line,
                Err(e) => {
                    return Err(e);
                },
            };
            let sequence = slice_subrange(data, line.start, line.end);
            self.offset = line.end as u64 + 1;

            Ok(Some(Record { comment, sequence }))
        }
    }
}

impl<'a> RecordDecoder<'a> for Block2Record<'a> {
    type Record = Record<'a>;

    open spec fn bytes(&self) -> Seq<u8> {
        Block2Record::bytes(self)
    }

    open spec fn position(&self) -> int {
        Block2Record::position(self)
    }

    open spec fn decode(block: Seq<u8>, offset: int) -> (Result<Option<RecordView>, Error>, int) {
        decode(block, offset)
    }

    proof fn lemma_decode_moves(block: Seq<u8>, offset: int) {
        lemma_decode_moves(block, offset);
    }

    proof fn lemma_decode_local(block: Seq<u8>, from: int, to: int, offset: int) {
        lemma_decode_local(block, from, to, offset);
    }

    fn start(block: Block<'a>) -> (decoder: Self) {
        Block2Record::new(block)
    }

    fn advance(&mut self) -> (next: Result<Option<Record<'a>>, Error>) {
        self.next_record()
    }
}

/// What a successful probe found: a newline inside the window, followed by
/// a `>` that is inside the window too.
pub proof fn lemma_probe_lands_on_comment(window: Seq<u8>, end: int, probes: nat)
    requires
        end <= window.len(),
    ensures
        probe(window, end, probes) matches Ok(len) ==> {
            &&& 0 < len < window.len()
            &&& len <= end
            &&& window[len - 1] == NEWLINE
            &&& window[len as int] == COMMENT_SIGIL
        },
    decreases probes,
{
    lemma_last_newline_bounds(window, end);
    let newline = last_newline(window, end);
    if probes > 0 && newline >= 0 && !line_starts_with(window, newline, COMMENT_SIGIL) {
        lemma_probe_lands_on_comment(window, newline, (probes - 1) as nat);
    }
}

/// Decoding ends without a record at the end of the block and nowhere else,
/// a record takes up at least two bytes, and the offset never leaves the
/// block.
pub proof fn lemma_decode_moves(block: Seq<u8>, offset: int)
    requires
        0 <= offset <= block.len(),
    ensures
        decode(block, offset).0 == Ok::<Option<RecordView>, Error>(None) <==> offset
            == block.len(),
        decode(block, offset).0 matches Ok(Some(_)) ==> offset + 2 <= decode(block, offset).1,
        offset <= decode(block, offset).1 <= block.len(),
{
    let end1 = next_newline(block, offset);
    lemma_next_newline_bounds(block, offset);
    if end1 < block.len() {
        lemma_next_newline_bounds(block, end1 + 1);
    }
}

/// Decoding is local: a record that lies in a part of the block is decoded
/// from that part alone, as the same record.
pub proof fn lemma_decode_local(block: Seq<u8>, from: int, to: int, offset: int)
    requires
        0 <= from <= offset <= to <= block.len(),
        decode(block, offset).0 matches Ok(Some(_)),
        decode(block, offset).1 <= to,
    ensures
        decode(block.subrange(from, to), offset - from) == (
            decode(block, offset).0,
            decode(block, offset).1 - from,
        ),
{
    let part = block.subrange(from, to);
    let end1 = next_newline(block, offset);
    let end2 = next_newline(block, end1 + 1);
    lemma_next_newline_bounds(block, offset);
    lemma_next_newline_bounds(block, end1 + 1);
    lemma_next_newline_subrange(block, from, to, offset - from);
    lemma_next_newline_subrange(block, from, to, end1 + 1 - from);
    assert(part.subrange(offset - from, end1 - from) =~= block.subrange(offset, end1));
    assert(part.subrange(end1 + 1 - from, end2 - from) =~= block.subrange(end1 + 1, end2));
}

} // verus!
