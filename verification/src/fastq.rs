//! FASTQ: records of four lines, `@` comment, sequence, `+` separator,
//! quality.

use crate::block::{Block, BlockProducer};
use crate::error::Error;
use crate::format::{BoundaryFinder, RecordDecoder};
use crate::lines::{
    get_line, last_newline, lemma_last_newline_bounds, lemma_next_newline_bounds,
    lemma_next_newline_subrange, line_starts_with, next_newline, rfind_newline, NEWLINE,
};
use vstd::prelude::*;
use vstd::slice::slice_subrange;

pub mod laws;

verus! {

/// The byte that opens a comment line, `@`.
pub const COMMENT_SIGIL: u8 = 64;

/// The byte that opens a separator line, `+`.
pub const SEPARATOR_SIGIL: u8 = 43;

/// How many newlines the finder looks back over for a line that starts with
/// `@`.
pub const PROBES: u8 = 5;

/// Decides the cut once a line starting with `@` follows the newline at
/// `candidate`. A quality line may start with `@` too, so the lines before
/// it are consulted: the line before a comment line is a quality line, the
/// line before a quality line is a separator.
pub open spec fn settle(window: Seq<u8>, candidate: int) -> Result<nat, Error> {
    let before1 = last_newline(window, candidate);
    let before2 = last_newline(window, before1);
    let before3 = last_newline(window, before2);
    if before1 < 0 {
        Err(Error::NoNewLineInBlock)
    } else if !line_starts_with(window, before1, SEPARATOR_SIGIL) {
        Ok((candidate + 1) as nat)
    } else if before2 < 0 {
        Err(Error::NoNewLineInBlock)
    } else if line_starts_with(window, before2, SEPARATOR_SIGIL) {
        Ok((candidate + 1) as nat)
    } else if before3 < 0 {
        Err(Error::NoNewLineInBlock)
    } else if line_starts_with(window, before3, COMMENT_SIGIL) {
        Ok((before3 + 1) as nat)
    } else {
        Err(Error::NotAFastqFile)
    }
}

/// Looks back from `end` over at most `probes` newlines for the nearest line
/// that starts with `@`, and settles the cut there.
pub open spec fn probe(window: Seq<u8>, end: int, probes: nat) -> Result<nat, Error>
    decreases probes,
{
    let newline = last_newline(window, end);
    if probes == 0 {
        Err(Error::NotAFastqFile)
    } else if newline < 0 {
        Err(Error::NoNewLineInBlock)
    } else if line_starts_with(window, newline, COMMENT_SIGIL) {
        settle(window, newline)
    } else {
        probe(window, newline, (probes - 1) as nat)
    }
}

/// The corrected length of `window`: the offset of the last line in it that
/// certainly opens a record.
pub open spec fn fastq_cut(window: Seq<u8>) -> Result<nat, Error> {
    probe(window, window.len() as int, PROBES as nat)
}

/// Finds the length at which `block` has to be cut to end with a whole
/// record.
pub fn fastq(block: &[u8]) -> (cut: Result<u64, Error>)
    ensures
        match cut {
            Ok(len) => fastq_cut(block@) == Ok::<nat, Error>(len as nat),
            Err(e) => fastq_cut(block@) == Err::<nat, Error>(e),
        },
{
    let mut end: usize = block.len();
    let mut probes: u8 = PROBES;

    while probes > 0
        invariant
            end <= block@.len(),
            fastq_cut(block@) == probe(block@, end as int, probes as nat),
        decreases probes,
    {
        end = match rfind_newline(block, end) {
            Some(at) => at,
            None => {
                return Err(Error::NoNewLineInBlock);
            },
        };

        if end + 1 < block.len() && block[end + 1] == COMMENT_SIGIL {
            let prev = match rfind_newline(block, end) {
                Some(at) => at,
                None => {
                    return Err(Error::NoNewLineInBlock);
                },
            };
            if block[prev + 1] == SEPARATOR_SIGIL {
                let prevprev = match rfind_newline(block, prev) {
                    Some(at) => at,
                    None => {
                        return Err(Error::NoNewLineInBlock);
                    },
                };
                if block[prevprev + 1] == SEPARATOR_SIGIL {
                    return Ok((end + 1) as u64);
                } else {
                    let prevprevprev = match rfind_newline(block, prevprev) {
                        Some(at) => at,
                        None => {
                            return Err(Error::NoNewLineInBlock);
                        },
                    };
                    if block[prevprevprev + 1] == COMMENT_SIGIL {
                        return Ok((prevprevprev + 1) as u64);
                    } else {
                        return Err(Error::NotAFastqFile);
                    }
                }
            } else {
                return Ok((end + 1) as u64);
            }
        }
        probes -= 1;
    }

    Err(Error::NotAFastqFile)
}

/// The FASTQ rule for cutting a window.
pub struct Fastq;

impl BoundaryFinder for Fastq {
    open spec fn cut(window: Seq<u8>) -> Result<nat, Error> {
        fastq_cut(window)
    }

    proof fn lemma_cut_inside(window: Seq<u8>) {
        lemma_probe_lands_on_comment(window, window.len() as int, PROBES as nat);
    }

    fn correct_block_size(block: &[u8]) -> (cut: Result<u64, Error>) {
        fastq(block)
    }
}

/// The producer of FASTQ blocks.
pub type File2Block<'a> = BlockProducer<'a, Fastq>;

/// One FASTQ record, borrowed from the block it was decoded from.
#[derive(Copy, Clone, Eq, PartialEq, Ord, PartialOrd, Hash, Debug)]
pub struct Record<'a> {
    comment: &'a [u8],
    sequence: &'a [u8],
    plus: &'a [u8],
    quality: &'a [u8],
}

impl<'a> Default for Record<'a> {
    /// The record with four empty fields.
    fn default() -> (record: Self)
        ensures
            record@.comment.len() == 0,
            record@.sequence.len() == 0,
            record@.plus.len() == 0,
            record@.quality.len() == 0,
    {
        let empty: &'a [u8] = &[];
        Record { comment: empty, sequence: empty, plus: empty, quality: empty }
    }
}

/// What a `Record` holds.
pub struct RecordView {
    /// The comment line, with the `@` that opens it.
    pub comment: Seq<u8>,
    /// The sequence line.
    pub sequence: Seq<u8>,
    /// The separator line, with the `+` that opens it.
    pub plus: Seq<u8>,
    /// The quality line.
    pub quality: Seq<u8>,
}

impl<'a> View for Record<'a> {
    type V = RecordView;

    closed spec fn view(&self) -> RecordView {
        RecordView {
            comment: self.comment@,
            sequence: self.sequence@,
            plus: self.plus@,
            quality: self.quality@,
        }
    }
}

impl<'a> Record<'a> {
    /// Fastq comment, with its `@`
    pub fn comment(&self) -> (comment: &'a [u8])
        ensures
            comment@ == self@.comment,
    {
        self.comment
    }

    /// Fastq sequence
    pub fn sequence(&self) -> (sequence: &'a [u8])
        ensures
            sequence@ == self@.sequence,
    {
        self.sequence
    }

    /// Fastq plus line, with its `+`
    pub fn plus(&self) -> (plus: &'a [u8])
        ensures
            plus@ == self@.plus,
    {
        self.plus
    }

    /// Fastq quality
    pub fn quality(&self) -> (quality: &'a [u8])
        ensures
            quality@ == self@.quality,
    {
        self.quality
    }
}

/// What decoding `block` at `offset` gives, and the offset it leaves: no
/// record at the end of the block; else the record made of the next four
/// lines, or `PartialRecord` behind the last line that has its newline.
pub open spec fn decode(block: Seq<u8>, offset: int) -> (Result<Option<RecordView>, Error>, int) {
    let end1 = next_newline(block, offset);
    let end2 = next_newline(block, end1 + 1);
    let end3 = next_newline(block, end2 + 1);
    let end4 = next_newline(block, end3 + 1);
    if offset >= block.len() {
        (Ok(None), offset)
    } else if end1 >= block.len() {
        (Err(Error::PartialRecord), offset)
    } else if end2 >= block.len() {
        (Err(Error::PartialRecord), end1 + 1)
    } else if end3 >= block.len() {
        (Err(Error::PartialRecord), end2 + 1)
    } else if end4 >= block.len() {
        (Err(Error::PartialRecord), end3 + 1)
    } else {
        (
            Ok(
                Some(
                    RecordView {
                        comment: block.subrange(offset, end1),
                        sequence: block.subrange(end1 + 1, end2),
                        plus: block.subrange(end2 + 1, end3),
                        quality: block.subrange(end3 + 1, end4),
                    },
                ),
            ),
            end4 + 1,
        )
    }
}

/// A cursor over one block that hands out its records.
pub struct Block2Record<'a> {
    offset: u64,
    block: Block<'a>,
}

impl<'a> Block2Record<'a> {
    #[verifier::type_invariant]
    spec fn inside(&self) -> bool {
        self.offset <= self.block@.len()
    }

    /// The bytes of the block that is decoded.
    pub closed spec fn bytes(&self) -> Seq<u8> {
        self.block@
    }

    /// Where the next record starts in the block.
    pub closed spec fn position(&self) -> int {
        self.offset as int
    }

    /// A decoder at the start of `block`.
    pub fn new(block: Block<'a>) -> (reader: Self)
        ensures
            reader.bytes() == block@,
            reader.position() == 0,
    {
        Block2Record { offset: 0, block }
    }

    /// Decodes the record at the cursor and moves the cursor behind it.
    /// `Ok(None)` once the cursor has reached the end of the block.
    pub fn next_record(&mut self) -> (next: Result<Option<Record<'a>>, Error>)
        ensures
            final(self).bytes() == old(self).bytes(),
            0 <= old(self).position() <= old(self).bytes().len(),
            final(self).position() == decode(old(self).bytes(), old(self).position()).1,
            match decode(old(self).bytes(), old(self).position()).0 {
                Ok(Some(record)) => next matches Ok(Some(r)) && r@ == record,
                Ok(None) => next == Ok::<Option<Record<'a>>, Error>(None),
                Err(e) => next == Err::<Option<Record<'a>>, Error>(e),
            },
    {
        proof {
            use_type_invariant(&*self);
        }
        let data = self.block.data();
        assert(self.offset <= data.len());
        if self.offset == self.block.len() {
            Ok(None)
        } else {
            let line = match get_line(data, self.offset as usize) {
                Ok(line) => line,
                Err(e) => {
                    return Err(e);
                },
            };
            let comment = slice_subrange(data, line.start, line.end);
            self.offset = line.end as u64 + 1;

            let line = match get_line(data, self.offset as usize) {
                Ok(line) => line,
                Err(e) => {
                    return Err(e);
                },
            };
            let sequence = slice_subrange(data, line.start, line.end);
            self.offset = line.end as u64 + 1;

            let line = match get_line(data, self.offset as usize) {
                Ok(line) => line,
                Err(e) => {
                    return Err(e);
                },
            };
            let plus = slice_subrange(data, line.start, line.end);
            self.offset = line.end as u64 + 1;

            let line = match get_line(data, self.offset as usize) {
                Ok(line) => line,
                Err(e) => {
                    return Err(e);
                },
            };
            let quality = slice_subrange(data, line.start, line.end);
            self.offset = line.end as u64 + 1;

            Ok(Some(Record { comment, sequence, plus, quality }))
        }
    }
}

impl<'a> RecordDecoder<'a> for Block2Record<'a> {
    type Record = Record<'a>;

    open spec fn bytes(&self) -> Seq<u8> {
        Block2Record::bytes(self)
    }

    open spec fn position(&self) -> int {
        Block2Record::position(self)
    }

    open spec fn decode(block: Seq<u8>, offset: int) -> (Result<Option<RecordView>, Error>, int) {
        decode(block, offset)
    }

    proof fn lemma_decode_moves(block: Seq<u8>, offset: int) {
        lemma_decode_moves(block, offset);
    }

    proof fn lemma_decode_local(block: Seq<u8>, from: int, to: int, offset: int) {
        lemma_decode_local(block, from, to, offset);
    }

    fn start(block: Block<'a>) -> (decoder: Self) {
        Block2Record::new(block)
    }

    fn advance(&mut self) -> (next: Result<Option<Record<'a>>, Error>) {
        self.next_record()
    }
}

/// What a settled cut is: the offset just after a newline inside the window,
/// where an `@` stands that is inside the window too.
pub proof fn lemma_settle_lands_on_comment(window: Seq<u8>, candidate: int)
    requires
        0 <= candidate < window.len(),
        window[candidate] == NEWLINE,
        line_starts_with(window, candidate, COMMENT_SIGIL),
    ensures
        settle(window, candidate) matches Ok(len) ==> {
            &&& 0 < len < window.len()
            &&& len <= candidate + 1
            &&& window[len - 1] == NEWLINE
            &&& window[len as int] == COMMENT_SIGIL
        },
{
    let before1 = last_newline(window, candidate);
    let before2 = last_newline(window, before1);
    lemma_last_newline_bounds(window, candidate);
    lemma_last_newline_bounds(window, before1);
    lemma_last_newline_bounds(window, before2);
}

/// What a successful probe found: see `lemma_settle_lands_on_comment`.
pub proof fn lemma_probe_lands_on_comment(window: Seq<u8>, end: int, probes: nat)
    requires
        end <= window.len(),
    ensures
        probe(window, end, probes) matches Ok(len) ==> {
            &&& 0 < len < window.len()
            &&& len <= end
            &&& window[len - 1] == NEWLINE
            &&& window[len as int] == COMMENT_SIGIL
        },
    decreases probes,
{
    lemma_last_newline_bounds(window, end);
    let newline = last_newline(window, end);
    if probes > 0 && newline >= 0 {
        if line_starts_with(window, newline, COMMENT_SIGIL) {
            lemma_settle_lands_on_comment(window, newline);
        } else {
            lemma_probe_lands_on_comment(window, newline, (probes - 1) as nat);
        }
    }
}

/// Decoding ends without a record at the end of the block and nowhere else,
/// a record takes up at least four bytes, and the offset never leaves the
/// block.
pub proof fn lemma_decode_moves(block: Seq<u8>, offset: int)
    requires
        0 <= offset <= block.len(),
    ensures
        decode(block, offset).0 == Ok::<Option<RecordView>, Error>(None) <==> offset
            == block.len(),
        decode(block, offset).0 matches Ok(Some(_)) ==> offset + 4 <= decode(block, offset).1,
        offset <= decode(block, offset).1 <= block.len(),
{
    let end1 = next_newline(block, offset);
    lemma_next_newline_bounds(block, offset);
    if end1 < block.len() {
        let end2 = next_newline(block, end1 + 1);
        lemma_next_newline_bounds(block, end1 + 1);
        if end2 < block.len() {
            let end3 = next_newline(block, end2 + 1);
            lemma_next_newline_bounds(block, end2 + 1);
            if end3 < block.len() {
                lemma_next_newline_bounds(block, end3 + 1);
            }
        }
    }
}

/// Decoding is local: a record that lies in a part of the block is decoded
/// from that part alone, as the same record.
pub proof fn lemma_decode_local(block: Seq<u8>, from: int, to: int, offset: int)
    requires
        0 <= from <= offset <= to <= block.len(),
        decode(block, offset).0 matches Ok(Some(_)),
        decode(block, offset).1 <= to,
    ensures
        decode(block.subrange(from, to), offset - from) == (
            decode(block, offset).0,
            decode(block, offset).1 - from,
        ),
{
    let part = block.subrange(from, to);
    let end1 = next_newline(block, offset);
    let end2 = next_newline(block, end1 + 1);
    let end3 = next_newline(block, end2 + 1);
    let end4 = next_newline(block, end3 + 1);
    lemma_next_newline_bounds(block, offset);
    lemma_next_newline_bounds(block, end1 + 1);
    lemma_next_newline_bounds(block, end2 + 1);
    lemma_next_newline_bounds(block, end3 + 1);
    lemma_next_newline_subrange(block, from, to, offset - from);
    lemma_next_newline_subrange(block, from, to, end1 + 1 - from);
    lemma_next_newline_subrange(block, from, to, end2 + 1 - from);
    lemma_next_newline_subrange(block, from, to, end3 + 1 - from);
    assert(part.subrange(offset - from, end1 - from) =~= block.subrange(offset, end1));
    assert(part.subrange(end1 + 1 - from, end2 - from) =~= block.subrange(end1 + 1, end2));
    assert(part.subrange(end2 + 1 - from, end3 - from) =~= block.subrange(end2 + 1, end3));
    assert(part.subrange(end3 + 1 - from, end4 - from) =~= block.subrange(end3 + 1, end4));
}

} // verus!
