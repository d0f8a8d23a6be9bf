//! What holds of the FASTA finder and decoder, and of a scan of a
//! well-formed buffer.

use crate::block::{next_len, scan};
use crate::error::Error;
use crate::fasta::{
    decode, fasta_cut, lemma_decode_moves, lemma_probe_lands_on_comment, probe, without_sigil,
    Block2Record, Fasta, COMMENT_SIGIL, PROBES,
};
use crate::lines::{
    count_newlines, is_line_start, last_newline, lemma_count_next_line, lemma_count_some,
    lemma_count_split, lemma_last_newline_bounds, lemma_look_back, lemma_next_newline_bounds,
    line_starts_with, next_newline, NEWLINE,
};
use crate::pipeline::{aligned, decode_all, lemma_parse_of_aligned_blocks, parse};
use vstd::prelude::*;

verus! {

/// The cut is the rightmost one: no line that begins behind the cut, inside
/// the window, starts with `>`.
pub proof fn lemma_cut_is_rightmost(window: Seq<u8>, len: nat, at: int)
    requires
        fasta_cut(window) == Ok::<nat, Error>(len),
        len < at < window.len(),
        window[at - 1] == NEWLINE,
    ensures
        window[at] != COMMENT_SIGIL,
{
    let first = last_newline(window, window.len() as int);
    lemma_last_newline_bounds(window, window.len() as int);
    lemma_last_newline_bounds(window, first);
    reveal_with_fuel(probe, 3);
}

/// A cut is stable: shorten the window to the corrected length, give it
/// back the one byte that follows, the `>` of the next record, and the
/// finder cuts it at the same length again.
pub proof fn lemma_cut_is_stable(window: Seq<u8>, len: nat)
    requires
        fasta_cut(window) == Ok::<nat, Error>(len),
    ensures
        fasta_cut(window.take(len as int + 1)) == Ok::<nat, Error>(len),
{
    lemma_probe_lands_on_comment(window, window.len() as int, PROBES as nat);
    let cut = len as int;
    let again = window.take(cut + 1);
    assert(last_newline(again, cut + 1) == cut - 1) by {
        reveal_with_fuel(last_newline, 2);
    }
    assert(line_starts_with(again, cut - 1, COMMENT_SIGIL));
}

/// Decoding loses nothing: the bytes that a record takes up are its comment
/// line, newline, its sequence, newline; and the record's comment is that
/// line without its `>`.
pub proof fn lemma_decode_lossless(block: Seq<u8>, offset: int)
    requires
        0 <= offset <= block.len(),
    ensures
        decode(block, offset).0 matches Ok(Some(record)) ==> {
            let line = block.subrange(offset, next_newline(block, offset));
            &&& record.comment == without_sigil(line)
            &&& line == if line.len() > 0 && line[0] == COMMENT_SIGIL {
                seq![COMMENT_SIGIL] + record.comment
            } else {
                record.comment
            }
            &&& block.subrange(offset, decode(block, offset).1) == line + seq![NEWLINE]
                + record.sequence + seq![NEWLINE]
        },
{
    lemma_decode_moves(block, offset);
    let end1 = next_newline(block, offset);
    lemma_next_newline_bounds(block, offset);
    if end1 < block.len() {
        let end2 = next_newline(block, end1 + 1);
        lemma_next_newline_bounds(block, end1 + 1);
        if end2 < block.len() {
            let line = block.subrange(offset, end1);
            let sequence = block.subrange(end1 + 1, end2);
            assert(block.subrange(offset, end2 + 1) =~= line + seq![NEWLINE] + sequence
                + seq![NEWLINE]);
            if line.len() > 0 && line[0] == COMMENT_SIGIL {
                assert(line =~= seq![COMMENT_SIGIL] + line.skip(1));
            }
        }
    }
}

/// Whether `bytes`, from `from` on, is a run of whole records: every line
/// ends with a newline, the lines come in pairs, and of each pair the first
/// line opens with `>` and the second does not.
pub open spec fn well_formed(bytes: Seq<u8>, from: int) -> bool {
    &&& 0 <= from <= bytes.len()
    &&& from < bytes.len() ==> bytes[bytes.len() - 1] == NEWLINE
    &&& count_newlines(bytes, from, bytes.len() as int) % 2 == 0
    &&& forall|at: int|
        is_line_start(bytes, from, at) && at < bytes.len() ==> (bytes[at] == COMMENT_SIGIL <==> (
        #[trigger] count_newlines(bytes, from, at)) % 2 == 0)
}

/// What is well formed stays so from the start of any of its records.
pub proof fn lemma_well_formed_from(bytes: Seq<u8>, from: int, at: int)
    requires
        well_formed(bytes, from),
        is_line_start(bytes, from, at),
        count_newlines(bytes, from, at) % 2 == 0,
    ensures
        well_formed(bytes, at),
{
    lemma_count_split(bytes, from, at, bytes.len() as int);
    assert forall|line: int| is_line_start(bytes, at, line) && line < bytes.len() implies (
    bytes[line] == COMMENT_SIGIL <==> (#[trigger] count_newlines(bytes, at, line)) % 2 == 0) by {
        lemma_count_split(bytes, from, at, line);
        assert(is_line_start(bytes, from, line));
        assert(bytes[line] == COMMENT_SIGIL <==> count_newlines(bytes, from, line) % 2 == 0);
    }
}

/// In what is well formed, a line whose number is even starts where a
/// record starts: its offset is aligned.
pub proof fn lemma_record_start_is_aligned(bytes: Seq<u8>, from: int, at: int)
    requires
        well_formed(bytes, from),
        is_line_start(bytes, from, at),
        count_newlines(bytes, from, at) % 2 == 0,
    ensures
        aligned::<Block2Record>(bytes, from, at),
    decreases bytes.len() - from,
{
    if from < at {
        lemma_count_some(bytes, from, at, at - 1);
        lemma_count_next_line(bytes, from, from, at);
        let end1 = next_newline(bytes, from);
        lemma_count_next_line(bytes, from, end1 + 1, at);
        let end2 = next_newline(bytes, end1 + 1);
        lemma_count_split(bytes, from, end2 + 1, at);
        lemma_well_formed_from(bytes, from, end2 + 1);
        lemma_record_start_is_aligned(bytes, end2 + 1, at);
    }
}

/// On a well-formed buffer the finder cuts between records: the window of
/// `blocksize` bytes at `cursor`, where a record starts, is cut where a
/// record starts.
pub proof fn lemma_cut_is_aligned(file: Seq<u8>, cursor: int, blocksize: int, len: nat)
    requires
        well_formed(file, cursor),
        0 <= blocksize,
        cursor + blocksize <= file.len(),
        fasta_cut(file.subrange(cursor, cursor + blocksize)) == Ok::<nat, Error>(len),
    ensures
        aligned::<Block2Record>(file, cursor, cursor + len),
        well_formed(file, cursor + len),
{
    let window = file.subrange(cursor, cursor + blocksize);
    lemma_probe_lands_on_comment(window, window.len() as int, PROBES as nat);
    assert(window[len - 1] == file[cursor + len - 1]);
    assert(window[len as int] == file[cursor + len]);
    assert(is_line_start(file, cursor, cursor + len));
    lemma_record_start_is_aligned(file, cursor, cursor + len);
    lemma_well_formed_from(file, cursor, cursor + len);
}

/// On a well-formed buffer the scan is sound, whatever the block size: from
/// a cursor where a record starts, every block is made of whole records, so
/// that decoding meets no error of its own, and a scan that the finder lets
/// through yields the records of the buffer.
pub proof fn lemma_scan_decodes_the_buffer(file: Seq<u8>, blocksize: nat, cursor: nat)
    requires
        well_formed(file, cursor as int),
    ensures
        parse::<Fasta, Block2Record>(file, blocksize, cursor).error == scan::<Fasta>(
            file,
            blocksize,
            cursor,
        ).error,
        parse::<Fasta, Block2Record>(file, blocksize, cursor).error is None ==> {
            &&& decode_all::<Block2Record>(file, cursor as int).error is None
            &&& parse::<Fasta, Block2Record>(file, blocksize, cursor).records == decode_all::<
                Block2Record,
            >(file, cursor as int).records
        },
{
    let good = |at: nat| well_formed(file, at as int);
    assert forall|at: nat| #[trigger] good(at) implies (next_len::<Fasta>(file, blocksize, at)
        matches Ok(Some(len)) ==> aligned::<Block2Record>(file, at as int, (at + len) as int)
        && good(at + len)) by {
        match next_len::<Fasta>(file, blocksize, at) {
            Ok(Some(len)) => {
                if blocksize >= file.len() - at {
                    assert(is_line_start(file, at as int, file.len() as int));
                    lemma_record_start_is_aligned(file, at as int, file.len() as int);
                    lemma_well_formed_from(file, at as int, file.len() as int);
                } else {
                    lemma_cut_is_aligned(file, at as int, blocksize as int, len);
                }
            },
            _ => {},
        }
    }
    lemma_parse_of_aligned_blocks::<Fasta, Block2Record>(file, blocksize, cursor, good);
}

/// In what is well formed a record starts at `from` unless `from` is the
/// end: its two lines are there, and the newlines counted up to the record
/// behind it are two.
pub proof fn lemma_first_record(bytes: Seq<u8>, from: int)
    requires
        well_formed(bytes, from),
        from < bytes.len(),
    ensures
        decode(bytes, from).0 matches Ok(Some(_)),
        is_line_start(bytes, from, decode(bytes, from).1),
        count_newlines(bytes, from, decode(bytes, from).1) == 2,
{
    let len = bytes.len() as int;
    lemma_count_some(bytes, from, len, len - 1);
    lemma_count_next_line(bytes, from, from, len);
    let end1 = next_newline(bytes, from);
    lemma_count_next_line(bytes, from, end1 + 1, len);
}

/// On a well-formed buffer the finder fails on the windows that end where a
/// record ends, and on no other window that holds a record and one byte
/// more: two probes do not reach the comment line of the record that ends
/// the window.
pub proof fn lemma_cut_exists_unless_at_record_end(file: Seq<u8>, cursor: int, blocksize: int)
    requires
        well_formed(file, cursor),
        cursor + blocksize <= file.len(),
        cursor < decode(file, cursor).1 < cursor + blocksize,
    ensures
        ({
            let cut = fasta_cut(file.subrange(cursor, cursor + blocksize));
            let at_record_end = file[cursor + blocksize - 1] == NEWLINE && count_newlines(
                file,
                cursor,
                cursor + blocksize,
            ) % 2 == 0;
            &&& cut is Ok <==> !at_record_end
            &&& cut is Err ==> cut == Err::<nat, Error>(Error::NotAFastaFile)
        }),
{
    let window = file.subrange(cursor, cursor + blocksize);
    let next = decode(file, cursor).1;
    lemma_first_record(file, cursor);
    lemma_count_split(file, cursor, next, cursor + blocksize);

    lemma_look_back(file, cursor, blocksize, blocksize);
    let newline1 = last_newline(window, blocksize);
    let line1 = cursor + newline1 + 1;
    if line1 < cursor + blocksize {
        assert(window[newline1 + 1] == file[line1]);
        assert(is_line_start(file, cursor, line1));
        assert(file[line1] == COMMENT_SIGIL <==> count_newlines(file, cursor, line1) % 2 == 0);
        lemma_last_newline_bounds(file, cursor + blocksize);
    }
    if !line_starts_with(window, newline1, COMMENT_SIGIL) {
        if line1 == cursor + blocksize && next <= cursor + newline1 {
            lemma_count_some(file, next, cursor + blocksize, cursor + newline1);
        }
        lemma_look_back(file, cursor, blocksize, newline1);
        let newline2 = last_newline(window, newline1);
        let line2 = cursor + newline2 + 1;
        assert(window[newline2 + 1] == file[line2]);
        assert(is_line_start(file, cursor, line2));
        assert(file[line2] == COMMENT_SIGIL <==> count_newlines(file, cursor, line2) % 2 == 0);
    }
    reveal_with_fuel(probe, 3);
}

} // verus!
