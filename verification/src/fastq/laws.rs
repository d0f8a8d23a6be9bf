//! What holds of the FASTQ finder and decoder, and of a scan of a
//! well-formed buffer.

use crate::block::{lemma_scan_round_trip, next_len, scan};
use crate::error::Error;
use crate::fastq::{
    decode, fastq_cut, lemma_decode_moves, lemma_probe_lands_on_comment, probe, settle,
    Block2Record, Fastq, COMMENT_SIGIL, PROBES, SEPARATOR_SIGIL,
};
use crate::lines::{
    count_newlines, is_line_start, last_newline, lemma_count_next_line,
    lemma_count_previous_line, lemma_count_some, lemma_count_split, lemma_last_newline_bounds,
    lemma_last_newline_counted, lemma_last_newline_subrange, lemma_look_back,
    lemma_next_newline_bounds, line_starts_with, next_newline, NEWLINE,
};
use crate::pipeline::{
    aligned, decode_all, lemma_aligned_chain, lemma_parse_of_aligned_blocks, parse,
};
use vstd::prelude::*;

verus! {

/// The newline behind which a probe found the nearest line that starts with
/// `@`, or `-1` where it found none.
pub open spec fn candidate(window: Seq<u8>, end: int, probes: nat) -> int
    decreases probes,
{
    let newline = last_newline(window, end);
    if probes == 0 || newline < 0 {
        -1
    } else if line_starts_with(window, newline, COMMENT_SIGIL) {
        newline
    } else {
        candidate(window, newline, (probes - 1) as nat)
    }
}

/// A probe that gives a cut found a candidate and settled the cut there.
pub proof fn lemma_probe_settles(window: Seq<u8>, end: int, probes: nat)
    requires
        end <= window.len(),
    ensures
        probe(window, end, probes) is Ok ==> {
            let found = candidate(window, end, probes);
            &&& 0 <= found < end
            &&& window[found] == NEWLINE
            &&& line_starts_with(window, found, COMMENT_SIGIL)
            &&& probe(window, end, probes) == settle(window, found)
        },
    decreases probes,
{
    lemma_last_newline_bounds(window, end);
    let newline = last_newline(window, end);
    if probes > 0 && newline >= 0 && !line_starts_with(window, newline, COMMENT_SIGIL) {
        lemma_probe_settles(window, newline, (probes - 1) as nat);
    }
}

/// Whether the two lines that end a block of `len` bytes leave no doubt
/// about an `@` that follows the block: the last line does not start with
/// `+`, or the line before it starts with `+` as well.
pub open spec fn ends_plainly(window: Seq<u8>, len: nat) -> bool {
    let before1 = last_newline(window, len - 1);
    let before2 = last_newline(window, before1);
    before1 >= 0 && (!line_starts_with(window, before1, SEPARATOR_SIGIL) || (before2 >= 0
        && line_starts_with(window, before2, SEPARATOR_SIGIL)))
}

/// A cut is stable where the block ends plainly, and only there: shorten the
/// window to the corrected length, give it back the one byte that follows,
/// the `@` of the next record, and the finder cuts it at the same length
/// again exactly when the last two lines of the block leave no doubt about
/// that `@`.
pub proof fn lemma_cut_is_stable(window: Seq<u8>, len: nat)
    requires
        fastq_cut(window) == Ok::<nat, Error>(len),
    ensures
        fastq_cut(window.take(len as int + 1)) == Ok::<nat, Error>(len) <==> ends_plainly(
            window,
            len,
        ),
{
    lemma_probe_lands_on_comment(window, window.len() as int, PROBES as nat);
    let cut = len as int;
    let again = window.take(cut + 1);
    assert(last_newline(again, cut + 1) == cut - 1) by {
        reveal_with_fuel(last_newline, 2);
    }
    assert(line_starts_with(again, cut - 1, COMMENT_SIGIL));
    assert(fastq_cut(again) == settle(again, cut - 1));

    let before1 = last_newline(window, cut - 1);
    let before2 = last_newline(window, before1);
    lemma_last_newline_bounds(window, cut - 1);
    lemma_last_newline_bounds(window, before1);
    lemma_last_newline_bounds(window, before2);
    lemma_last_newline_subrange(window, 0, cut + 1, cut - 1);
    if before1 >= 0 {
        lemma_last_newline_subrange(window, 0, cut + 1, before1);
        if before2 >= 0 {
            lemma_last_newline_subrange(window, 0, cut + 1, before2);
        }
    }
}

/// Decoding loses nothing: the bytes that a record takes up are its four
/// fields, each followed by a newline.
pub proof fn lemma_decode_lossless(block: Seq<u8>, offset: int)
    requires
        0 <= offset <= block.len(),
    ensures
        decode(block, offset).0 matches Ok(Some(record)) ==> block.subrange(
            offset,
            decode(block, offset).1,
        ) == record.comment + seq![NEWLINE] + record.sequence + seq![NEWLINE] + record.plus
            + seq![NEWLINE] + record.quality + seq![NEWLINE],
{
    lemma_decode_moves(block, offset);
    let end1 = next_newline(block, offset);
    let end2 = next_newline(block, end1 + 1);
    let end3 = next_newline(block, end2 + 1);
    let end4 = next_newline(block, end3 + 1);
    lemma_next_newline_bounds(block, offset);
    if end1 < block.len() {
        lemma_next_newline_bounds(block, end1 + 1);
        if end2 < block.len() {
            lemma_next_newline_bounds(block, end2 + 1);
            if end3 < block.len() {
                lemma_next_newline_bounds(block, end3 + 1);
                if end4 < block.len() {
                    assert(block.subrange(offset, end4 + 1) =~= block.subrange(offset, end1)
                        + seq![NEWLINE] + block.subrange(end1 + 1, end2) + seq![NEWLINE]
                        + block.subrange(end2 + 1, end3) + seq![NEWLINE] + block.subrange(
                        end3 + 1,
                        end4,
                    ) + seq![NEWLINE]);
                }
            }
        }
    }
}

/// Whether `first` may open the line with the number `line`: of every four
/// lines the first opens with `@`, the second, the sequence, with neither
/// `@` nor `+`, the third with `+`, and the fourth, the quality, with any
/// byte.
pub open spec fn sigil_fits(line: nat, first: u8) -> bool {
    &&& line % 4 == 0 ==> first == COMMENT_SIGIL
    &&& line % 4 == 1 ==> first != COMMENT_SIGIL && first != SEPARATOR_SIGIL
    &&& line % 4 == 2 ==> first == SEPARATOR_SIGIL
}

/// Whether `bytes`, from `from` on, is a run of whole records: every line
/// ends with a newline, the lines come in fours, and each opens as its
/// place among the four asks.
pub open spec fn well_formed(bytes: Seq<u8>, from: int) -> bool {
    &&& 0 <= from <= bytes.len()
    &&& from < bytes.len() ==> bytes[bytes.len() - 1] == NEWLINE
    &&& count_newlines(bytes, from, bytes.len() as int) % 4 == 0
    &&& forall|at: int|
        is_line_start(bytes, from, at) && at < bytes.len() ==> sigil_fits(
            #[trigger] count_newlines(bytes, from, at),
            bytes[at],
        )
}

/// What is well formed stays so from the start of any of its records.
pub proof fn lemma_well_formed_from(bytes: Seq<u8>, from: int, at: int)
    requires
        well_formed(bytes, from),
        is_line_start(bytes, from, at),
        count_newlines(bytes, from, at) % 4 == 0,
    ensures
        well_formed(bytes, at),
{
    lemma_count_split(bytes, from, at, bytes.len() as int);
    assert forall|line: int|
        is_line_start(bytes, at, line) && line < bytes.len() implies sigil_fits(
        #[trigger] count_newlines(bytes, at, line),
        bytes[line],
    ) by {
        lemma_count_split(bytes, from, at, line);
        assert(is_line_start(bytes, from, line));
        assert(sigil_fits(count_newlines(bytes, from, line), bytes[line]));
    }
}

/// In what is well formed, a line whose number is a multiple of four starts
/// where a record starts: its offset is aligned.
pub proof fn lemma_record_start_is_aligned(bytes: Seq<u8>, from: int, at: int)
    requires
        well_formed(bytes, from),
        is_line_start(bytes, from, at),
        count_newlines(bytes, from, at) % 4 == 0,
    ensures
        aligned::<Block2Record>(bytes, from, at),
    decreases bytes.len() - from,
{
    if from < at {
        lemma_count_some(bytes, from, at, at - 1);
        lemma_count_next_line(bytes, from, from, at);
        let end1 = next_newline(bytes, from);
        lemma_count_next_line(bytes, from, end1 + 1, at);
        let end2 = next_newline(bytes, end1 + 1);
        lemma_count_next_line(bytes, from, end2 + 1, at);
        let end3 = next_newline(bytes, end2 + 1);
        lemma_count_next_line(bytes, from, end3 + 1, at);
        let end4 = next_newline(bytes, end3 + 1);
        lemma_count_split(bytes, from, end4 + 1, at);
        lemma_well_formed_from(bytes, from, end4 + 1);
        lemma_record_start_is_aligned(bytes, end4 + 1, at);
    }
}

/// On a well-formed buffer the finder cuts where a record starts, also
/// where a quality line opens with `@` or with `+`: the window of
/// `blocksize` bytes at `cursor`, where a record starts, is cut in front of
/// a line whose number is a multiple of four.
pub proof fn lemma_cut_starts_a_record(file: Seq<u8>, cursor: int, blocksize: int, len: nat)
    requires
        well_formed(file, cursor),
        0 <= blocksize,
        cursor + blocksize <= file.len(),
        fastq_cut(file.subrange(cursor, cursor + blocksize)) == Ok::<nat, Error>(len),
    ensures
        0 < len < blocksize,
        is_line_start(file, cursor, cursor + len),
        count_newlines(file, cursor, cursor + len) % 4 == 0,
{
    let window = file.subrange(cursor, cursor + blocksize);
    lemma_probe_lands_on_comment(window, window.len() as int, PROBES as nat);
    lemma_probe_settles(window, window.len() as int, PROBES as nat);
    let found = candidate(window, window.len() as int, PROBES as nat);
    let before1 = last_newline(window, found);
    let before2 = last_newline(window, before1);
    let before3 = last_newline(window, before2);
    lemma_last_newline_bounds(window, found);
    lemma_last_newline_bounds(window, before1);
    lemma_last_newline_bounds(window, before2);

    // The same lines, seen in the buffer.
    let line0 = cursor + found + 1;
    let line1 = cursor + before1 + 1;
    let line2 = cursor + before2 + 1;
    let line3 = cursor + before3 + 1;
    assert(window[found] == file[cursor + found]);
    assert(window[found + 1] == file[line0]);
    assert(is_line_start(file, cursor, line0));
    assert(sigil_fits(count_newlines(file, cursor, line0), file[line0]));
    lemma_last_newline_subrange(file, cursor, cursor + blocksize, found);
    lemma_count_previous_line(file, cursor, cursor + found);
    assert(window[before1] == file[cursor + before1]);
    assert(window[before1 + 1] == file[line1]);
    assert(is_line_start(file, cursor, line1));
    assert(sigil_fits(count_newlines(file, cursor, line1), file[line1]));
    if line_starts_with(window, before1, SEPARATOR_SIGIL) {
        lemma_last_newline_subrange(file, cursor, cursor + blocksize, before1);
        lemma_count_previous_line(file, cursor, cursor + before1);
        assert(window[before2] == file[cursor + before2]);
        assert(window[before2 + 1] == file[line2]);
        assert(is_line_start(file, cursor, line2));
        assert(sigil_fits(count_newlines(file, cursor, line2), file[line2]));
        if !line_starts_with(window, before2, SEPARATOR_SIGIL) {
            lemma_last_newline_subrange(file, cursor, cursor + blocksize, before2);
            lemma_count_previous_line(file, cursor, cursor + before2);
            assert(window[before3] == file[cursor + before3]);
            assert(is_line_start(file, cursor, line3));
        }
    }
}

/// On a well-formed buffer the finder cuts between records: the window of
/// `blocksize` bytes at `cursor`, where a record starts, is cut at an offset
/// that is aligned with `cursor`, and what follows is well formed.
pub proof fn lemma_cut_is_aligned(file: Seq<u8>, cursor: int, blocksize: int, len: nat)
    requires
        well_formed(file, cursor),
        0 <= blocksize,
        cursor + blocksize <= file.len(),
        fastq_cut(file.subrange(cursor, cursor + blocksize)) == Ok::<nat, Error>(len),
    ensures
        aligned::<Block2Record>(file, cursor, cursor + len),
        well_formed(file, cursor + len),
{
    lemma_cut_starts_a_record(file, cursor, blocksize, len);
    lemma_record_start_is_aligned(file, cursor, cursor + len);
    lemma_well_formed_from(file, cursor, cursor + len);
}

/// On a well-formed buffer every cut is stable: a block that the finder cut
/// from a window at `cursor`, where a record starts, ends plainly, so that
/// the block with the one byte that follows it is cut where the block ends.
pub proof fn lemma_cut_is_stable_where_well_formed(
    file: Seq<u8>,
    cursor: int,
    blocksize: int,
    len: nat,
)
    requires
        well_formed(file, cursor),
        0 <= blocksize,
        cursor + blocksize <= file.len(),
        fastq_cut(file.subrange(cursor, cursor + blocksize)) == Ok::<nat, Error>(len),
    ensures
        fastq_cut(file.subrange(cursor, cursor + len + 1)) == Ok::<nat, Error>(len),
{
    let window = file.subrange(cursor, cursor + blocksize);
    lemma_cut_starts_a_record(file, cursor, blocksize, len);
    lemma_cut_is_stable(window, len);
    assert(window.take(len as int + 1) =~= file.subrange(cursor, cursor + len + 1));

    // The block ends with a quality line under a separator.
    let newline0 = cursor + len - 1;
    lemma_count_some(file, cursor, cursor + len, newline0);
    lemma_last_newline_counted(file, cursor, newline0);
    lemma_count_previous_line(file, cursor, newline0);
    let newline1 = last_newline(file, newline0);
    lemma_last_newline_bounds(file, newline0);
    lemma_count_split(file, cursor, newline1, newline1 + 1);
    lemma_last_newline_counted(file, cursor, newline1);
    lemma_count_previous_line(file, cursor, newline1);
    let newline2 = last_newline(file, newline1);
    lemma_last_newline_bounds(file, newline1);
    assert(is_line_start(file, cursor, newline2 + 1));
    assert(sigil_fits(count_newlines(file, cursor, newline2 + 1), file[newline2 + 1]));
    lemma_last_newline_subrange(file, cursor, cursor + blocksize, len - 1);
    lemma_last_newline_subrange(file, cursor, cursor + blocksize, newline1 - cursor);
    assert(window[newline2 + 1 - cursor] == file[newline2 + 1]);
}

/// On a well-formed buffer the scan is sound, whatever the block size: from
/// a cursor where a record starts, every block is made of whole records, so
/// that decoding meets no error of its own, and a scan that the finder lets
/// through yields the records of the buffer.
pub proof fn lemma_scan_decodes_the_buffer(file: Seq<u8>, blocksize: nat, cursor: nat)
    requires
        well_formed(file, cursor as int),
    ensures
        parse::<Fastq, Block2Record>(file, blocksize, cursor).error == scan::<Fastq>(
            file,
            blocksize,
            cursor,
        ).error,
        parse::<Fastq, Block2Record>(file, blocksize, cursor).error is None ==> {
            &&& decode_all::<Block2Record>(file, cursor as int).error is None
            &&& parse::<Fastq, Block2Record>(file, blocksize, cursor).records == decode_all::<
                Block2Record,
            >(file, cursor as int).records
        },
{
    let good = |at: nat| well_formed(file, at as int);
    assert forall|at: nat| #[trigger] good(at) implies (next_len::<Fastq>(file, blocksize, at)
        matches Ok(Some(len)) ==> aligned::<Block2Record>(file, at as int, (at + len) as int)
        && good(at + len)) by {
        match next_len::<Fastq>(file, blocksize, at) {
            Ok(Some(len)) => {
                if blocksize >= file.len() - at {
                    assert(is_line_start(file, at as int, file.len() as int));
                    lemma_record_start_is_aligned(file, at as int, file.len() as int);
                    lemma_well_formed_from(file, at as int, file.len() as int);
                } else {
                    lemma_cut_is_aligned(file, at as int, blocksize as int, len);
                }
            },
            _ => {},
        }
    }
    lemma_parse_of_aligned_blocks::<Fastq, Block2Record>(file, blocksize, cursor, good);
}

/// In what is well formed a record starts at `from` unless `from` is the
/// end: its four lines are there, and the newlines counted up to the record
/// behind it are four.
pub proof fn lemma_first_record(bytes: Seq<u8>, from: int)
    requires
        well_formed(bytes, from),
        from < bytes.len(),
    ensures
        decode(bytes, from).0 matches Ok(Some(_)),
        is_line_start(bytes, from, decode(bytes, from).1),
        count_newlines(bytes, from, decode(bytes, from).1) == 4,
{
    let len = bytes.len() as int;
    lemma_count_some(bytes, from, len, len - 1);
    lemma_count_next_line(bytes, from, from, len);
    let end1 = next_newline(bytes, from);
    lemma_count_next_line(bytes, from, end1 + 1, len);
    let end2 = next_newline(bytes, end1 + 1);
    lemma_count_next_line(bytes, from, end2 + 1, len);
    let end3 = next_newline(bytes, end2 + 1);
    lemma_count_next_line(bytes, from, end3 + 1, len);
}

/// In front of a comment line with at least four newlines before it the
/// finder settles on a cut: the lines that it consults are there, and of a
/// well-formed buffer they are what it takes them for.
pub proof fn lemma_settle_succeeds(file: Seq<u8>, cursor: int, blocksize: int, candidate: int)
    requires
        well_formed(file, cursor),
        cursor + blocksize <= file.len(),
        0 <= candidate,
        candidate + 1 < blocksize,
        file[cursor + candidate] == NEWLINE,
        file[cursor + candidate + 1] == COMMENT_SIGIL,
        count_newlines(file, cursor, cursor + candidate + 1) >= 4,
    ensures
        settle(file.subrange(cursor, cursor + blocksize), candidate) is Ok,
{
    let window = file.subrange(cursor, cursor + blocksize);
    let line0 = cursor + candidate + 1;
    assert(is_line_start(file, cursor, line0));
    assert(sigil_fits(count_newlines(file, cursor, line0), file[line0]));
    lemma_count_split(file, cursor, cursor + candidate, line0);
    assert(count_newlines(file, cursor + candidate, line0) == 1) by {
        reveal_with_fuel(count_newlines, 2);
    }

    lemma_look_back(file, cursor, blocksize, candidate);
    let before1 = last_newline(window, candidate);
    let line1 = cursor + before1 + 1;
    assert(window[before1 + 1] == file[line1]);
    assert(is_line_start(file, cursor, line1));
    assert(sigil_fits(count_newlines(file, cursor, line1), file[line1]));

    lemma_look_back(file, cursor, blocksize, before1);
    let before2 = last_newline(window, before1);
    let line2 = cursor + before2 + 1;
    assert(window[before2 + 1] == file[line2]);
    assert(is_line_start(file, cursor, line2));
    assert(sigil_fits(count_newlines(file, cursor, line2), file[line2]));

    lemma_look_back(file, cursor, blocksize, before2);
    let before3 = last_newline(window, before2);
    let line3 = cursor + before3 + 1;
    assert(window[before3 + 1] == file[line3]);
    assert(is_line_start(file, cursor, line3));
    assert(sigil_fits(count_newlines(file, cursor, line3), file[line3]));
}

/// A probe finds a cut where a comment line with at least four newlines
/// before it is among the lines that it looks at: `target` is the number of
/// such a line.
pub proof fn lemma_probe_succeeds(
    file: Seq<u8>,
    cursor: int,
    blocksize: int,
    end: int,
    probes: nat,
    target: int,
)
    requires
        well_formed(file, cursor),
        cursor + blocksize <= file.len(),
        0 <= end <= blocksize,
        target % 4 == 0,
        target >= 4,
        count_newlines(file, cursor, cursor + end) - probes < target <= count_newlines(
            file,
            cursor,
            cursor + end,
        ),
        target == count_newlines(file, cursor, cursor + end) ==> last_newline(
            file.subrange(cursor, cursor + blocksize),
            end,
        ) + 1 < blocksize,
    ensures
        probe(file.subrange(cursor, cursor + blocksize), end, probes) is Ok,
    decreases probes,
{
    let window = file.subrange(cursor, cursor + blocksize);
    lemma_look_back(file, cursor, blocksize, end);
    let newline = last_newline(window, end);
    let line = cursor + newline + 1;
    if line_starts_with(window, newline, COMMENT_SIGIL) {
        assert(window[newline + 1] == file[line]);
        lemma_settle_succeeds(file, cursor, blocksize, newline);
    } else {
        if target == count_newlines(file, cursor, cursor + end) {
            assert(window[newline + 1] == file[line]);
            assert(is_line_start(file, cursor, line));
            assert(sigil_fits(count_newlines(file, cursor, line), file[line]));
        }
        lemma_last_newline_bounds(window, newline);
        lemma_probe_succeeds(file, cursor, blocksize, newline, (probes - 1) as nat, target);
    }
}

/// On a well-formed buffer the finder finds a cut in every window that
/// holds a record and one byte more: the window of `blocksize` bytes at
/// `cursor`, where a record starts that ends before the window does.
pub proof fn lemma_cut_exists(file: Seq<u8>, cursor: int, blocksize: int)
    requires
        well_formed(file, cursor),
        cursor + blocksize <= file.len(),
        cursor < decode(file, cursor).1 < cursor + blocksize,
    ensures
        fastq_cut(file.subrange(cursor, cursor + blocksize)) is Ok,
{
    let window = file.subrange(cursor, cursor + blocksize);
    let next = decode(file, cursor).1;
    lemma_first_record(file, cursor);
    lemma_count_split(file, cursor, next, cursor + blocksize);
    let lines = count_newlines(file, cursor, cursor + blocksize) as int;
    lemma_look_back(file, cursor, blocksize, blocksize);
    let newline = last_newline(window, blocksize);
    let target = if lines % 4 != 0 {
        lines - lines % 4
    } else if newline + 1 < blocksize {
        lines
    } else {
        lines - 4
    };
    if lines % 4 == 0 && newline + 1 == blocksize {
        // The window ends with a line, and that is not the first record's last.
        lemma_count_some(file, next, cursor + blocksize, cursor + newline);
    }
    lemma_probe_succeeds(file, cursor, blocksize, blocksize, PROBES as nat, target);
}

/// Whether every record of `file` that starts at an offset aligned with
/// `cursor` is shorter than `blocksize`.
pub open spec fn records_fit(file: Seq<u8>, cursor: int, blocksize: nat) -> bool {
    forall|at: int| #[trigger]
        aligned::<Block2Record>(file, cursor, at) && at < file.len() ==> decode(file, at).1 - at
            < blocksize
}

/// Where the windows are longer than every record of a well-formed buffer,
/// the finder never fails.
pub proof fn lemma_scan_meets_no_error(file: Seq<u8>, blocksize: nat, cursor: nat)
    requires
        well_formed(file, cursor as int),
        records_fit(file, cursor as int, blocksize),
    ensures
        scan::<Fastq>(file, blocksize, cursor).error is None,
    decreases file.len() - cursor,
{
    if cursor < file.len() {
        let at = cursor as int;
        if blocksize >= file.len() - cursor {
            assert(scan::<Fastq>(file, blocksize, file.len()).error is None);
        } else {
            assert(aligned::<Block2Record>(file, at, at));
            lemma_first_record(file, at);
            lemma_cut_exists(file, at, blocksize as int);
            let len = fastq_cut(file.subrange(at, at + blocksize))->Ok_0;
            lemma_cut_is_aligned(file, at, blocksize as int, len);
            assert forall|next: int| #[trigger]
                aligned::<Block2Record>(file, at + len, next) && next < file.len() implies decode(
                file,
                next,
            ).1 - next < blocksize by {
                lemma_aligned_chain::<Block2Record>(file, at, at + len, next);
            }
            lemma_scan_meets_no_error(file, blocksize, cursor + len);
        }
    }
}

/// Round trip on a well-formed buffer: where the windows are longer than
/// every record, the scan from a cursor where a record starts meets no
/// error, its blocks put end to end are the buffer from the cursor on, and
/// the records that it yields are the records of the buffer.
pub proof fn lemma_scan_succeeds(file: Seq<u8>, blocksize: nat, cursor: nat)
    requires
        well_formed(file, cursor as int),
        records_fit(file, cursor as int, blocksize),
    ensures
        scan::<Fastq>(file, blocksize, cursor).error is None,
        scan::<Fastq>(file, blocksize, cursor).blocks.flatten() == file.subrange(
            cursor as int,
            file.len() as int,
        ),
        parse::<Fastq, Block2Record>(file, blocksize, cursor).error is None,
        parse::<Fastq, Block2Record>(file, blocksize, cursor).records == decode_all::<
            Block2Record,
        >(file, cursor as int).records,
{
    lemma_scan_meets_no_error(file, blocksize, cursor);
    lemma_scan_round_trip::<Fastq>(file, blocksize, cursor);
    lemma_scan_decodes_the_buffer(file, blocksize, cursor);
}

} // verus!
