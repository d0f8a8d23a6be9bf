//! Newline-delimited lines inside a byte sequence.

use crate::error::Error;
use crate::search::{find_byte, rfind_byte};
use core::ops::Range;
use vstd::prelude::*;
use vstd::slice::slice_subrange;

verus! {

/// The byte that ends a line, `\n`.
pub const NEWLINE: u8 = 10;

/// The index of the last newline before `end`, or `-1` when there is none.
pub open spec fn last_newline(bytes: Seq<u8>, end: int) -> int
    decreases end,
{
    if end <= 0 {
        -1
    } else if bytes[end - 1] == NEWLINE {
        end - 1
    } else {
        last_newline(bytes, end - 1)
    }
}

/// The index of the first newline at or after `start`, or `bytes.len()` when
/// there is none.
pub open spec fn next_newline(bytes: Seq<u8>, start: int) -> int
    decreases bytes.len() - start,
{
    if start >= bytes.len() {
        bytes.len() as int
    } else if bytes[start] == NEWLINE {
        start
    } else {
        next_newline(bytes, start + 1)
    }
}

/// Whether the line that follows the newline at `newline` lies in `bytes`
/// and starts with `sigil`.
pub open spec fn line_starts_with(bytes: Seq<u8>, newline: int, sigil: u8) -> bool {
    newline + 1 < bytes.len() && bytes[newline + 1] == sigil
}

/// The number of newlines among the bytes from `from` up to `to`.
pub open spec fn count_newlines(bytes: Seq<u8>, from: int, to: int) -> nat
    decreases to - from,
{
    if to <= from {
        0
    } else if bytes[to - 1] == NEWLINE {
        count_newlines(bytes, from, to - 1) + 1
    } else {
        count_newlines(bytes, from, to - 1)
    }
}

/// Whether a line starts at `at`, for lines that are counted from `from`:
/// `at` is `from` itself or the byte before it is a newline.
pub open spec fn is_line_start(bytes: Seq<u8>, from: int, at: int) -> bool {
    from <= at <= bytes.len() && (at == from || bytes[at - 1] == NEWLINE)
}

/// Finds the last newline of `block` before `end`.
pub fn rfind_newline(block: &[u8], end: usize) -> (found: Option<usize>)
    requires
        end <= block@.len(),
    ensures
        match found {
            Some(at) => at as int == last_newline(block@, end as int) && at < end,
            None => last_newline(block@, end as int) == -1,
        },
{
    let head = slice_subrange(block, 0, end);
    let found = rfind_byte(head, NEWLINE);
    proof {
        let at: int = match found {
            Some(at) => at as int,
            None => -1,
        };
        assert forall|j: int| at < j < end implies block@[j] != NEWLINE by {
            assert(head@[j] == block@[j]);
        }
        lemma_last_newline(block@, end as int, at);
    }
    found
}

/// Finds the first newline of `block` at or after `start`.
pub fn find_newline(block: &[u8], start: usize) -> (found: Option<usize>)
    requires
        start <= block@.len(),
    ensures
        match found {
            Some(at) => at as int == next_newline(block@, start as int) && at < block@.len(),
            None => next_newline(block@, start as int) == block@.len(),
        },
{
    let tail = slice_subrange(block, start, block.len());
    let found = find_byte(tail, NEWLINE);
    proof {
        let at: int = match found {
            Some(at) => start + at,
            None => block@.len() as int,
        };
        assert forall|j: int| start <= j < at implies block@[j] != NEWLINE by {
            assert(tail@[j - start] == block@[j]);
        }
        lemma_next_newline(block@, start as int, at);
    }
    match found {
        Some(at) => Some(start + at),
        None => None,
    }
}

/// The range of the line of `block` that starts at `offset`, without the
/// newline that ends it; `PartialRecord` when no newline follows.
pub fn get_line(block: &[u8], offset: usize) -> (line: Result<Range<usize>, Error>)
    requires
        offset <= block@.len(),
    ensures
        match line {
            Ok(range) => {
                &&& range.start == offset
                &&& range.end == next_newline(block@, offset as int)
                &&& offset <= range.end < block@.len()
            },
            Err(e) => e == Error::PartialRecord && next_newline(block@, offset as int)
                == block@.len(),
        },
{
    proof {
        lemma_next_newline_bounds(block@, offset as int);
    }
    match find_newline(block, offset) {
        Some(end) => Ok(Range { start: offset, end }),
        None => Err(Error::PartialRecord),
    }
}

/// `last_newline` is the one position that holds a newline and has none
/// between itself and `end`.
pub proof fn lemma_last_newline(bytes: Seq<u8>, end: int, at: int)
    requires
        -1 <= at < end <= bytes.len(),
        at >= 0 ==> bytes[at] == NEWLINE,
        forall|j: int| at < j < end ==> bytes[j] != NEWLINE,
    ensures
        last_newline(bytes, end) == at,
    decreases end,
{
    if end > 0 && at < end - 1 {
        lemma_last_newline(bytes, end - 1, at);
    }
}

/// `next_newline` is the one position that holds a newline and has none
/// between `start` and itself.
pub proof fn lemma_next_newline(bytes: Seq<u8>, start: int, at: int)
    requires
        0 <= start <= at <= bytes.len(),
        at < bytes.len() ==> bytes[at] == NEWLINE,
        forall|j: int| start <= j < at ==> bytes[j] != NEWLINE,
    ensures
        next_newline(bytes, start) == at,
    decreases at - start,
{
    if start < at {
        lemma_next_newline(bytes, start + 1, at);
    }
}

/// Where `last_newline` points: a newline before `end`, with none after it.
pub proof fn lemma_last_newline_bounds(bytes: Seq<u8>, end: int)
    requires
        end <= bytes.len(),
    ensures
        -1 <= last_newline(bytes, end),
        last_newline(bytes, end) < end || end <= 0,
        last_newline(bytes, end) >= 0 ==> bytes[last_newline(bytes, end)] == NEWLINE,
        forall|j: int| last_newline(bytes, end) < j < end && 0 <= j ==> bytes[j] != NEWLINE,
    decreases end,
{
    if end > 0 && bytes[end - 1] != NEWLINE {
        lemma_last_newline_bounds(bytes, end - 1);
    }
}

/// Where `next_newline` points: a newline at or after `start`, with none
/// before it.
pub proof fn lemma_next_newline_bounds(bytes: Seq<u8>, start: int)
    requires
        0 <= start <= bytes.len(),
    ensures
        start <= next_newline(bytes, start) <= bytes.len(),
        next_newline(bytes, start) < bytes.len() ==> bytes[next_newline(bytes, start)] == NEWLINE,
        forall|j: int| start <= j < next_newline(bytes, start) ==> bytes[j] != NEWLINE,
    decreases bytes.len() - start,
{
    if start < bytes.len() && bytes[start] != NEWLINE {
        lemma_next_newline_bounds(bytes, start + 1);
    }
}

/// Looking back inside a part of `bytes` finds the newline that looking back
/// in `bytes` finds, as long as that one lies in the part.
pub proof fn lemma_last_newline_subrange(bytes: Seq<u8>, from: int, to: int, end: int)
    requires
        0 <= from <= to <= bytes.len(),
        0 <= end <= to - from,
    ensures
        last_newline(bytes.subrange(from, to), end) == if last_newline(bytes, from + end)
            >= from {
            last_newline(bytes, from + end) - from
        } else {
            -1
        },
    decreases end,
{
    let part = bytes.subrange(from, to);
    if end > 0 {
        assert(part[end - 1] == bytes[from + end - 1]);
        if bytes[from + end - 1] != NEWLINE {
            lemma_last_newline_subrange(bytes, from, to, end - 1);
        }
    } else {
        lemma_last_newline_bounds(bytes, from);
    }
}

/// Looking ahead inside a part of `bytes` finds the newline that looking
/// ahead in `bytes` finds, as long as that one lies in the part.
pub proof fn lemma_next_newline_subrange(bytes: Seq<u8>, from: int, to: int, start: int)
    requires
        0 <= from <= to <= bytes.len(),
        0 <= start <= to - from,
    ensures
        next_newline(bytes.subrange(from, to), start) == if next_newline(bytes, from + start)
            < to {
            next_newline(bytes, from + start) - from
        } else {
            to - from
        },
    decreases to - from - start,
{
    let part = bytes.subrange(from, to);
    if start < to - from {
        assert(part[start] == bytes[from + start]);
        if bytes[from + start] != NEWLINE {
            lemma_next_newline_subrange(bytes, from, to, start + 1);
        }
    } else {
        lemma_next_newline_bounds(bytes, to);
    }
}

/// Counting over a range is counting over its two parts.
pub proof fn lemma_count_split(bytes: Seq<u8>, from: int, mid: int, to: int)
    requires
        from <= mid <= to,
    ensures
        count_newlines(bytes, from, to) == count_newlines(bytes, from, mid) + count_newlines(
            bytes,
            mid,
            to,
        ),
    decreases to - mid,
{
    if mid < to {
        lemma_count_split(bytes, from, mid, to - 1);
    }
}

/// A range without a newline counts none.
pub proof fn lemma_count_none(bytes: Seq<u8>, from: int, to: int)
    requires
        forall|j: int| from <= j < to ==> bytes[j] != NEWLINE,
    ensures
        count_newlines(bytes, from, to) == 0,
    decreases to - from,
{
    if from < to {
        lemma_count_none(bytes, from, to - 1);
    }
}

/// A range with a newline counts at least one.
pub proof fn lemma_count_some(bytes: Seq<u8>, from: int, to: int, at: int)
    requires
        from <= at < to,
        bytes[at] == NEWLINE,
    ensures
        count_newlines(bytes, from, to) >= 1,
{
    lemma_count_split(bytes, from, at, to);
    lemma_count_split(bytes, at, at + 1, to);
    assert(count_newlines(bytes, at, at + 1) == 1) by {
        reveal_with_fuel(count_newlines, 2);
    }
}

/// Up to the next newline nothing is counted, and that newline counts one.
pub proof fn lemma_count_next_newline(bytes: Seq<u8>, start: int)
    requires
        0 <= start <= bytes.len(),
    ensures
        count_newlines(bytes, start, next_newline(bytes, start)) == 0,
        next_newline(bytes, start) < bytes.len() ==> count_newlines(
            bytes,
            start,
            next_newline(bytes, start) + 1,
        ) == 1,
{
    lemma_next_newline_bounds(bytes, start);
    lemma_count_none(bytes, start, next_newline(bytes, start));
}

/// From behind the last newline before `end` up to `end` nothing is counted.
pub proof fn lemma_count_last_newline(bytes: Seq<u8>, end: int)
    requires
        0 <= end <= bytes.len(),
    ensures
        count_newlines(bytes, last_newline(bytes, end) + 1, end) == 0,
{
    lemma_last_newline_bounds(bytes, end);
    lemma_count_none(bytes, last_newline(bytes, end) + 1, end);
}

/// Where newlines are counted, the next newline is among them.
pub proof fn lemma_next_newline_counted(bytes: Seq<u8>, from: int, to: int)
    requires
        0 <= from <= to <= bytes.len(),
        count_newlines(bytes, from, to) > 0,
    ensures
        next_newline(bytes, from) < to,
{
    lemma_next_newline_bounds(bytes, from);
    if next_newline(bytes, from) >= to {
        lemma_count_none(bytes, from, to);
    }
}

/// Where newlines are counted, the last newline is among them.
pub proof fn lemma_last_newline_counted(bytes: Seq<u8>, from: int, to: int)
    requires
        0 <= from <= to <= bytes.len(),
        count_newlines(bytes, from, to) > 0,
    ensures
        from <= last_newline(bytes, to),
{
    lemma_last_newline_bounds(bytes, to);
    if last_newline(bytes, to) < from {
        lemma_count_none(bytes, from, to);
    }
}

/// One probe back in a window: where newlines are counted in front of `end`,
/// looking back from `end` in the window of `len` bytes at `from` finds a
/// newline of the window, the one that looking back in `bytes` finds; up to
/// the line behind it as many newlines are counted as up to `end`, and up to
/// itself one less.
pub proof fn lemma_look_back(bytes: Seq<u8>, from: int, len: int, end: int)
    requires
        0 <= from,
        from + len <= bytes.len(),
        0 <= end <= len,
        count_newlines(bytes, from, from + end) > 0,
    ensures
        ({
            let newline = last_newline(bytes.subrange(from, from + len), end);
            &&& 0 <= newline < end
            &&& bytes[from + newline] == NEWLINE
            &&& last_newline(bytes, from + end) == from + newline
            &&& count_newlines(bytes, from, from + newline + 1) == count_newlines(
                bytes,
                from,
                from + end,
            )
            &&& count_newlines(bytes, from, from + newline) == count_newlines(
                bytes,
                from,
                from + end,
            ) - 1
        }),
{
    lemma_last_newline_counted(bytes, from, from + end);
    lemma_last_newline_subrange(bytes, from, from + len, end);
    lemma_last_newline_bounds(bytes, from + end);
    lemma_count_last_newline(bytes, from + end);
    let newline = last_newline(bytes, from + end);
    lemma_count_split(bytes, from, newline + 1, from + end);
    lemma_count_split(bytes, from, newline, newline + 1);
    assert(count_newlines(bytes, newline, newline + 1) == 1) by {
        reveal_with_fuel(count_newlines, 2);
    }
}

/// One line further: where more newlines are counted up to `to` than up to
/// `start`, the line that starts at `start` ends before `to`, and up to the
/// start of the line behind it one more newline is counted.
pub proof fn lemma_count_next_line(bytes: Seq<u8>, from: int, start: int, to: int)
    requires
        0 <= from <= start <= to <= bytes.len(),
        count_newlines(bytes, from, to) > count_newlines(bytes, from, start),
    ensures
        start <= next_newline(bytes, start) < to,
        bytes[next_newline(bytes, start)] == NEWLINE,
        count_newlines(bytes, from, next_newline(bytes, start) + 1) == count_newlines(
            bytes,
            from,
            start,
        ) + 1,
{
    lemma_next_newline_bounds(bytes, start);
    lemma_count_split(bytes, from, start, to);
    lemma_next_newline_counted(bytes, start, to);
    lemma_count_next_newline(bytes, start);
    lemma_count_split(bytes, from, start, next_newline(bytes, start) + 1);
}

/// One line back: up to the start of the line that ends with the newline at
/// `newline` one newline less is counted than up to the start of the line
/// behind it.
pub proof fn lemma_count_previous_line(bytes: Seq<u8>, from: int, newline: int)
    requires
        0 <= from <= last_newline(bytes, newline) + 1,
        0 <= newline < bytes.len(),
        bytes[newline] == NEWLINE,
    ensures
        count_newlines(bytes, from, newline + 1) == count_newlines(
            bytes,
            from,
            last_newline(bytes, newline) + 1,
        ) + 1,
{
    lemma_last_newline_bounds(bytes, newline);
    lemma_count_last_newline(bytes, newline);
    lemma_count_split(bytes, from, last_newline(bytes, newline) + 1, newline);
}

} // verus!
