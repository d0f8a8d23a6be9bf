//! The scan as one fold: blocks from a producer, records from each block,
//! every record through a reducer.

use crate::block::{lemma_next_len_inside, next_len, scan, Block, BlockProducer};
use crate::error::Error;
use crate::format::{BoundaryFinder, RecordDecoder};
use vstd::prelude::*;

verus! {

/// What decoding a block to its end gives.
pub struct Decoded<V> {
    /// The records, in the order in which they come.
    pub records: Seq<V>,
    /// The error that ended the decoding, if one did.
    pub error: Option<Error>,
    /// The offset at which the decoding stopped.
    pub end: int,
}

/// The decoding of `block` from `offset` on: record after record until the
/// end of the block or the first error.
pub open spec fn decode_all<'a, D: RecordDecoder<'a>>(block: Seq<u8>, offset: int) -> Decoded<
    <D::Record as View>::V,
>
    decreases block.len() - offset,
{
    if 0 <= offset <= block.len() {
        let (step, next) = D::decode(block, offset);
        match step {
            Ok(Some(record)) => {
                proof {
                    D::lemma_decode_moves(block, offset);
                }
                let rest = decode_all::<D>(block, next);
                Decoded { records: seq![record] + rest.records, error: rest.error, end: rest.end }
            },
            Ok(None) => Decoded { records: Seq::empty(), error: None, end: next },
            Err(e) => Decoded { records: Seq::empty(), error: Some(e), end: next },
        }
    } else {
        Decoded { records: Seq::empty(), error: None, end: offset }
    }
}

/// What a whole scan decodes.
pub struct Parsed<V> {
    /// The records of all blocks, in the order in which they come.
    pub records: Seq<V>,
    /// The error that ended the scan, if one did.
    pub error: Option<Error>,
}

/// The records of `file` from `cursor` on: each block of the scan decoded
/// to its end, until the end of the buffer or the first error of the
/// producer or of the decoder.
pub open spec fn parse<'a, F: BoundaryFinder, D: RecordDecoder<'a>>(
    file: Seq<u8>,
    blocksize: nat,
    cursor: nat,
) -> Parsed<<D::Record as View>::V>
    decreases file.len() - cursor,
{
    match next_len::<F>(file, blocksize, cursor) {
        Ok(Some(len)) => {
            proof {
                lemma_next_len_inside::<F>(file, blocksize, cursor);
            }
            let block = decode_all::<D>(file.subrange(cursor as int, (cursor + len) as int), 0);
            let rest = parse::<F, D>(file, blocksize, cursor + len);
            if block.error is Some {
                Parsed { records: block.records, error: block.error }
            } else {
                Parsed { records: block.records + rest.records, error: rest.error }
            }
        },
        Ok(None) => Parsed { records: Seq::empty(), error: None },
        Err(e) => Parsed { records: Seq::empty(), error: Some(e) },
    }
}

/// Whether feeding `records` in order through `reducer`, starting from
/// `init`, can end in `out`. The reducer is known by its contract alone, so
/// this is a relation: each step takes the accumulator reached so far and a
/// record with the next view to an accumulator that the reducer's `ensures`
/// admits.
pub open spec fn folds_to<A, R: View, F: Fn(A, R) -> A>(
    reducer: F,
    init: A,
    records: Seq<R::V>,
    out: A,
) -> bool
    decreases records.len(),
{
    if records.len() == 0 {
        out == init
    } else {
        exists|acc: A, record: R|
            folds_to::<A, R, F>(reducer, init, records.drop_last(), acc) && record@
                == records.last() && #[trigger] call_ensures(reducer, (acc, record), out)
    }
}

/// Decodes `block` to its end and folds every record through `reducer`,
/// starting from `init`. An error of the decoder ends the fold, and what
/// was accumulated is dropped.
pub fn fold_block<'a, D, A, R>(block: Block<'a>, init: A, reducer: &R) -> (out: Result<
    A,
    Error,
>) where D: RecordDecoder<'a>, R: Fn(A, D::Record) -> A
    requires
        forall|acc: A, record: D::Record| call_requires(*reducer, (acc, record)),
    ensures
        match out {
            Ok(acc) => decode_all::<D>(block@, 0).error is None && folds_to::<A, D::Record, R>(
                *reducer,
                init,
                decode_all::<D>(block@, 0).records,
                acc,
            ),
            Err(e) => decode_all::<D>(block@, 0).error == Some(e),
        },
{
    let mut decoder = D::start(block);
    let mut acc = init;
    let ghost mut done: Seq<<D::Record as View>::V> = Seq::empty();
    proof {
        assert(done + decode_all::<D>(block@, 0).records =~= decode_all::<D>(block@, 0).records);
    }
    loop
        invariant
            decoder.bytes() == block@,
            forall|acc: A, record: D::Record| call_requires(*reducer, (acc, record)),
            folds_to::<A, D::Record, R>(*reducer, init, done, acc),
            decode_all::<D>(block@, 0).records == done + decode_all::<D>(
                block@,
                decoder.position(),
            ).records,
            decode_all::<D>(block@, 0).error == decode_all::<D>(block@, decoder.position()).error,
        decreases block@.len() - decoder.position(),
    {
        let ghost position = decoder.position();
        match decoder.advance() {
            Ok(Some(record)) => {
                let ghost before = acc;
                acc = reducer(acc, record);
                proof {
                    D::lemma_decode_moves(block@, position);
                    lemma_folds_to_push::<A, D::Record, R>(
                        *reducer,
                        init,
                        done,
                        before,
                        record,
                        acc,
                    );
                    let rest = decode_all::<D>(block@, decoder.position()).records;
                    assert(done + (seq![record@] + rest) =~= done.push(record@) + rest);
                    done = done.push(record@);
                }
            },
            Ok(None) => {
                proof {
                    assert(done + Seq::empty() =~= done);
                }
                return Ok(acc);
            },
            Err(e) => {
                return Err(e);
            },
        }
    }
}

/// Scans what `producer` has left, block by block, and folds every record
/// of every block through `reducer`, starting from `init`. One block is
/// held at a time. The first error of the producer or of the decoder ends
/// the scan, and what was accumulated is dropped.
pub fn fold<'a, F, D, A, R>(producer: BlockProducer<'a, F>, init: A, reducer: R) -> (out: Result<
    A,
    Error,
>) where F: BoundaryFinder, D: RecordDecoder<'a>, R: Fn(A, D::Record) -> A
    requires
        forall|acc: A, record: D::Record| call_requires(reducer, (acc, record)),
    ensures
        ({
            let all = parse::<F, D>(producer.file(), producer.blocksize(), producer.cursor());
            match out {
                Ok(acc) => all.error is None && folds_to::<A, D::Record, R>(
                    reducer,
                    init,
                    all.records,
                    acc,
                ),
                Err(e) => all.error == Some(e),
            }
        }),
{
    let ghost all = parse::<F, D>(producer.file(), producer.blocksize(), producer.cursor());
    let ghost file = producer.file();
    let ghost blocksize = producer.blocksize();
    let mut blocks = producer;
    let mut acc = init;
    let ghost mut done: Seq<<D::Record as View>::V> = Seq::empty();
    proof {
        assert(done + all.records =~= all.records);
    }
    loop
        invariant
            all == parse::<F, D>(producer.file(), producer.blocksize(), producer.cursor()),
            blocks.file() == file,
            blocks.blocksize() == blocksize,
            forall|acc: A, record: D::Record| call_requires(reducer, (acc, record)),
            folds_to::<A, D::Record, R>(reducer, init, done, acc),
            all.records == done + parse::<F, D>(file, blocksize, blocks.cursor()).records,
            all.error == parse::<F, D>(file, blocksize, blocks.cursor()).error,
        decreases file.len() - blocks.cursor(),
    {
        let ghost cursor = blocks.cursor();
        proof {
            lemma_next_len_inside::<F>(file, blocksize, cursor);
        }
        match blocks.next_block() {
            Ok(Some(block)) => {
                let ghost before = acc;
                let ghost decoded = decode_all::<D>(block@, 0);
                let ghost rest = parse::<F, D>(file, blocksize, blocks.cursor());
                acc = match fold_block::<D, A, R>(block, acc, &reducer) {
                    Ok(acc) => acc,
                    Err(e) => {
                        return Err(e);
                    },
                };
                proof {
                    lemma_folds_to_append::<A, D::Record, R>(
                        reducer,
                        init,
                        done,
                        before,
                        decoded.records,
                        acc,
                    );
                    assert(done + (decoded.records + rest.records) =~= (done + decoded.records)
                        + rest.records);
                    done = done + decoded.records;
                }
            },
            Ok(None) => {
                proof {
                    assert(done + Seq::empty() =~= done);
                }
                return Ok(acc);
            },
            Err(e) => {
                return Err(e);
            },
        }
    }
}

/// Decoding is total: it stops inside the block, and where no error stopped
/// it, it stopped at the end of the block, with no byte left over.
pub proof fn lemma_decode_all_total<'a, D: RecordDecoder<'a>>(block: Seq<u8>, offset: int)
    requires
        0 <= offset <= block.len(),
    ensures
        offset <= decode_all::<D>(block, offset).end <= block.len(),
        decode_all::<D>(block, offset).error is None ==> decode_all::<D>(block, offset).end
            == block.len(),
    decreases block.len() - offset,
{
    D::lemma_decode_moves(block, offset);
    let (step, next) = D::decode(block, offset);
    if step matches Ok(Some(_)) {
        lemma_decode_all_total::<D>(block, next);
    }
}

/// One more step: a fold over `records` that reached `acc` goes on over the
/// view of `record` to what the reducer made of both.
pub proof fn lemma_folds_to_push<A, R: View, F: Fn(A, R) -> A>(
    reducer: F,
    init: A,
    records: Seq<R::V>,
    acc: A,
    record: R,
    out: A,
)
    requires
        folds_to::<A, R, F>(reducer, init, records, acc),
        call_ensures(reducer, (acc, record), out),
    ensures
        folds_to::<A, R, F>(reducer, init, records.push(record@), out),
{
    assert(records.push(record@).drop_last() =~= records);
}

/// Folds compose: a fold over `head` that reached `mid`, followed by a fold
/// over `tail` from `mid`, is a fold over both.
pub proof fn lemma_folds_to_append<A, R: View, F: Fn(A, R) -> A>(
    reducer: F,
    init: A,
    head: Seq<R::V>,
    mid: A,
    tail: Seq<R::V>,
    out: A,
)
    requires
        folds_to::<A, R, F>(reducer, init, head, mid),
        folds_to::<A, R, F>(reducer, mid, tail, out),
    ensures
        folds_to::<A, R, F>(reducer, init, head + tail, out),
    decreases tail.len(),
{
    if tail.len() == 0 {
        assert(head + tail =~= head);
    } else {
        let (acc, record) = choose|acc: A, record: R|
            folds_to::<A, R, F>(reducer, mid, tail.drop_last(), acc) && record@ == tail.last()
                && #[trigger] call_ensures(reducer, (acc, record), out);
        lemma_folds_to_append::<A, R, F>(reducer, init, head, mid, tail.drop_last(), acc);
        assert((head + tail).drop_last() =~= head + tail.drop_last());
    }
}

/// A reducer that computes a function folds to one accumulator: where the
/// reducer's contract lets it return nothing but `step` of the accumulator
/// and the record's view, a fold ends in the left fold of `step`.
pub proof fn lemma_folds_to_function<A, R: View, F: Fn(A, R) -> A>(
    reducer: F,
    init: A,
    records: Seq<R::V>,
    out: A,
    step: spec_fn(A, R::V) -> A,
)
    requires
        folds_to::<A, R, F>(reducer, init, records, out),
        forall|acc: A, record: R, next: A| #[trigger]
            call_ensures(reducer, (acc, record), next) ==> next == step(acc, record@),
    ensures
        out == records.fold_left(init, step),
    decreases records.len(),
{
    if records.len() > 0 {
        let (acc, record) = choose|acc: A, record: R|
            folds_to::<A, R, F>(reducer, init, records.drop_last(), acc) && record@
                == records.last() && #[trigger] call_ensures(reducer, (acc, record), out);
        lemma_folds_to_function::<A, R, F>(reducer, init, records.drop_last(), acc, step);
    }
}

/// Whether `at` is reached from `from` by decoding whole records: the
/// offsets of `bytes` that are aligned with `from`.
pub open spec fn aligned<'a, D: RecordDecoder<'a>>(bytes: Seq<u8>, from: int, at: int) -> bool
    decreases bytes.len() - from,
{
    if from == at {
        0 <= at <= bytes.len()
    } else if 0 <= from < at <= bytes.len() {
        proof {
            D::lemma_decode_moves(bytes, from);
        }
        D::decode(bytes, from).0 matches Ok(Some(_)) && aligned::<D>(
            bytes,
            D::decode(bytes, from).1,
            at,
        )
    } else {
        false
    }
}

/// Aligned offsets form a chain: what is aligned with an offset that is
/// aligned with `from` is aligned with `from`.
pub proof fn lemma_aligned_chain<'a, D: RecordDecoder<'a>>(
    bytes: Seq<u8>,
    from: int,
    mid: int,
    at: int,
)
    requires
        aligned::<D>(bytes, from, mid),
        aligned::<D>(bytes, mid, at),
    ensures
        aligned::<D>(bytes, from, at),
    decreases bytes.len() - from,
{
    if from != mid {
        D::lemma_decode_moves(bytes, from);
        lemma_aligned_chain::<D>(bytes, D::decode(bytes, from).1, mid, at);
    }
}

/// A block between two aligned offsets decodes to its end without an error,
/// to the records that the whole buffer has there: decoding the buffer from
/// `offset` gives what decoding the block gives, followed by what decoding
/// the buffer from the end of the block gives.
pub proof fn lemma_aligned_block<'a, D: RecordDecoder<'a>>(
    bytes: Seq<u8>,
    from: int,
    offset: int,
    at: int,
)
    requires
        0 <= from <= offset,
        aligned::<D>(bytes, offset, at),
    ensures
        offset <= at <= bytes.len(),
        decode_all::<D>(bytes.subrange(from, at), offset - from).error is None,
        decode_all::<D>(bytes, offset).records == decode_all::<D>(
            bytes.subrange(from, at),
            offset - from,
        ).records + decode_all::<D>(bytes, at).records,
        decode_all::<D>(bytes, offset).error == decode_all::<D>(bytes, at).error,
    decreases bytes.len() - offset,
{
    let block = bytes.subrange(from, at);
    let rest = decode_all::<D>(bytes, at).records;
    if offset == at {
        D::lemma_decode_moves(block, offset - from);
        assert(Seq::empty() + rest =~= rest);
    } else {
        D::lemma_decode_moves(bytes, offset);
        let next = D::decode(bytes, offset).1;
        lemma_aligned_block::<D>(bytes, from, next, at);
        D::lemma_decode_local(bytes, from, at, offset);
        let record = D::decode(bytes, offset).0->Ok_0->Some_0;
        let inner = decode_all::<D>(block, next - from).records;
        assert(seq![record] + (inner + rest) =~= (seq![record] + inner) + rest);
    }
}

/// Where every block of a scan ends at an aligned offset, the scan decodes
/// what is there: it meets no error but the producer's, and a scan without
/// an error yields the records of the buffer, whatever the block size.
/// `good` holds of the offsets at which blocks may start.
pub proof fn lemma_parse_of_aligned_blocks<'a, F: BoundaryFinder, D: RecordDecoder<'a>>(
    file: Seq<u8>,
    blocksize: nat,
    cursor: nat,
    good: spec_fn(nat) -> bool,
)
    requires
        cursor <= file.len(),
        good(cursor),
        forall|at: nat| #[trigger]
            good(at) ==> (next_len::<F>(file, blocksize, at) matches Ok(Some(len)) ==> aligned::<
                D,
            >(file, at as int, (at + len) as int) && good(at + len)),
    ensures
        parse::<F, D>(file, blocksize, cursor).error == scan::<F>(file, blocksize, cursor).error,
        parse::<F, D>(file, blocksize, cursor).error is None ==> {
            &&& decode_all::<D>(file, cursor as int).error is None
            &&& parse::<F, D>(file, blocksize, cursor).records == decode_all::<D>(
                file,
                cursor as int,
            ).records
        },
    decreases file.len() - cursor,
{
    lemma_next_len_inside::<F>(file, blocksize, cursor);
    match next_len::<F>(file, blocksize, cursor) {
        Ok(Some(len)) => {
            lemma_aligned_block::<D>(file, cursor as int, cursor as int, (cursor + len) as int);
            lemma_parse_of_aligned_blocks::<F, D>(file, blocksize, cursor + len, good);
        },
        Ok(None) => {
            D::lemma_decode_moves(file, cursor as int);
        },
        Err(e) => {},
    }
}

} // verus!
