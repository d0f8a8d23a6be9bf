use biommap::block::{Block, BlockProducer, DEFAULT_BLOCKSIZE};
use biommap::error::Error;
use biommap::fasta::Fasta;
use biommap::fastq::Fastq;
use biommap::format::BoundaryFinder;

#[test]
fn default_blocksize() {
    assert_eq!(DEFAULT_BLOCKSIZE, 8192);
}

#[test]
fn empty_buffer_is_at_its_end() {
    let mut producer = BlockProducer::<Fasta>::new(b"");
    assert!(matches!(producer.next_block(), Ok(None)));
    assert!(matches!(producer.next_block(), Ok(None)));

    let mut producer = BlockProducer::<Fastq>::with_blocksize(0, b"");
    assert!(matches!(producer.next_block(), Ok(None)));
}

#[test]
fn offset_at_or_behind_the_end() {
    let data = b">a\nAC\n";
    let mut producer = BlockProducer::<Fasta>::with_offset(6, data);
    assert!(matches!(producer.next_block(), Ok(None)));

    let mut producer = BlockProducer::<Fasta>::with_offset(7, data);
    assert!(matches!(producer.next_block(), Ok(None)));

    let mut producer = BlockProducer::<Fasta>::with_blocksize_offset(2, u64::MAX, data);
    assert!(matches!(producer.next_block(), Ok(None)));
}

#[test]
fn window_that_reaches_the_end_is_not_corrected() {
    // No newline, no sigil: the last block is handed out as it is.
    let data = b"anything at all";
    let mut producer = BlockProducer::<Fasta>::new(data);
    let block = producer.next_block().unwrap().unwrap();
    assert_eq!(block.data(), data);
    assert_eq!(block.offset(), 0);
    assert_eq!(block.len(), 15);
    assert!(producer.next_block().unwrap().is_none());

    let mut producer = BlockProducer::<Fastq>::with_blocksize(15, data);
    let block = producer.next_block().unwrap().unwrap();
    assert_eq!(block.data(), data);

    let mut producer = BlockProducer::<Fastq>::with_blocksize_offset(u64::MAX, 9, data);
    let block = producer.next_block().unwrap().unwrap();
    assert_eq!(block.data(), b"at all");
    assert_eq!(block.offset(), 9);
}

#[test]
fn window_short_of_the_end_is_corrected() {
    let data = b"anything at all";
    let mut producer = BlockProducer::<Fasta>::with_blocksize(14, data);
    assert!(matches!(producer.next_block(), Err(Error::NoNewLineInBlock)));

    let mut producer = BlockProducer::<Fastq>::with_blocksize(14, data);
    assert!(matches!(producer.next_block(), Err(Error::NoNewLineInBlock)));
}

#[test]
fn empty_window() {
    let mut producer = BlockProducer::<Fasta>::with_blocksize(0, b">a\nAC\n");
    assert!(matches!(producer.next_block(), Err(Error::NoNewLineInBlock)));
}

#[test]
fn finders_by_format() {
    let data = b"@1\nAA\n+1\n!!\n@2\nTT\n+2\n!!";
    assert_eq!(Fastq::correct_block_size(data), Ok(12));
    assert_eq!(Fasta::correct_block_size(data), Err(Error::NotAFastaFile));
    assert_eq!(Fasta::correct_block_size(b">a\nAC\n>b"), Ok(6));
}

#[test]
fn block_accessors() {
    let block = Block::new(42, b"abc");
    assert_eq!(block.offset(), 42);
    assert_eq!(block.len(), 3);
    assert!(!block.is_empty());
    assert_eq!(block.data(), b"abc");

    let block = Block::new(0, b"");
    assert_eq!(block.len(), 0);
    assert!(block.is_empty());
}
