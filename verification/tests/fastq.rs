use biommap::block::Block;
use biommap::error::Error;
use biommap::fastq::{fastq, Block2Record, File2Block, Record};
use biotest::Format;

/// What the generator writes for `number` records with sequences of
/// `sequence_len` bases.
fn generate(sequence_len: usize, number: usize) -> Vec<u8> {
    let mut rng = biotest::rand();
    let generator = biotest::Fastq::builder()
        .sequence_len(sequence_len)
        .build()
        .unwrap();

    let mut data = Vec::new();
    generator.header(&mut data, &mut rng).unwrap();
    generator.records(&mut data, &mut rng, number).unwrap();
    data
}

#[test]
fn fastq_default() -> Result<(), Error> {
    let data = generate(150, 100);

    let mut blocks = File2Block::new(&data);

    let option = blocks.next_block()?;
    assert!(option.is_some());
    let block = option.unwrap();
    assert_eq!(block.len(), 7866);

    let option = blocks.next_block()?;
    assert!(option.is_some());
    let block = option.unwrap();
    assert_eq!(block.len(), 7866);

    let option = blocks.next_block()?;
    assert!(option.is_some());
    let block = option.unwrap();
    assert_eq!(block.len(), 7866);

    let option = blocks.next_block()?;
    assert!(option.is_some());
    let block = option.unwrap();
    assert_eq!(block.len(), 7866);

    let option = blocks.next_block()?;
    assert!(option.is_some());
    let block = option.unwrap();
    assert_eq!(block.len(), 2736);

    let option = blocks.next_block()?;
    assert!(option.is_none());

    Ok(())
}

#[test]
fn fastq_blocksize() -> Result<(), Error> {
    let data = generate(150, 100);

    let mut blocks = File2Block::with_blocksize(8192 * 2, &data);

    let option = blocks.next_block()?;
    assert!(option.is_some());
    let block = option.unwrap();
    assert_eq!(block.len(), 16074);

    let option = blocks.next_block()?;
    assert!(option.is_some());
    let block = option.unwrap();
    assert_eq!(block.len(), 16074);

    let option = blocks.next_block()?;
    assert!(option.is_some());
    let block = option.unwrap();
    assert_eq!(block.len(), 2052);

    let option = blocks.next_block()?;
    assert!(option.is_none());

    Ok(())
}

#[test]
fn fastq_offset() -> Result<(), Error> {
    let data = generate(150, 10);

    let mut blocks = File2Block::with_offset(1000, &data);

    let option = blocks.next_block()?;
    assert!(option.is_some());
    let block = option.unwrap();
    assert_eq!(block.len(), 2420);

    let option = blocks.next_block()?;
    assert!(option.is_none());

    Ok(())
}

#[test]
fn fastq_blocksize_offset() -> Result<(), Error> {
    let data = generate(150, 100);

    let mut blocks = File2Block::with_blocksize_offset(4096, 24014, &data);

    let option = blocks.next_block()?;
    assert!(option.is_some());
    let block = option.unwrap();
    assert_eq!(block.len(), 4030);

    let option = blocks.next_block()?;
    assert!(option.is_some());
    let block = option.unwrap();
    assert_eq!(block.len(), 3762);

    let option = blocks.next_block()?;
    assert!(option.is_some());
    let block = option.unwrap();
    assert_eq!(block.len(), 2394);

    let option = blocks.next_block()?;
    assert!(option.is_none());

    Ok(())
}

#[test]
fn fastq_records() -> Result<(), Error> {
    let data = generate(50, 10);

    let mut comments = Vec::new();
    let mut seqs = Vec::new();
    let mut pluss = Vec::new();
    let mut quals = Vec::new();

    let mut blocks = File2Block::new(&data);

    while let Ok(Some(block)) = blocks.next_block() {
        let mut reader = Block2Record::new(block);

        while let Ok(Some(record)) = reader.next_record() {
            comments.push(String::from_utf8(record.comment().to_vec()).unwrap());
            seqs.push(String::from_utf8(record.sequence().to_vec()).unwrap());
            pluss.push(String::from_utf8(record.plus().to_vec()).unwrap());
            quals.push(String::from_utf8(record.quality().to_vec()).unwrap());
        }
    }

    assert_eq!(
        comments,
        vec![
            "@GSWNPZYBHL atbbutlfemxuzgaghmwn".to_string(),
            "@LHABRFOIPY kuougqcoherrilpylxga".to_string(),
            "@PHYALDFVGY kzhdadxmhhvhzlvxulto".to_string(),
            "@UWWIFBAZNV hmqfbhzkizjnwzyvreoi".to_string(),
            "@ETFPQPBCGR uiwejacxekdfeoxhehyv".to_string(),
            "@OXRTYXGRDF nagvxtzlfvryzktzbvur".to_string(),
            "@WWMYBRMIVZ utdjngxdvdwshbpjuvvr".to_string(),
            "@JIGLPJJGED cphroskdsgmlwqixchga".to_string(),
            "@DEPZJRDOQP mdadqdzktocmqeqfubqc".to_string(),
            "@DKYULMZDLL qgqrqlfpzyvfawnwhibf".to_string(),
        ]
    );
    assert_eq!(
        seqs,
        vec![
            "gccAcggtAatGcTtgtaCgcAGgAtaTcgAAtTaTaGaTggttGCtCat".to_string(),
            "ActTgCGAcaAgaAAtaTCCcAgagggaCcttCcGcTTGcgAACcTtCtt".to_string(),
            "GCatAGGACAAaacTaTTagagGtatAGCcTatTtaaaaCGgcttGGTtg".to_string(),
            "CcCGtCtATgTTgTATcaTTCGaCCttcAaGCGCAatgaTGAtaatcaCt".to_string(),
            "caacCATAtGtGgtAtacAagtTGgAtgcGtTCtctTgctTtcGggATtc".to_string(),
            "AttaTtGgCACgCcgcCgATtcGCaTatTGGGCTacgtgACCGttTCAtt".to_string(),
            "cTGAAccCaaAcacagCATCTaTCgGcgcaGCaCaTATTacCGaTtgttC".to_string(),
            "CatTagaCtTTtccCCcAgagtctAGCCtCTgATTtTGCcGcGgCgTcGc".to_string(),
            "gGtAGgATcAaGactACcGCAaatGtTgCtaccTaCGCgGGaacgaCcAt".to_string(),
            "TCatCGgcAgaaagtTACacgcggaCcTAccaaGgGCAAGtGcccCgaGc".to_string(),
        ]
    );
    assert_eq!(
        pluss,
        vec![
            "+Wognt".to_string(),
            "+gGXi[".to_string(),
            "+T_IlS".to_string(),
            "+eGSa[".to_string(),
            "+YcBuG".to_string(),
            "+P_hBj".to_string(),
            "+jXNUP".to_string(),
            "+R`mig".to_string(),
            "+SQrSl".to_string(),
            "+NS^fl".to_string(),
        ]
    );
    assert_eq!(
        quals,
        vec![
            "/&411+!)AF,E;7.8.3GF2%\"%:4%#<399BE%$8900(08#,.;&2*".to_string(),
            ">B4-?CG@!GI!(?\"1'%))7&08<27F?3AA$E(/@A#FBBF<')G+%2".to_string(),
            "?\"))&?,%6;GG@D-.4G5+%$8H>&%@72B;''I:>+.*\"G.$8E&./=".to_string(),
            "!20/(B?(5\"/FC.D7*-I,%#G%;4\"7->$D@6=,C2\"')7G0FA-+I'".to_string(),
            "9?A)>5,>E6G9<E+4@)D+\")9@>;B3#.FG;:.#21\"I378/0G=377".to_string(),
            "17?)A$AA#C\"DI%H3F/9;'H1G93#'+4<AF/$*B,52-@!C=\"G<63".to_string(),
            "8,%$'\"6.>:#-'G1BH11)&97>HI0D#(96H.0D0G1'(FDG::-;4\"".to_string(),
            "7C\"&C?\"=A46?D9I1=<1345'/-;%F6363*70@$1;:80>497,@1>".to_string(),
            "$.G-\"4?(-H&%,7<>;EE4F%00#5H2B45;2*/=I:;=36H5$%C(08".to_string(),
            "4C+*#).<?3?1?3.??.=E:&*--;G2.?AIC('D$81H@5A;=$*D<3".to_string(),
        ]
    );

    Ok(())
}

#[test]
fn quality_is_shit() -> Result<(), Error> {
    let data = b"@1\nAA\n+1\n!!\n@2\nTT\n+2\n!!";
    assert_eq!(File2Block::correct_block_size(data)?, 12);

    let data = b"@1\nAA\n+1\n!!\n@2\nTT\n+2\n+!\n@3";
    assert_eq!(File2Block::correct_block_size(data)?, 24);

    let data = b"@1\nAA\n+1\n!!\n@2\nTT\n+2\n@!";
    assert_eq!(File2Block::correct_block_size(data)?, 12);

    Ok(())
}

#[test]
fn not_a_fastq() -> Result<(), Error> {
    let mut data = b"@0
TTAGATTATAGTACGG
ATTATAT
+1
AGTTATCGTGTACCTC
+1
+CW?:KL~15\\E|MN
GTCCCTCAATCCG
+2
"
    .to_vec();

    let mut blocks = File2Block::with_blocksize(82, &data);

    println!("{:?} {}", String::from_utf8(data.clone()), data.len());
    let result = blocks.next_block();
    println!("{:?}", result);
    assert!(result.is_err());

    data.extend(
        b"+FAILLED FILE
+3
+TTGGGCATGAGGTTCA
@3ueauie
+~vGLKg+n!*iJ\\K
@iuiea
",
    );

    let mut blocks = File2Block::with_blocksize(82, &data);

    assert!(blocks.next_block().is_err());

    let mut blocks = File2Block::with_blocksize(82, &data);
    assert!(matches!(blocks.next_block(), Err(Error::NotAFastqFile)));
    assert!(matches!(blocks.next_block(), Err(Error::NotAFastqFile)));

    Ok(())
}

#[test]
fn fastq_fields_keep_their_sigils() {
    let data = b"@id one\nACGT\n+id one\n!!!!\n";
    let mut reader = Block2Record::new(Block::new(0, data));

    let record = reader.next_record().unwrap().unwrap();
    assert_eq!(record.comment(), b"@id one");
    assert_eq!(record.sequence(), b"ACGT");
    assert_eq!(record.plus(), b"+id one");
    assert_eq!(record.quality(), b"!!!!");
    assert!(matches!(reader.next_record(), Ok(None)));
}

#[test]
fn fastq_finder_plain_boundary() {
    // The line before the `@` line does not start with `+`.
    assert_eq!(fastq(b"@1\nAA\n+\n!!\n@2\nTT"), Ok(11));
    assert_eq!(fastq(b"\n!!\n@2"), Ok(4));
    // The `@` line is reached at the fifth probe.
    assert_eq!(fastq(b"\n!!\n@2\nTT\n+\n!!\n"), Ok(4));
    // One line more, and it is out of reach.
    assert_eq!(fastq(b"\n!!\n@2\nTT\n+\n!!\n\n"), Err(Error::NotAFastqFile));
}

#[test]
fn fastq_finder_quality_starts_with_plus() {
    // The line before starts with `+`, and so does the one before that:
    // a quality line under a separator.
    assert_eq!(fastq(b"@1\nAA\n+\n+!\n@2\nTT"), Ok(11));
}

#[test]
fn fastq_finder_quality_starts_with_at() {
    // The `@` line follows a separator that follows a sequence: it is a
    // quality line, and the record opens three lines before it.
    assert_eq!(fastq(b"!!\n@1\nAA\n+\n@!\n"), Ok(3));
    assert_eq!(fastq(b"!!\n@1\nAA\n+\n@!"), Ok(3));
}

#[test]
fn fastq_finder_not_a_fastq() {
    // Behind the separator and the sequence no `@` line is found.
    assert_eq!(fastq(b"!!\nA1\nAA\n+\n@!\n"), Err(Error::NotAFastqFile));
    // No line starts with `@` within five probes.
    assert_eq!(fastq(b"\n@1\nA\nB\nC\nD\nE\n"), Err(Error::NotAFastqFile));
    assert_eq!(fastq(b">a\nAC\n>b\nGT\n>c\nAA\n"), Err(Error::NotAFastqFile));
}

#[test]
fn fastq_finder_no_newline() {
    assert_eq!(fastq(b""), Err(Error::NoNewLineInBlock));
    assert_eq!(fastq(b"@1"), Err(Error::NoNewLineInBlock));
    // Fewer than five newlines and no `@` line.
    assert_eq!(fastq(b"AA\n+\n!!\n"), Err(Error::NoNewLineInBlock));
    // An `@` line with no newline before the line in front of it.
    assert_eq!(fastq(b"!!\n@1\n"), Err(Error::NoNewLineInBlock));
    // The line in front starts with `+`, and no newline lies before it.
    assert_eq!(fastq(b"+\n@!\n"), Err(Error::NoNewLineInBlock));
    // The separator is found, the line before it has no newline in front.
    assert_eq!(fastq(b"AA\n+\n@!\n"), Err(Error::NoNewLineInBlock));
    // The sequence is found too, and no newline lies before it.
    assert_eq!(fastq(b"1\nAA\n+\n@!\n"), Err(Error::NoNewLineInBlock));
}

#[test]
fn fastq_correct_block_size_is_the_finder() {
    let data = generate(50, 10);
    for end in 0..data.len() {
        assert_eq!(File2Block::correct_block_size(&data[..end]), fastq(&data[..end]));
    }
}

#[test]
fn fastq_round_trip() {
    let data = generate(150, 100);

    for blocksize in [343u64, 400, 1000, 4096, 8192, 34200, 100000] {
        let mut producer = File2Block::with_blocksize(blocksize, &data);
        let mut bytes = Vec::new();
        let mut offset = 0;
        while let Some(block) = producer.next_block().unwrap() {
            assert_eq!(block.offset(), offset);
            assert!(!block.is_empty());
            assert!(block.len() <= blocksize);
            offset += block.len();
            bytes.extend_from_slice(block.data());
        }
        assert_eq!(bytes, data);
    }
}

#[test]
fn fastq_cut_is_stable() {
    let data = generate(150, 100);

    for blocksize in [343u64, 400, 1000, 4096, 8192] {
        let mut producer = File2Block::with_blocksize(blocksize, &data);
        while let Some(block) = producer.next_block().unwrap() {
            let start = block.offset() as usize;
            let end = start + block.len() as usize;
            if end < data.len() {
                // The block and the byte behind it are cut where the block ends.
                assert_eq!(fastq(&data[start..end + 1]), Ok(block.len()));
            }
        }
    }
}

#[test]
fn fastq_cut_is_not_stable_without_lines_before() {
    // The cut falls behind the first line, and nothing lies before that line
    // to tell what the `@` behind it is.
    let data = b"\n@2\nTT\n+2\n@!";
    assert_eq!(fastq(data), Ok(1));
    assert_eq!(fastq(&data[..2]), Err(Error::NoNewLineInBlock));
}

#[test]
fn fastq_decoding_leaves_nothing() {
    let data = generate(150, 100);

    let mut producer = File2Block::with_blocksize(1000, &data);
    let mut records = 0;
    while let Some(block) = producer.next_block().unwrap() {
        let mut reader = Block2Record::new(block);
        let mut bytes = 0;
        while let Some(record) = reader.next_record().unwrap() {
            bytes += record.comment().len() + 1;
            bytes += record.sequence().len() + 1;
            bytes += record.plus().len() + 1;
            bytes += record.quality().len() + 1;
            records += 1;
        }
        assert_eq!(bytes as u64, block.len());
        assert!(matches!(reader.next_record(), Ok(None)));
    }
    assert_eq!(records, 100);
}

#[test]
fn fastq_partial_record() {
    let mut reader = Block2Record::new(Block::new(0, b"@1\nAA\n+\n!!"));
    assert!(matches!(reader.next_record(), Err(Error::PartialRecord)));
    assert!(matches!(reader.next_record(), Err(Error::PartialRecord)));

    // The block ends behind the separator: the decoder is at the end.
    let mut reader = Block2Record::new(Block::new(0, b"@1\nAA\n+\n"));
    assert!(matches!(reader.next_record(), Err(Error::PartialRecord)));
    assert!(matches!(reader.next_record(), Ok(None)));

    let mut reader = Block2Record::new(Block::new(0, b"@1"));
    assert!(matches!(reader.next_record(), Err(Error::PartialRecord)));
}

#[test]
fn fastq_record_default_is_empty() {
    let record = Record::default();
    assert_eq!(record.comment(), b"");
    assert_eq!(record.sequence(), b"");
    assert_eq!(record.plus(), b"");
    assert_eq!(record.quality(), b"");
}

#[test]
fn fastq_cut_is_stable_with_sigils_in_quality() {
    // Quality lines that open with `@`, with `+` or with another byte, in turn.
    let mut data = Vec::new();
    for i in 0..60 {
        data.extend_from_slice(format!("@read{i}\nACGTACGT\n+\n").as_bytes());
        data.push([b'@', b'+', b'!'][i % 3]);
        data.extend_from_slice(b"+@+@+@+\n");
    }

    let mut blocks = 0;
    for blocksize in 30u64..300 {
        let mut producer = File2Block::with_blocksize(blocksize, &data);
        while let Ok(Some(block)) = producer.next_block() {
            let start = block.offset() as usize;
            let end = start + block.len() as usize;
            // Every block is made of whole records.
            let mut reader = Block2Record::new(block);
            while let Some(record) = reader.next_record().unwrap() {
                assert!(record.comment().starts_with(b"@read"));
                assert_eq!(record.sequence(), b"ACGTACGT");
                assert_eq!(record.plus(), b"+");
                assert!(record.quality().ends_with(b"+@+@+@+"));
            }
            if end < data.len() {
                assert_eq!(fastq(&data[start..end + 1]), Ok(block.len()));
                blocks += 1;
            }
        }
    }
    assert!(blocks > 1000);
}

/// A well-formed FASTQ text with sequences of several lengths, some empty,
/// whose quality lines open with `@`, with `+` or with another byte.
fn uneven_fastq(number: usize) -> Vec<u8> {
    let mut data = Vec::new();
    for i in 0..number {
        let bases = 3 * (i % 4);
        data.extend_from_slice(format!("@read{i}\n").as_bytes());
        data.extend_from_slice(&b"ACGTACGTACGT"[..bases]);
        data.extend_from_slice(b"\n+\n");
        let quality = [b"@+@+@+@+@+@+", b"+@+@+@+@+@+@", b"!@+!@+!@+!@+"][i % 3];
        data.extend_from_slice(&quality[..bases]);
        data.push(b'\n');
    }
    data
}

/// The offsets at which the records of a well-formed text start, and its
/// length.
fn record_starts(data: &[u8]) -> Vec<usize> {
    let mut starts = vec![0];
    let mut lines = 0;
    for (at, byte) in data.iter().enumerate() {
        if *byte == b'\n' {
            lines += 1;
            if lines % 4 == 0 {
                starts.push(at + 1);
            }
        }
    }
    starts
}

#[test]
fn fastq_finder_cuts_between_records() {
    let data = uneven_fastq(40);
    let starts = record_starts(&data);

    let mut cuts = 0;
    for pair in starts.windows(2) {
        let (cursor, next) = (pair[0], pair[1]);
        // Every window that holds the record at `cursor` and one byte more.
        for end in next + 1..=data.len().min(cursor + 120) {
            let len = fastq(&data[cursor..end]).unwrap() as usize;
            assert!(starts.contains(&(cursor + len)));
            assert_eq!(fastq(&data[cursor..cursor + len + 1]), Ok(len as u64));
            cuts += 1;
        }
        // The window that holds the record and no more ends too early.
        assert_eq!(fastq(&data[cursor..next]), Err(Error::NoNewLineInBlock));
    }
    assert!(cuts > 1000);
}

#[test]
fn fastq_scan_never_fails_where_records_fit() {
    let data = uneven_fastq(40);
    let starts = record_starts(&data);
    let longest = starts.windows(2).map(|pair| pair[1] - pair[0]).max().unwrap() as u64;

    for blocksize in longest + 1..longest + 200 {
        let mut producer = File2Block::with_blocksize(blocksize, &data);
        let mut bytes = Vec::new();
        while let Some(block) = producer.next_block().unwrap() {
            assert!(starts.contains(&(block.offset() as usize)));
            bytes.extend_from_slice(block.data());
        }
        assert_eq!(bytes, data);
    }

    // A window as long as the longest record is too short.
    let mut failed = false;
    let mut producer = File2Block::with_blocksize(longest, &data);
    loop {
        match producer.next_block() {
            Ok(Some(_)) => {}
            Ok(None) => break,
            Err(e) => {
                assert_eq!(e, Error::NoNewLineInBlock);
                failed = true;
                break;
            }
        }
    }
    assert!(failed);
}
