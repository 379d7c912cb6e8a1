use backup_core::tape::{
    BlockReadError, BlockedReader, BlockedWriter, EmulateTapeReader, EmulateTapeWriter, TapeError,
    BLOCK_PAYLOAD_SIZE, BLOCK_SIZE,
};

fn random_data(len: usize, seed: u64) -> Vec<u8> {
    let mut state = seed | 1;
    let mut data = Vec::with_capacity(len);
    for _ in 0..len {
        state ^= state << 13;
        state ^= state >> 7;
        state ^= state << 17;
        data.push((state >> 24) as u8);
    }
    data
}

fn framed(data: &[u8], max_size: usize, finish: Option<bool>) -> Vec<u8> {
    let writer = EmulateTapeWriter::new(max_size);
    let mut writer = BlockedWriter::new(writer);
    writer.write_all(&data.to_vec()).unwrap();
    if let Some(incomplete) = finish {
        writer.finish(incomplete).unwrap();
    }
    writer.into_inner().into_inner()
}

fn write_and_verify(data: &[u8]) {
    let tape_data = framed(data, 1024 * 1024 * 10, Some(false));

    assert_eq!(
        tape_data.len(),
        ((data.len() + BLOCK_SIZE) / BLOCK_SIZE) * BLOCK_SIZE
    );

    let reader = EmulateTapeReader::new(tape_data);
    let mut reader = BlockedReader::open(reader).unwrap();

    let mut read_data = Vec::with_capacity(BLOCK_SIZE);
    reader.read_to_end(&mut read_data).unwrap();

    assert_eq!(data.len(), read_data.len());
    assert_eq!(data, &read_data[..]);
}

#[test]
fn empty_stream() {
    write_and_verify(b"")
}

#[test]
fn small_data() {
    write_and_verify(b"ABC")
}

#[test]
fn large_data() {
    let data = random_data(1024 * 1024 * 5, 0x1234_5678);
    write_and_verify(&data)
}

#[test]
fn no_data() {
    let tape_data = Vec::new();
    let reader = EmulateTapeReader::new(tape_data);
    match BlockedReader::open(reader) {
        Err(BlockReadError::EndOfFile) => { /* OK */ }
        _ => panic!("expected EOF"),
    }
}

#[test]
fn no_end_marker() {
    let data = random_data(BLOCK_SIZE, 42);
    // write at least one block, but do not call finish
    let tape_data = framed(&data, 1024 * 1024, None);

    let reader = EmulateTapeReader::new(tape_data);
    let mut reader = BlockedReader::open(reader).unwrap();

    let mut data = Vec::with_capacity(BLOCK_SIZE);
    assert!(reader.read_to_end(&mut data).is_err());
}

#[test]
fn small_read_buffer() {
    let tape_data = framed(b"ABC", 1024 * 1024, Some(false));

    let reader = EmulateTapeReader::new(tape_data);
    let mut reader = BlockedReader::open(reader).unwrap();

    let mut buf = vec![0u8; 1];
    assert_eq!(reader.read(&mut buf).unwrap(), 1, "wrong byte count");
    assert_eq!(&buf, b"A");
    assert_eq!(reader.read(&mut buf).unwrap(), 1, "wrong byte count");
    assert_eq!(&buf, b"B");
    assert_eq!(reader.read(&mut buf).unwrap(), 1, "wrong byte count");
    assert_eq!(&buf, b"C");
    assert_eq!(reader.read(&mut buf).unwrap(), 0, "wrong byte count");
    assert_eq!(reader.read(&mut buf).unwrap(), 0, "wrong byte count");
}

#[test]
fn truncated_stream_reports_data_then_error() {
    let data = random_data(BLOCK_SIZE, 7);
    let tape_data = framed(&data, 1024 * 1024, None);
    assert_eq!(tape_data.len(), BLOCK_SIZE);
    let mut reader = BlockedReader::open(EmulateTapeReader::new(tape_data)).unwrap();
    let mut out = Vec::new();
    assert_eq!(
        reader.read_to_end(&mut out),
        Err(TapeError::TruncatedStream)
    );
    assert_eq!(&out[..], &data[..BLOCK_PAYLOAD_SIZE]);
    let mut buf = vec![0u8; 4];
    assert_eq!(reader.read(&mut buf), Err(TapeError::Poisoned));
}

#[test]
fn skip_data_ignores_missing_end_marker() {
    let data = random_data(BLOCK_SIZE, 9);
    let tape_data = framed(&data, 1024 * 1024, None);
    let mut reader = BlockedReader::open(EmulateTapeReader::new(tape_data)).unwrap();
    assert_eq!(reader.skip_data(), Ok(BLOCK_PAYLOAD_SIZE));
    assert_eq!(reader.has_end_marker(), Ok(false));
    assert_eq!(reader.is_incomplete(), Err(TapeError::NoEndMarker));
}

#[test]
fn incomplete_flag_round_trip() {
    let tape_data = framed(b"xyz", 1024 * 1024, Some(true));
    let mut reader = BlockedReader::open(EmulateTapeReader::new(tape_data)).unwrap();
    assert_eq!(reader.has_end_marker(), Ok(true));
    assert_eq!(reader.is_incomplete(), Ok(true));
    let mut out = Vec::new();
    assert_eq!(reader.read_to_end(&mut out), Ok(3));
    assert_eq!(&out, b"xyz");
}

#[test]
fn not_at_end_before_last_block() {
    let data = random_data(BLOCK_PAYLOAD_SIZE + 10, 11);
    let tape_data = framed(&data, 1024 * 1024, Some(false));
    assert_eq!(tape_data.len(), 2 * BLOCK_SIZE);
    let reader = BlockedReader::open(EmulateTapeReader::new(tape_data)).unwrap();
    assert_eq!(reader.has_end_marker(), Err(TapeError::NotAtEnd));
    assert_eq!(reader.is_incomplete(), Err(TapeError::NotAtEnd));
}

#[test]
fn exact_payload_multiple_uses_no_extra_block() {
    let data = random_data(2 * BLOCK_PAYLOAD_SIZE, 13);
    let tape_data = framed(&data, 1024 * 1024, Some(false));
    assert_eq!(tape_data.len(), 2 * BLOCK_SIZE);
    let mut reader = BlockedReader::open(EmulateTapeReader::new(tape_data)).unwrap();
    let mut out = Vec::new();
    assert_eq!(reader.read_to_end(&mut out), Ok(data.len()));
    assert_eq!(out, data);
}

#[test]
fn wrong_magic_is_not_our_stream() {
    let mut tape_data = framed(b"ABC", 1024 * 1024, Some(false));
    tape_data[0] ^= 0xff;
    match BlockedReader::open(EmulateTapeReader::new(tape_data)) {
        Err(BlockReadError::Error(TapeError::NotOurStream)) => {}
        _ => panic!("expected a magic mismatch"),
    }
}

#[test]
fn header_layout_and_zero_padding() {
    let tape_data = framed(b"ABC", 1024 * 1024, Some(false));
    assert_eq!(&tape_data[0..8], &[220u8, 189, 175, 202, 235, 160, 199, 40]);
    assert_eq!(tape_data[8], 1);
    assert_eq!(&tape_data[10..14], &[0u8, 0, 0, 0]);
    assert_eq!(&tape_data[14..16], &[3u8, 0]);
    assert_eq!(&tape_data[16..19], b"ABC");
    assert!(tape_data[19..].iter().all(|b| *b == 0));
}

#[test]
fn swapped_blocks_are_out_of_order() {
    let data = random_data(3 * BLOCK_PAYLOAD_SIZE, 17);
    let mut tape_data = framed(&data, 1024 * 1024, Some(false));
    let second: Vec<u8> = tape_data[BLOCK_SIZE..2 * BLOCK_SIZE].to_vec();
    let third: Vec<u8> = tape_data[2 * BLOCK_SIZE..3 * BLOCK_SIZE].to_vec();
    tape_data[BLOCK_SIZE..2 * BLOCK_SIZE].copy_from_slice(&third);
    tape_data[2 * BLOCK_SIZE..3 * BLOCK_SIZE].copy_from_slice(&second);
    let mut reader = BlockedReader::open(EmulateTapeReader::new(tape_data)).unwrap();
    let mut out = Vec::new();
    assert_eq!(reader.read_to_end(&mut out), Err(TapeError::OutOfOrder));
    assert_eq!(&out[..], &data[..BLOCK_PAYLOAD_SIZE]);
}

#[test]
fn data_after_end_block_is_trailing() {
    let mut tape_data = framed(b"ABC", 1024 * 1024, Some(false));
    tape_data.extend_from_slice(&[0u8; 600]);
    match BlockedReader::open(EmulateTapeReader::new(tape_data)) {
        Err(BlockReadError::Error(TapeError::TrailingData)) => {}
        _ => panic!("expected trailing data"),
    }
}

#[test]
fn short_block_is_malformed() {
    let mut tape_data = framed(b"ABC", 1024 * 1024, Some(false));
    tape_data.truncate(100);
    match BlockedReader::open(EmulateTapeReader::new(tape_data)) {
        Err(BlockReadError::Error(TapeError::Malformed)) => {}
        _ => panic!("expected a malformed block"),
    }
}

#[test]
fn full_medium_rejects_block() {
    let writer = EmulateTapeWriter::new(BLOCK_SIZE - 1);
    let mut writer = BlockedWriter::new(writer);
    writer.write_all(&b"ABC".to_vec()).unwrap();
    assert_eq!(writer.finish(false), Err(TapeError::EndOfMedia));
    assert!(writer.into_inner().into_inner().is_empty());
}

#[test]
fn open_reports_end_block_flags() {
    let tape_data = framed(b"ABC", 1024 * 1024, Some(true));
    let mut reader = BlockedReader::open(EmulateTapeReader::new(tape_data)).unwrap();
    assert_eq!(reader.has_end_marker(), Ok(true));
    assert_eq!(reader.is_incomplete(), Ok(true));
    let mut buf = vec![9u8; 5];
    assert_eq!(reader.read(&mut buf), Ok(3));
    assert_eq!(&buf, &[b'A', b'B', b'C', 9, 9]);
    assert_eq!(reader.read(&mut buf), Ok(0));
}

#[test]
fn skip_data_then_read_returns_nothing() {
    let data = random_data(BLOCK_PAYLOAD_SIZE + 100, 21);
    let tape_data = framed(&data, 1024 * 1024, Some(false));
    let mut reader = BlockedReader::open(EmulateTapeReader::new(tape_data)).unwrap();
    let mut buf = vec![0u8; 10];
    assert_eq!(reader.read(&mut buf), Ok(10));
    assert_eq!(reader.skip_data(), Ok(data.len() - 10));
    assert_eq!(reader.has_end_marker(), Ok(true));
    assert_eq!(reader.is_incomplete(), Ok(false));
    assert_eq!(reader.read(&mut buf), Ok(0));
}

#[test]
fn buffered_data_is_not_written_before_finish() {
    let writer = EmulateTapeWriter::new(1024 * 1024);
    let mut writer = BlockedWriter::new(writer);
    writer.write_all(&vec![1u8; BLOCK_PAYLOAD_SIZE]).unwrap();
    writer.write_all(&vec![2u8; 1]).unwrap();
    let tape_data = writer.into_inner().into_inner();
    assert_eq!(tape_data.len(), BLOCK_SIZE);
    let mut reader = BlockedReader::open(EmulateTapeReader::new(tape_data)).unwrap();
    let mut out = Vec::new();
    assert_eq!(reader.read_to_end(&mut out), Err(TapeError::TruncatedStream));
    assert_eq!(out, vec![1u8; BLOCK_PAYLOAD_SIZE]);
}
