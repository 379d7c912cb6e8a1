//! Framed block streams on sequential media.
//!
//! A stream is a sequence of fixed-size blocks. Each block starts with a
//! header (magic, flags, sequence number, payload size) followed by the
//! payload, padded with zeros. The last block carries the end-of-stream flag
//! and is followed by a file mark.

use vstd::prelude::*;

verus! {

/// Size of one block on the medium.
pub const BLOCK_SIZE: usize = 65536;

/// Size of the block header.
pub const BLOCK_HEADER_SIZE: usize = 16;

/// Payload bytes that fit into one block.
pub const BLOCK_PAYLOAD_SIZE: usize = 65520;

/// Errors of the framed stream layer.
#[derive(Clone, Copy, Debug, PartialEq, Eq, Structural)]
pub enum TapeError {
    /// A block with a foreign magic number.
    NotOurStream,
    /// A block whose sequence number is not the expected one.
    OutOfOrder,
    /// A block of wrong length, with a payload size out of range, or empty without end flag.
    Malformed,
    /// The medium ended before the end-of-stream block.
    TruncatedStream,
    /// More data follows the end-of-stream block.
    TrailingData,
    /// The physical end of the tape was hit.
    UnexpectedEndOfTape,
    /// A read after an earlier fatal error.
    Poisoned,
    /// The medium is full.
    EndOfMedia,
    /// The stream has more blocks than sequence numbers.
    SequenceOverflow,
    /// The end of the stream was not reached yet.
    NotAtEnd,
    /// The stream ended without end-of-stream block.
    NoEndMarker,
}

/// Outcome of reading one physical block.
#[derive(Clone, Copy, Debug, PartialEq, Eq, Structural)]
pub enum BlockReadError {
    /// A file mark was read.
    EndOfFile,
    /// The physical end of data was read.
    EndOfStream,
    /// Any other failure.
    Error(TapeError),
}

pub open spec fn block_magic() -> Seq<u8> {
    seq![220u8, 189u8, 175u8, 202u8, 235u8, 160u8, 199u8, 40u8]
}

pub open spec fn le16(n: nat) -> Seq<u8> {
    seq![(n % 256) as u8, ((n / 256) % 256) as u8]
}

pub open spec fn le32(n: nat) -> Seq<u8> {
    seq![(n % 256) as u8, ((n / 256) % 256) as u8, ((n / 65536) % 256) as u8, ((n / 16777216) % 256) as u8]
}

/// Low flag byte: bit 0 marks the end of the stream, bit 1 an incomplete stream.
pub open spec fn flag_byte(end: bool, incomplete: bool) -> u8 {
    ((if end { 1int } else { 0int }) + (if incomplete { 2int } else { 0int })) as u8
}

pub open spec fn zeros(n: nat) -> Seq<u8> {
    Seq::new(n, |i: int| 0u8)
}

pub open spec fn frame_header(seq_nr: nat, end: bool, incomplete: bool, size: nat) -> Seq<u8> {
    block_magic() + seq![flag_byte(end, incomplete), 0u8] + le32(seq_nr) + le16(size)
}

/// The block that carries `payload` as block number `seq_nr`.
pub open spec fn frame(seq_nr: nat, end: bool, incomplete: bool, payload: Seq<u8>) -> Seq<u8> {
    frame_header(seq_nr, end, incomplete, payload.len()) + payload + zeros(
        (BLOCK_PAYLOAD_SIZE - payload.len()) as nat,
    )
}

pub open spec fn block_size_field(blk: Seq<u8>) -> usize {
    ((blk[14] as int) + 256 * (blk[15] as int)) as usize
}

pub open spec fn block_end_flag(blk: Seq<u8>) -> bool {
    blk[8] % 2 == 1
}

pub open spec fn block_incomplete_flag(blk: Seq<u8>) -> bool {
    (blk[8] / 2) % 2 == 1
}

/// Header check of a block read as number `seq_nr`: its payload size and end flag.
pub open spec fn check_block(blk: Seq<u8>, seq_nr: nat) -> Result<(usize, bool), TapeError> {
    if blk.subrange(0, 8) != block_magic() {
        Err(TapeError::NotOurStream)
    } else if !(seq_nr < 0x1_0000_0000 && blk.subrange(10, 14) == le32(seq_nr)) {
        Err(TapeError::OutOfOrder)
    } else if block_size_field(blk) > BLOCK_PAYLOAD_SIZE {
        Err(TapeError::Malformed)
    } else if block_size_field(blk) == 0 && !block_end_flag(blk) {
        Err(TapeError::Malformed)
    } else {
        Ok((block_size_field(blk), block_end_flag(blk)))
    }
}

pub open spec fn block_payload(blk: Seq<u8>, size: nat) -> Seq<u8> {
    blk.subrange(BLOCK_HEADER_SIZE as int, BLOCK_HEADER_SIZE + size)
}

/// What a reader delivers from the medium contents `src`, when the next block
/// is number `seq_nr`: the payload bytes, then the error that ends the stream, if any.
#[verifier::opaque]
pub open spec fn decode_from(src: Seq<u8>, seq_nr: nat) -> (Seq<u8>, Option<TapeError>)
    decreases src.len(),
{
    if src.len() == 0 {
        (Seq::empty(), Some(TapeError::TruncatedStream))
    } else if src.len() < BLOCK_SIZE {
        (Seq::empty(), Some(TapeError::Malformed))
    } else {
        let blk = src.subrange(0, BLOCK_SIZE as int);
        let rest = src.subrange(BLOCK_SIZE as int, src.len() as int);
        match check_block(blk, seq_nr) {
            Err(e) => (Seq::empty(), Some(e)),
            Ok((size, end)) => {
                if end {
                    if rest.len() == 0 {
                        (block_payload(blk, size as nat), None)
                    } else {
                        (Seq::empty(), Some(TapeError::TrailingData))
                    }
                } else {
                    let (d, e) = decode_from(rest, seq_nr + 1);
                    (block_payload(blk, size as nat) + d, e)
                }
            },
        }
    }
}

/// The incomplete flag of the end-of-stream block that a reader meets in
/// `src` when the next block is number `seq_nr`; false if it meets none.
#[verifier::opaque]
pub open spec fn stream_incomplete(src: Seq<u8>, seq_nr: nat) -> bool
    decreases src.len(),
{
    if src.len() < BLOCK_SIZE {
        false
    } else {
        let blk = src.subrange(0, BLOCK_SIZE as int);
        let rest = src.subrange(BLOCK_SIZE as int, src.len() as int);
        match check_block(blk, seq_nr) {
            Err(_) => false,
            Ok((_size, end)) => if end {
                block_incomplete_flag(blk)
            } else {
                stream_incomplete(rest, seq_nr + 1)
            },
        }
    }
}

/// Whether a reader can be opened on the medium contents `src`.
pub open spec fn open_outcome(src: Seq<u8>) -> Result<(), BlockReadError> {
    if src.len() == 0 {
        Err(BlockReadError::EndOfFile)
    } else if src.len() < BLOCK_SIZE {
        Err(BlockReadError::Error(TapeError::Malformed))
    } else {
        match check_block(src.subrange(0, BLOCK_SIZE as int), 0) {
            Err(e) => Err(BlockReadError::Error(e)),
            Ok((size, end)) => {
                if end && src.len() > BLOCK_SIZE {
                    Err(BlockReadError::Error(TapeError::TrailingData))
                } else {
                    Ok(())
                }
            },
        }
    }
}

/// The blocks that a writer produces for `data`, starting at block number `seq_nr`.
pub open spec fn encode_from(data: Seq<u8>, seq_nr: nat, incomplete: bool) -> Seq<u8>
    decreases data.len(),
{
    if data.len() <= BLOCK_PAYLOAD_SIZE {
        frame(seq_nr, true, incomplete, data)
    } else {
        frame(seq_nr, false, false, data.subrange(0, BLOCK_PAYLOAD_SIZE as int)) + encode_from(
            data.subrange(BLOCK_PAYLOAD_SIZE as int, data.len() as int),
            seq_nr + 1,
            incomplete,
        )
    }
}

/// The framed stream of `data`, as written to the medium.
pub open spec fn encode_stream(data: Seq<u8>, incomplete: bool) -> Seq<u8> {
    encode_from(data, 0, incomplete)
}

/// The full, non-final blocks that carry `data` (a whole number of payloads).
pub open spec fn full_frames(data: Seq<u8>, seq_nr: nat) -> Seq<u8>
    decreases data.len(),
{
    if data.len() < BLOCK_PAYLOAD_SIZE {
        Seq::empty()
    } else {
        frame(seq_nr, false, false, data.subrange(0, BLOCK_PAYLOAD_SIZE as int)) + full_frames(
            data.subrange(BLOCK_PAYLOAD_SIZE as int, data.len() as int),
            seq_nr + 1,
        )
    }
}


proof fn lemma_le16_value(n: nat)
    requires
        n < 65536,
    ensures
        (le16(n)[0] as int) + 256 * (le16(n)[1] as int) == n,
{
    assert((n % 256) + 256 * ((n / 256) % 256) == n) by (nonlinear_arith)
        requires
            n < 65536,
    ;
}

/// A block built by `frame` passes the header check as the same block number,
/// and gives back its payload and flags.
proof fn lemma_frame_checks(seq_nr: nat, end: bool, incomplete: bool, payload: Seq<u8>)
    requires
        seq_nr < 0x1_0000_0000,
        payload.len() <= BLOCK_PAYLOAD_SIZE,
        payload.len() > 0 || end,
    ensures
        frame(seq_nr, end, incomplete, payload).len() == BLOCK_SIZE,
        check_block(frame(seq_nr, end, incomplete, payload), seq_nr) == Ok::<(usize, bool), TapeError>(
            (payload.len() as usize, end),
        ),
        block_payload(frame(seq_nr, end, incomplete, payload), payload.len()) == payload,
        block_incomplete_flag(frame(seq_nr, end, incomplete, payload)) == incomplete,
{
    let f = frame(seq_nr, end, incomplete, payload);
    let h = frame_header(seq_nr, end, incomplete, payload.len());
    assert(h.len() == 16);
    assert(f.subrange(0, 8) =~= block_magic());
    assert(f.subrange(10, 14) =~= le32(seq_nr));
    assert(f[14] == le16(payload.len())[0]);
    assert(f[15] == le16(payload.len())[1]);
    lemma_le16_value(payload.len());
    assert(f[8] == flag_byte(end, incomplete));
    assert(block_payload(f, payload.len()) =~= payload);
}

proof fn lemma_decode_encode(data: Seq<u8>, seq_nr: nat, incomplete: bool)
    requires
        seq_nr < 0x1_0000_0000,
        seq_nr * 65520 + data.len() <= 0x1_0000_0000 * 65520,
    ensures
        encode_from(data, seq_nr, incomplete).len() % (BLOCK_SIZE as nat) == 0,
        encode_from(data, seq_nr, incomplete).len() >= BLOCK_SIZE,
        decode_from(encode_from(data, seq_nr, incomplete), seq_nr) == (data, None::<TapeError>),
        stream_incomplete(encode_from(data, seq_nr, incomplete), seq_nr) == incomplete,
    decreases data.len(),
{
    let enc = encode_from(data, seq_nr, incomplete);
    lemma_decode_step(enc, seq_nr);
    if data.len() <= BLOCK_PAYLOAD_SIZE {
        lemma_frame_checks(seq_nr, true, incomplete, data);
        assert(enc.subrange(0, BLOCK_SIZE as int) =~= enc);
        assert(enc.subrange(BLOCK_SIZE as int, enc.len() as int).len() == 0);
    } else {
        let head = data.subrange(0, BLOCK_PAYLOAD_SIZE as int);
        let tail = data.subrange(BLOCK_PAYLOAD_SIZE as int, data.len() as int);
        let f = frame(seq_nr, false, false, head);
        lemma_frame_checks(seq_nr, false, false, head);
        assert((seq_nr + 1) * 65520 + tail.len() <= 0x1_0000_0000 * 65520) by (nonlinear_arith)
            requires
                seq_nr * 65520 + data.len() <= 0x1_0000_0000 * 65520,
                tail.len() == data.len() - 65520,
        ;
        assert(seq_nr + 1 < 0x1_0000_0000) by (nonlinear_arith)
            requires
                seq_nr * 65520 + data.len() <= 0x1_0000_0000 * 65520,
                data.len() > 65520,
        ;
        lemma_decode_encode(tail, seq_nr + 1, incomplete);
        let rest = encode_from(tail, seq_nr + 1, incomplete);
        assert(enc == f + rest);
        assert(enc.subrange(0, BLOCK_SIZE as int) =~= f);
        assert(enc.subrange(BLOCK_SIZE as int, enc.len() as int) =~= rest);
        assert(head + tail =~= data);
    }
}

/// Reading back the framed stream of any byte string gives that byte string,
/// and the stream is a whole number of blocks.
pub proof fn lemma_tape_round_trip(data: Seq<u8>, incomplete: bool)
    requires
        data.len() <= 0x1_0000_0000 * 65520,
    ensures
        encode_stream(data, incomplete).len() % (BLOCK_SIZE as nat) == 0,
        open_outcome(encode_stream(data, incomplete)) is Ok,
        decode_from(encode_stream(data, incomplete), 0) == (data, None::<TapeError>),
        stream_incomplete(encode_stream(data, incomplete), 0) == incomplete,
{
    lemma_decode_encode(data, 0, incomplete);
    let enc = encode_stream(data, incomplete);
    if data.len() <= BLOCK_PAYLOAD_SIZE {
        lemma_frame_checks(0, true, incomplete, data);
        assert(enc.subrange(0, BLOCK_SIZE as int) =~= enc);
    } else {
        let head = data.subrange(0, BLOCK_PAYLOAD_SIZE as int);
        lemma_frame_checks(0, false, false, head);
        let f = frame(0, false, false, head);
        assert(enc.subrange(0, BLOCK_SIZE as int) =~= f);
    }
}

proof fn lemma_decode_step(src: Seq<u8>, seq_nr: nat)
    ensures
        src.len() < BLOCK_SIZE ==> !stream_incomplete(src, seq_nr),
        src.len() >= BLOCK_SIZE ==> ({
            let blk = src.subrange(0, BLOCK_SIZE as int);
            let rest = src.subrange(BLOCK_SIZE as int, src.len() as int);
            match check_block(blk, seq_nr) {
                Err(_) => !stream_incomplete(src, seq_nr),
                Ok((_size, end)) => stream_incomplete(src, seq_nr) == if end {
                    block_incomplete_flag(blk)
                } else {
                    stream_incomplete(rest, seq_nr + 1)
                },
            }
        }),
        src.len() == 0 ==> decode_from(src, seq_nr) == (Seq::<u8>::empty(), Some(TapeError::TruncatedStream)),
        0 < src.len() < BLOCK_SIZE ==> decode_from(src, seq_nr) == (Seq::<u8>::empty(), Some(TapeError::Malformed)),
        src.len() >= BLOCK_SIZE ==> ({
            let blk = src.subrange(0, BLOCK_SIZE as int);
            let rest = src.subrange(BLOCK_SIZE as int, src.len() as int);
            match check_block(blk, seq_nr) {
                Err(e) => decode_from(src, seq_nr) == (Seq::<u8>::empty(), Some(e)),
                Ok((size, end)) => if end {
                    decode_from(src, seq_nr) == if rest.len() == 0 {
                        (block_payload(blk, size as nat), None::<TapeError>)
                    } else {
                        (Seq::<u8>::empty(), Some(TapeError::TrailingData))
                    }
                } else {
                    decode_from(src, seq_nr) == (
                        block_payload(blk, size as nat) + decode_from(rest, seq_nr + 1).0,
                        decode_from(rest, seq_nr + 1).1,
                    )
                },
            }
        }),
{
    reveal(decode_from);
    reveal(stream_incomplete);
}

proof fn lemma_decode_len(src: Seq<u8>, seq_nr: nat)
    ensures
        decode_from(src, seq_nr).0.len() <= src.len(),
    decreases src.len(),
{
    lemma_decode_step(src, seq_nr);
    if src.len() >= BLOCK_SIZE {
        lemma_decode_len(src.subrange(BLOCK_SIZE as int, src.len() as int), seq_nr + 1);
    }
}

proof fn lemma_decode_full_frames(f: Seq<u8>, k: nat, seq_nr: nat)
    requires
        f.len() == k * 65520,
        seq_nr + k <= 0x1_0000_0000,
    ensures
        full_frames(f, seq_nr).len() == k * 65536,
        decode_from(full_frames(f, seq_nr), seq_nr) == (f, Some(TapeError::TruncatedStream)),
    decreases k,
{
    let ff = full_frames(f, seq_nr);
    lemma_decode_step(ff, seq_nr);
    if k == 0 {
        assert(f.len() == 0);
        assert(ff.len() == 0);
        assert(f =~= Seq::<u8>::empty());
    } else {
        let head = f.subrange(0, BLOCK_PAYLOAD_SIZE as int);
        let tail = f.subrange(BLOCK_PAYLOAD_SIZE as int, f.len() as int);
        assert(tail.len() == (k - 1) * 65520) by (nonlinear_arith)
            requires
                tail.len() == f.len() - 65520,
                f.len() == k * 65520,
        ;
        lemma_frame_checks(seq_nr, false, false, head);
        lemma_decode_full_frames(tail, (k - 1) as nat, seq_nr + 1);
        let fr = frame(seq_nr, false, false, head);
        let rest = full_frames(tail, seq_nr + 1);
        assert(ff == fr + rest);
        assert(ff.len() == k * 65536) by (nonlinear_arith)
            requires
                ff.len() == fr.len() + rest.len(),
                fr.len() == 65536,
                rest.len() == (k - 1) * 65536,
        ;
        assert(ff.subrange(0, BLOCK_SIZE as int) =~= fr);
        assert(ff.subrange(BLOCK_SIZE as int, ff.len() as int) =~= rest);
        assert(head + tail =~= f);
    }
}

/// A stream whose writer never finished holds only full blocks: it reads
/// back as all their bytes, then ends as truncated.
pub proof fn lemma_unfinished_stream_truncated(flushed: Seq<u8>, blocks: nat)
    requires
        flushed.len() == blocks * 65520,
        blocks <= 0x1_0000_0000,
    ensures
        full_frames(flushed, 0).len() == blocks * 65536,
        decode_from(full_frames(flushed, 0), 0) == (flushed, Some(TapeError::TruncatedStream)),
        blocks > 0 ==> open_outcome(full_frames(flushed, 0)) is Ok,
{
    lemma_decode_full_frames(flushed, blocks, 0);
    if blocks > 0 {
        let ff = full_frames(flushed, 0);
        let head = flushed.subrange(0, BLOCK_PAYLOAD_SIZE as int);
        lemma_frame_checks(0, false, false, head);
        assert(ff.subrange(0, BLOCK_SIZE as int) =~= frame(0, false, false, head));
    }
}

fn push_le32(out: &mut Vec<u8>, n: u32)
    ensures
        final(out)@ == old(out)@ + le32(n as nat),
{
    out.push((n % 256) as u8);
    out.push(((n / 256) % 256) as u8);
    out.push(((n / 65536) % 256) as u8);
    out.push(((n / 16777216) % 256) as u8);
    assert(final(out)@ =~= old(out)@ + le32(n as nat));
}

/// Builds block number `seq_nr` carrying `payload`.
fn build_frame(seq_nr: u32, end: bool, incomplete: bool, payload: &Vec<u8>) -> (r: Vec<u8>)
    requires
        payload@.len() <= BLOCK_PAYLOAD_SIZE,
    ensures
        r@ == frame(seq_nr as nat, end, incomplete, payload@),
{
    let mut r: Vec<u8> = Vec::with_capacity(BLOCK_SIZE);
    r.push(220u8);
    r.push(189u8);
    r.push(175u8);
    r.push(202u8);
    r.push(235u8);
    r.push(160u8);
    r.push(199u8);
    r.push(40u8);
    let flags: u8 = (if end { 1u8 } else { 0u8 }) + (if incomplete { 2u8 } else { 0u8 });
    r.push(flags);
    r.push(0u8);
    push_le32(&mut r, seq_nr);
    let size = payload.len();
    r.push((size % 256) as u8);
    r.push(((size / 256) % 256) as u8);
    let ghost hdr = frame_header(seq_nr as nat, end, incomplete, size as nat);
    assert(r@ =~= hdr);
    let mut i: usize = 0;
    while i < size
        invariant
            i <= size,
            size == payload@.len(),
            size <= BLOCK_PAYLOAD_SIZE,
            r@ == hdr + payload@.subrange(0, i as int),
        decreases size - i,
    {
        r.push(payload[i]);
        i = i + 1;
        assert(r@ =~= hdr + payload@.subrange(0, i as int));
    }
    assert(payload@.subrange(0, size as int) =~= payload@);
    let pad: usize = BLOCK_PAYLOAD_SIZE - size;
    let mut j: usize = 0;
    while j < pad
        invariant
            j <= pad,
            pad == BLOCK_PAYLOAD_SIZE - payload@.len(),
            r@ == hdr + payload@ + zeros(j as nat),
        decreases pad - j,
    {
        r.push(0u8);
        j = j + 1;
        assert(r@ =~= hdr + payload@ + zeros(j as nat));
    }
    r
}

/// Checks the header of `buffer`, read as block number `seq_nr`.
fn check_buffer(buffer: &Vec<u8>, seq_nr: u64) -> (r: Result<(usize, bool), TapeError>)
    requires
        buffer@.len() == BLOCK_SIZE,
    ensures
        r == check_block(buffer@, seq_nr as nat),
{
    let ghost b = buffer@;
    if !(buffer[0] == 220u8 && buffer[1] == 189u8 && buffer[2] == 175u8 && buffer[3] == 202u8
        && buffer[4] == 235u8 && buffer[5] == 160u8 && buffer[6] == 199u8 && buffer[7] == 40u8) {
        assert(b.subrange(0, 8)[0] == b[0]);
        assert(b.subrange(0, 8)[1] == b[1]);
        assert(b.subrange(0, 8)[2] == b[2]);
        assert(b.subrange(0, 8)[3] == b[3]);
        assert(b.subrange(0, 8)[4] == b[4]);
        assert(b.subrange(0, 8)[5] == b[5]);
        assert(b.subrange(0, 8)[6] == b[6]);
        assert(b.subrange(0, 8)[7] == b[7]);
        return Err(TapeError::NotOurStream);
    }
    assert(b.subrange(0, 8) =~= block_magic());
    if seq_nr > 0xffff_ffffu64 {
        return Err(TapeError::OutOfOrder);
    }
    let s = seq_nr as u32;
    if !(buffer[10] == (s % 256) as u8 && buffer[11] == ((s / 256) % 256) as u8 && buffer[12] == ((
    s / 65536) % 256) as u8 && buffer[13] == ((s / 16777216) % 256) as u8) {
        assert(b.subrange(10, 14)[0] == b[10]);
        assert(b.subrange(10, 14)[1] == b[11]);
        assert(b.subrange(10, 14)[2] == b[12]);
        assert(b.subrange(10, 14)[3] == b[13]);
        return Err(TapeError::OutOfOrder);
    }
    assert(b.subrange(10, 14) =~= le32(seq_nr as nat));
    let size: usize = (buffer[14] as usize) + 256 * (buffer[15] as usize);
    let end = buffer[8] % 2 == 1;
    if size > BLOCK_PAYLOAD_SIZE {
        return Err(TapeError::Malformed);
    }
    if size == 0 && !end {
        return Err(TapeError::Malformed);
    }
    Ok((size, end))
}

proof fn lemma_full_frames_append(f: Seq<u8>, k: nat, c: Seq<u8>, seq_nr: nat)
    requires
        f.len() == k * 65520,
        c.len() == BLOCK_PAYLOAD_SIZE,
    ensures
        full_frames(f + c, seq_nr) == full_frames(f, seq_nr) + frame(seq_nr + k, false, false, c),
    decreases k,
{
    let fc = f + c;
    if k == 0 {
        assert(f.len() == 0);
        assert(fc =~= c);
        assert(fc.subrange(0, BLOCK_PAYLOAD_SIZE as int) =~= c);
        let t = fc.subrange(BLOCK_PAYLOAD_SIZE as int, fc.len() as int);
        assert(t.len() == 0);
        assert(full_frames(t, seq_nr + 1) == Seq::<u8>::empty());
        assert(full_frames(f, seq_nr) == Seq::<u8>::empty());
        assert(full_frames(fc, seq_nr) =~= frame(seq_nr, false, false, c));
    } else {
        let ft = f.subrange(BLOCK_PAYLOAD_SIZE as int, f.len() as int);
        assert(ft.len() == (k - 1) * 65520) by (nonlinear_arith)
            requires
                ft.len() == f.len() - 65520,
                f.len() == k * 65520,
        ;
        lemma_full_frames_append(ft, (k - 1) as nat, c, seq_nr + 1);
        assert(fc.subrange(0, BLOCK_PAYLOAD_SIZE as int) =~= f.subrange(0, BLOCK_PAYLOAD_SIZE as int));
        assert(fc.subrange(BLOCK_PAYLOAD_SIZE as int, fc.len() as int) =~= ft + c);
        assert(full_frames(fc, seq_nr) =~= full_frames(f, seq_nr) + frame(
            seq_nr + k,
            false,
            false,
            c,
        ));
    }
}

proof fn lemma_full_frames_finish(f: Seq<u8>, k: nat, b: Seq<u8>, seq_nr: nat, incomplete: bool)
    requires
        f.len() == k * 65520,
        b.len() <= BLOCK_PAYLOAD_SIZE,
        k > 0 ==> b.len() > 0,
    ensures
        full_frames(f, seq_nr) + frame(seq_nr + k, true, incomplete, b) == encode_from(
            f + b,
            seq_nr,
            incomplete,
        ),
    decreases k,
{
    let fb = f + b;
    if k == 0 {
        assert(fb =~= b);
        assert(full_frames(f, seq_nr) == Seq::<u8>::empty());
        assert(full_frames(f, seq_nr) + frame(seq_nr, true, incomplete, b) =~= frame(
            seq_nr,
            true,
            incomplete,
            b,
        ));
    } else {
        let ft = f.subrange(BLOCK_PAYLOAD_SIZE as int, f.len() as int);
        assert(ft.len() == (k - 1) * 65520) by (nonlinear_arith)
            requires
                ft.len() == f.len() - 65520,
                f.len() == k * 65520,
        ;
        lemma_full_frames_finish(ft, (k - 1) as nat, b, seq_nr + 1, incomplete);
        assert(fb.subrange(0, BLOCK_PAYLOAD_SIZE as int) =~= f.subrange(0, BLOCK_PAYLOAD_SIZE as int));
        assert(fb.subrange(BLOCK_PAYLOAD_SIZE as int, fb.len() as int) =~= ft + b);
        assert(full_frames(f, seq_nr) + frame(seq_nr + k, true, incomplete, b) =~= encode_from(
            fb,
            seq_nr,
            incomplete,
        ));
    }
}

/// A medium that takes whole blocks.
pub trait BlockWrite {
    /// Everything written to the medium so far.
    spec fn written(&self) -> Seq<u8>;

    /// Writes one block; on failure nothing is written.
    fn write_block(&mut self, block: &Vec<u8>) -> (r: Result<(), TapeError>)
        ensures
            r is Ok ==> final(self).written() == old(self).written() + block@,
            r is Err ==> final(self).written() == old(self).written(),
            r is Err ==> r->Err_0 != TapeError::SequenceOverflow,
    ;

    /// Writes a file mark after a stream.
    fn write_filemark(&mut self) -> (r: Result<(), TapeError>)
        ensures
            final(self).written() == old(self).written(),
    ;
}

/// A medium that takes blocks and reads them back, without file marks.
pub trait BlockRead {
    /// What is left to read on the medium.
    spec fn pending(&self) -> Seq<u8>;

    /// Reads the next block into the start of `buf`: at most `buf.len()` bytes.
    /// An exhausted medium reports a file mark.
    fn read_block(&mut self, buf: &mut Vec<u8>) -> (r: Result<usize, BlockReadError>)
        ensures
            final(buf)@.len() == old(buf)@.len(),
            old(self).pending().len() == 0 ==> r == Err::<usize, BlockReadError>(
                BlockReadError::EndOfFile,
            ) && final(self).pending() == old(self).pending(),
            old(self).pending().len() > 0 ==> {
                let n = if old(buf)@.len() < old(self).pending().len() {
                    old(buf)@.len()
                } else {
                    old(self).pending().len()
                };
                &&& r == Ok::<usize, BlockReadError>(n as usize)
                &&& final(buf)@.subrange(0, n as int) == old(self).pending().subrange(0, n as int)
                &&& final(self).pending() == old(self).pending().subrange(
                    n as int,
                    old(self).pending().len() as int,
                )
            },
    ;
}

/// A tape held in memory, with a fixed capacity.
pub struct EmulateTapeWriter {
    data: Vec<u8>,
    max_size: usize,
}

impl EmulateTapeWriter {
    /// How many bytes the medium holds.
    pub closed spec fn capacity(&self) -> nat {
        self.max_size as nat
    }

    /// An empty medium that holds at most `max_size` bytes.
    pub fn new(max_size: usize) -> (r: Self)
        ensures
            r.written() == Seq::<u8>::empty(),
            r.capacity() == max_size,
    {
        EmulateTapeWriter { data: Vec::new(), max_size }
    }

    /// The bytes written so far.
    pub fn into_inner(self) -> (r: Vec<u8>)
        ensures
            r@ == self.written(),
    {
        self.data
    }
}

impl BlockWrite for EmulateTapeWriter {
    closed spec fn written(&self) -> Seq<u8> {
        self.data@
    }

    fn write_block(&mut self, block: &Vec<u8>) -> (r: Result<(), TapeError>) {
        if block.len() > self.max_size || self.data.len() > self.max_size - block.len() {
            return Err(TapeError::EndOfMedia);
        }
        let mut i: usize = 0;
        while i < block.len()
            invariant
                i <= block@.len(),
                self.data@ == old(self).data@ + block@.subrange(0, i as int),
            decreases block@.len() - i,
        {
            self.data.push(block[i]);
            i = i + 1;
            assert(self.data@ =~= old(self).data@ + block@.subrange(0, i as int));
        }
        assert(block@.subrange(0, i as int) =~= block@);
        Ok(())
    }

    fn write_filemark(&mut self) -> (r: Result<(), TapeError>) {
        Ok(())
    }
}

/// Writes a byte stream as framed blocks.
pub struct BlockedWriter<W> {
    writer: W,
    buffer: Vec<u8>,
    seq_nr: u32,
    finished: bool,
    flushed: Ghost<Seq<u8>>,
    start: Ghost<Seq<u8>>,
}

impl<W: BlockWrite> BlockedWriter<W> {
    spec fn wf_blocks(&self) -> bool {
        &&& self.buffer@.len() <= BLOCK_PAYLOAD_SIZE
        &&& self.flushed@.len() == self.seq_nr as nat * 65520
        &&& !self.finished ==> self.writer.written() == self.start@ + full_frames(self.flushed@, 0)
    }

    pub closed spec fn wf(&self) -> bool {
        &&& self.wf_blocks()
        &&& self.flushed@.len() > 0 ==> self.buffer@.len() > 0
    }

    /// All bytes accepted so far.
    pub closed spec fn data(&self) -> Seq<u8> {
        self.flushed@ + self.buffer@
    }

    /// What the medium held before this stream.
    pub closed spec fn start(&self) -> Seq<u8> {
        self.start@
    }

    pub closed spec fn is_finished(&self) -> bool {
        self.finished
    }

    pub closed spec fn medium(&self) -> W {
        self.writer
    }

    /// Number of blocks written to the medium so far (the next block number).
    pub closed spec fn blocks_written(&self) -> nat {
        self.seq_nr as nat
    }

    /// The medium holds, after what it held before, the full blocks of the
    /// data written so far; the rest waits in the buffer.
    proof fn lemma_medium(&self)
        requires
            self.wf(),
            !self.finished,
        ensures
            self.medium().written() == self.start() + full_frames(
                self.data().subrange(0, (self.blocks_written() * 65520) as int),
                0,
            ),
            self.blocks_written() * 65520 <= self.data().len() <= self.blocks_written() * 65520
                + 65520,
    {
        assert(self.data().subrange(0, (self.blocks_written() * 65520) as int) =~= self.flushed@);
    }

    /// Starts a stream on `writer`.
    pub fn new(writer: W) -> (r: Self)
        ensures
            r.wf(),
            !r.is_finished(),
            r.data() == Seq::<u8>::empty(),
            r.start() == writer.written(),
            r.medium() == writer,
            r.blocks_written() == 0,
    {
        let ghost start = writer.written();
        let r = BlockedWriter {
            writer,
            buffer: Vec::new(),
            seq_nr: 0,
            finished: false,
            flushed: Ghost(Seq::empty()),
            start: Ghost(start),
        };
        assert(r.writer.written() =~= r.start@ + full_frames(r.flushed@, 0));
        assert(r.data() =~= Seq::<u8>::empty());
        r
    }

    /// Writes out the full buffer as a block that is not the last.
    fn flush_block(&mut self) -> (r: Result<(), TapeError>)
        requires
            old(self).wf(),
            !old(self).finished,
            old(self).buffer@.len() == BLOCK_PAYLOAD_SIZE,
        ensures
            r is Ok ==> final(self).wf_blocks(),
            r is Ok ==> final(self).buffer@.len() == 0,
            r is Ok ==> final(self).data() == old(self).data(),
            r is Ok ==> final(self).seq_nr == old(self).seq_nr + 1,
            r is Err ==> final(self).wf() && final(self).data() == old(self).data()
                && final(self).seq_nr == old(self).seq_nr && final(self).buffer@.len()
                == BLOCK_PAYLOAD_SIZE,
            (r == Err::<(), TapeError>(TapeError::SequenceOverflow)) <==> old(self).seq_nr
                == u32::MAX,
            final(self).start@ == old(self).start@,
            final(self).finished == old(self).finished,
    {
        if self.seq_nr == u32::MAX {
            return Err(TapeError::SequenceOverflow);
        }
        let ghost old_len = self.flushed@.len();
        let ghost old_seq = self.seq_nr as nat;
        let block = build_frame(self.seq_nr, false, false, &self.buffer);
        match self.writer.write_block(&block) {
            Ok(()) => {},
            Err(e) => {
                return Err(e);
            },
        }
        proof {
            lemma_full_frames_append(self.flushed@, self.seq_nr as nat, self.buffer@, 0);
        }
        self.flushed = Ghost(self.flushed@ + self.buffer@);
        self.seq_nr = self.seq_nr + 1;
        self.buffer.clear();
        proof {
            assert(self.flushed@.len() == self.seq_nr as nat * 65520) by (nonlinear_arith)
                requires
                    self.flushed@.len() == old_len + 65520,
                    old_len == old_seq * 65520,
                    self.seq_nr as nat == old_seq + 1,
            ;
            assert(self.data() =~= old(self).data());
            assert(self.writer.written() == self.start@ + full_frames(self.flushed@, 0));
        }
        Ok(())
    }

    /// Appends `data` to the stream. A block goes to the medium each time the
    /// buffer is full and more data follows; data that fits into the current
    /// block is only buffered. On failure, the bytes accepted before it stay
    /// accepted.
    #[verifier::loop_isolation(false)]
    pub fn write_all(&mut self, data: &Vec<u8>) -> (r: Result<(), TapeError>)
        requires
            old(self).wf(),
            !old(self).is_finished(),
        ensures
            final(self).wf(),
            final(self).start() == old(self).start(),
            !final(self).is_finished(),
            final(self).medium().written() == final(self).start() + full_frames(
                final(self).data().subrange(0, (final(self).blocks_written() * 65520) as int),
                0,
            ),
            final(self).blocks_written() >= old(self).blocks_written(),
            old(self).data().len() <= final(self).data().len(),
            final(self).data() == (old(self).data() + data@).subrange(
                0,
                final(self).data().len() as int,
            ),
            r is Ok ==> final(self).data() == old(self).data() + data@,
            old(self).data().len() + data@.len() <= (old(self).blocks_written() + 1) * 65520
                ==> r is Ok && final(self).blocks_written() == old(self).blocks_written(),
            (r == Err::<(), TapeError>(TapeError::SequenceOverflow)) <==> (
            final(self).blocks_written() == u32::MAX && final(self).data().len()
                == 0x1_0000_0000 * 65520 && final(self).data().len() < old(self).data().len()
                + data@.len()),
    {
        let ghost total = old(self).data() + data@;
        let mut i: usize = 0;
        while i < data.len()
            invariant
                i <= data@.len(),
                self.wf(),
                !self.finished,
                self.start@ == old(self).start@,
                self.seq_nr >= old(self).seq_nr,
                total == old(self).data() + data@,
                self.data() == old(self).data() + data@.subrange(0, i as int),
                old(self).data().len() + data@.len() <= (old(self).blocks_written() + 1) * 65520
                    ==> self.seq_nr == old(self).seq_nr,
            decreases data@.len() - i,
        {
            if self.buffer.len() == BLOCK_PAYLOAD_SIZE {
                match self.flush_block() {
                    Ok(()) => {},
                    Err(e) => {
                        proof {
                            assert(self.data() =~= total.subrange(0, self.data().len() as int));
                            self.lemma_medium();
                        }
                        return Err(e);
                    },
                }
            }
            let ghost prev = self.data();
            self.buffer.push(data[i]);
            proof {
                assert(self.data() =~= prev.push(data@[i as int]));
                assert(data@.subrange(0, i + 1) =~= data@.subrange(0, i as int).push(data@[i as int]));
                assert(old(self).data() + data@.subrange(0, i + 1) =~= (old(self).data()
                    + data@.subrange(0, i as int)).push(data@[i as int]));
            }
            i = i + 1;
        }
        assert(data@.subrange(0, i as int) =~= data@);
        proof {
            assert(total.subrange(0, total.len() as int) =~= total);
            self.lemma_medium();
        }
        Ok(())
    }

    /// Ends the stream: writes the last block, flagged as end of stream (and as
    /// incomplete if asked), then a file mark.
    pub fn finish(&mut self, incomplete: bool) -> (r: Result<(), TapeError>)
        requires
            old(self).wf(),
            !old(self).is_finished(),
        ensures
            final(self).is_finished(),
            final(self).start() == old(self).start(),
            r is Ok ==> final(self).medium().written() == old(self).start() + encode_stream(
                old(self).data(),
                incomplete,
            ),
    {
        self.finished = true;
        let block = build_frame(self.seq_nr, true, incomplete, &self.buffer);
        self.writer.write_block(&block)?;
        proof {
            lemma_full_frames_finish(
                self.flushed@,
                self.seq_nr as nat,
                self.buffer@,
                0,
                incomplete,
            );
            assert(self.writer.written() =~= self.start@ + encode_stream(old(self).data(), incomplete));
        }
        self.writer.write_filemark()?;
        Ok(())
    }

    /// Gives back the medium.
    pub fn into_inner(self) -> (r: W)
        ensures
            r == self.medium(),
    {
        self.writer
    }
}

/// A tape held in memory, read block by block.
pub struct EmulateTapeReader {
    data: Vec<u8>,
    pos: usize,
}

impl EmulateTapeReader {
    /// A medium that holds `data`.
    pub fn new(data: Vec<u8>) -> (r: Self)
        ensures
            r.pending() == data@,
    {
        let r = EmulateTapeReader { data, pos: 0 };
        assert(r.data@.subrange(0, r.data@.len() as int) =~= r.data@);
        r
    }
}

impl BlockRead for EmulateTapeReader {
    closed spec fn pending(&self) -> Seq<u8> {
        if self.pos <= self.data@.len() {
            self.data@.subrange(self.pos as int, self.data@.len() as int)
        } else {
            Seq::empty()
        }
    }

    fn read_block(&mut self, buf: &mut Vec<u8>) -> (r: Result<usize, BlockReadError>) {
        if self.pos >= self.data.len() {
            return Err(BlockReadError::EndOfFile);
        }
        let avail = self.data.len() - self.pos;
        let n = if buf.len() < avail {
            buf.len()
        } else {
            avail
        };
        let ghost src = self.pending();
        let p = self.pos;
        let mut i: usize = 0;
        while i < n
            invariant
                i <= n,
                n <= buf@.len(),
                n <= avail,
                p == self.pos,
                p + avail == self.data@.len(),
                p + avail <= usize::MAX,
                buf@.len() == old(buf)@.len(),
                self.data == old(self).data,
                self.pos == old(self).pos,
                src == self.data@.subrange(self.pos as int, self.data@.len() as int),
                forall|k: int| 0 <= k < i ==> buf@[k] == src[k],
            decreases n - i,
        {
            buf.set(i, self.data[p + i]);
            i = i + 1;
        }
        self.pos = self.pos + n;
        assert(buf@.subrange(0, n as int) =~= src.subrange(0, n as int));
        assert(self.pending() =~= src.subrange(n as int, src.len() as int));
        Ok(n)
    }
}

fn zeroed(n: usize) -> (r: Vec<u8>)
    ensures
        r@ == zeros(n as nat),
{
    let mut r: Vec<u8> = Vec::with_capacity(n);
    let mut i: usize = 0;
    while i < n
        invariant
            i <= n,
            r@ == zeros(i as nat),
        decreases n - i,
    {
        r.push(0u8);
        i = i + 1;
        assert(r@ =~= zeros(i as nat));
    }
    r
}

/// Reads a stream written as framed blocks, checking magic, sequence numbers
/// and payload sizes, and consuming the file mark after the last block.
pub struct BlockedReader<R> {
    reader: R,
    buffer: Vec<u8>,
    size: usize,
    seq_nr: u64,
    found_end_marker: bool,
    incomplete: bool,
    got_eod: bool,
    read_error: bool,
    read_pos: usize,
}

impl<R: BlockRead> BlockedReader<R> {
    pub closed spec fn wf(&self) -> bool {
        &&& self.buffer@.len() == BLOCK_SIZE
        &&& self.read_pos <= self.size <= BLOCK_PAYLOAD_SIZE
        &&& self.found_end_marker ==> self.got_eod
        &&& !self.found_end_marker ==> !self.incomplete
        &&& self.reader.pending().len() <= isize::MAX
    }

    /// What is left to read: payload bytes, then the error that ends the
    /// stream, if any.
    pub closed spec fn rest(&self) -> (Seq<u8>, Option<TapeError>) {
        let cur = self.buffer@.subrange(
            BLOCK_HEADER_SIZE + self.read_pos,
            BLOCK_HEADER_SIZE + self.size,
        );
        if self.read_error {
            (Seq::empty(), Some(TapeError::Poisoned))
        } else if self.got_eod {
            (cur, None)
        } else {
            let (d, e) = decode_from(self.reader.pending(), self.seq_nr as nat);
            (cur + d, e)
        }
    }

    /// Whether the end of the stream was reached.
    pub closed spec fn at_end(&self) -> bool {
        self.got_eod
    }

    /// Whether the end-of-stream block was seen.
    pub closed spec fn end_marker_seen(&self) -> bool {
        self.found_end_marker
    }

    /// The incomplete flag of the end-of-stream block.
    pub closed spec fn incomplete_flag(&self) -> bool {
        self.incomplete
    }

    /// The incomplete flag of the end-of-stream block, seen or still ahead.
    pub closed spec fn end_incomplete(&self) -> bool {
        if self.got_eod {
            self.incomplete
        } else {
            stream_incomplete(self.reader.pending(), self.seq_nr as nat)
        }
    }

    /// Bytes of the current block not yet returned.
    pub closed spec fn current_left(&self) -> nat {
        (self.size - self.read_pos) as nat
    }

    /// Whether an earlier fatal error poisoned the reader.
    pub closed spec fn poisoned(&self) -> bool {
        self.read_error
    }

    /// What is left to read on the medium.
    pub closed spec fn medium_pending(&self) -> Seq<u8> {
        self.reader.pending()
    }

    /// Reads the file mark that must follow the end-of-stream block.
    fn consume_eof_marker(reader: &mut R) -> (r: Result<(), TapeError>)
        ensures
            r is Ok <==> old(reader).pending().len() == 0,
            r is Err ==> r == Err::<(), TapeError>(TapeError::TrailingData),
            final(reader).pending().len() <= old(reader).pending().len(),
            r is Ok ==> final(reader).pending() == old(reader).pending(),
    {
        let mut tmp_buf = zeroed(512);
        match reader.read_block(&mut tmp_buf) {
            Ok(_) => Err(TapeError::TrailingData),
            Err(BlockReadError::EndOfFile) => Ok(()),
            Err(_) => Err(TapeError::TrailingData),
        }
    }

    /// Opens a stream: reads and checks its first block. An empty medium
    /// reports a file mark.
    pub fn open(reader: R) -> (r: Result<Self, BlockReadError>)
        requires
            reader.pending().len() <= isize::MAX,
        ensures
            r is Ok <==> open_outcome(reader.pending()) is Ok,
            r is Err ==> r->Err_0 == open_outcome(reader.pending())->Err_0,
            r is Ok ==> r->Ok_0.wf() && r->Ok_0.rest() == decode_from(reader.pending(), 0),
            r is Ok ==> {
                let blk = reader.pending().subrange(0, BLOCK_SIZE as int);
                &&& r->Ok_0.at_end() == block_end_flag(blk)
                &&& r->Ok_0.end_marker_seen() == block_end_flag(blk)
                &&& r->Ok_0.incomplete_flag() == (block_end_flag(blk) && block_incomplete_flag(blk))
                &&& !r->Ok_0.poisoned()
                &&& r->Ok_0.current_left() == block_size_field(blk)
                &&& r->Ok_0.end_incomplete() == stream_incomplete(reader.pending(), 0)
            },
    {
        let ghost src = reader.pending();
        proof {
            lemma_decode_step(src, 0);
        }
        let mut reader = reader;
        let mut buffer = zeroed(BLOCK_SIZE);
        let n = reader.read_block(&mut buffer)?;
        if n != BLOCK_SIZE {
            return Err(BlockReadError::Error(TapeError::Malformed));
        }
        assert(buffer@ =~= src.subrange(0, BLOCK_SIZE as int));
        let (size, found_end_marker) = match check_buffer(&buffer, 0) {
            Ok(v) => v,
            Err(e) => {
                return Err(BlockReadError::Error(e));
            },
        };
        let mut incomplete = false;
        let mut got_eod = false;
        if found_end_marker {
            incomplete = buffer[8] / 2 % 2 == 1;
            match Self::consume_eof_marker(&mut reader) {
                Ok(()) => {},
                Err(e) => {
                    return Err(BlockReadError::Error(e));
                },
            }
            got_eod = true;
        }
        let r = BlockedReader {
            reader,
            buffer,
            size,
            seq_nr: 1,
            found_end_marker,
            incomplete,
            got_eod,
            read_error: false,
            read_pos: 0,
        };
        proof {
            let rest = src.subrange(BLOCK_SIZE as int, src.len() as int);
            assert(r.reader.pending() =~= rest);
        }
        Ok(r)
    }

    /// Reads the next block into the buffer.
    #[verifier::rlimit(40)]
    fn read_block(&mut self, check_end_marker: bool) -> (r: Result<(), TapeError>)
        requires
            old(self).wf(),
            !old(self).got_eod,
            !old(self).read_error,
            old(self).read_pos == old(self).size,
        ensures
            final(self).wf(),
            !final(self).read_error,
            r is Ok && old(self).reader.pending().len() > 0 ==> final(self).read_pos == 0,
            r is Ok ==> final(self).size > 0 || final(self).got_eod,
            r is Ok && old(self).reader.pending().len() > 0 ==> final(self).rest() == old(self).rest(),
            r is Ok && old(self).reader.pending().len() == 0 ==> {
                &&& !check_end_marker
                &&& final(self).got_eod
                &&& old(self).rest() == (Seq::<u8>::empty(), Some(TapeError::TruncatedStream))
                &&& final(self).rest() == (Seq::<u8>::empty(), None::<TapeError>)
            },
            r is Err ==> old(self).rest().0.len() == 0 && old(self).rest().1 == Some(r->Err_0),
            r is Err && !check_end_marker ==> r->Err_0 != TapeError::TruncatedStream,
            old(self).reader.pending().len() == 0 ==> final(self).got_eod,
            r is Ok ==> final(self).end_incomplete() == old(self).end_incomplete(),
            r is Ok && old(self).reader.pending().len() == 0 ==> !final(self).found_end_marker
                && !final(self).incomplete,
            r is Ok && check_end_marker && final(self).got_eod ==> final(self).found_end_marker,
            final(self).reader.pending().len() <= old(self).reader.pending().len(),
            r is Ok && !final(self).got_eod ==> final(self).reader.pending().len()
                < old(self).reader.pending().len(),
    {
        let ghost src = self.reader.pending();
        let ghost old_seq = self.seq_nr as nat;
        proof {
            lemma_decode_step(src, old_seq);
            assert(self.buffer@.subrange(
                BLOCK_HEADER_SIZE + self.read_pos,
                BLOCK_HEADER_SIZE + self.size,
            ) =~= Seq::<u8>::empty());
        }
        match self.reader.read_block(&mut self.buffer) {
            Ok(n) => {
                if n != BLOCK_SIZE {
                    return Err(TapeError::Malformed);
                }
            },
            Err(BlockReadError::EndOfFile) => {
                self.got_eod = true;
                if !self.found_end_marker && check_end_marker {
                    return Err(TapeError::TruncatedStream);
                }
                return Ok(());
            },
            Err(_) => {
                return Err(TapeError::UnexpectedEndOfTape);
            },
        }
        assert(self.buffer@ =~= src.subrange(0, BLOCK_SIZE as int));
        let (size, found_end_marker) = match check_buffer(&self.buffer, self.seq_nr) {
            Ok(v) => v,
            Err(e) => {
                return Err(e);
            },
        };
        self.seq_nr = self.seq_nr + 1;
        self.size = size;
        self.read_pos = 0;
        if found_end_marker {
            self.found_end_marker = true;
            self.incomplete = self.buffer[8] / 2 % 2 == 1;
            self.got_eod = true;
            Self::consume_eof_marker(&mut self.reader)?;
        }
        proof {
            let rest = src.subrange(BLOCK_SIZE as int, src.len() as int);
            assert(self.reader.pending() =~= rest);
        }
        Ok(())
    }

    /// Reads at most `buf.len()` bytes of the stream into the start of `buf`.
    /// Returns 0 only at the end of the stream; any error is fatal and
    /// poisons the reader.
    #[verifier::loop_isolation(false)]
    pub fn read(&mut self, buf: &mut Vec<u8>) -> (r: Result<usize, TapeError>)
        requires
            old(self).wf(),
        ensures
            final(self).wf(),
            final(buf)@.len() == old(buf)@.len(),
            match r {
                Ok(n) => {
                    &&& n <= old(buf)@.len()
                    &&& final(buf)@.subrange(n as int, old(buf)@.len() as int) == old(buf)@.subrange(
                        n as int,
                        old(buf)@.len() as int,
                    )
                    &&& n < old(buf)@.len() ==> final(self).current_left() == 0
                    &&& n == 0 && old(buf)@.len() > 0 ==> final(self).at_end()
                    &&& final(self).end_incomplete() == old(self).end_incomplete()
                    &&& final(self).at_end() && !old(self).at_end() ==> final(self).end_marker_seen()
                    &&& old(self).at_end() ==> final(self).at_end()
                    &&& old(self).end_marker_seen() ==> final(self).end_marker_seen()
                    &&& !old(self).poisoned() && old(self).current_left() > 0 ==> {
                        &&& n == if old(buf)@.len() < old(self).current_left() {
                            old(buf)@.len()
                        } else {
                            old(self).current_left()
                        }
                        &&& final(self).medium_pending() == old(self).medium_pending()
                        &&& final(self).current_left() == old(self).current_left() - n
                    }
                    &&& old(self).rest().0 == final(buf)@.subrange(0, n as int) + final(self).rest().0
                    &&& old(self).rest().1 == final(self).rest().1
                    &&& old(buf)@.len() > 0 ==> (n == 0 <==> old(self).rest().0.len() == 0)
                    &&& old(self).rest().0.len() == 0 ==> old(self).rest().1 is None
                },
                Err(e) => {
                    &&& old(self).rest().0.len() == 0
                    &&& old(self).rest().1 == Some(e)
                    &&& final(self).rest() == (Seq::<u8>::empty(), Some(TapeError::Poisoned))
                },
            },
    {
        if self.read_error {
            return Err(TapeError::Poisoned);
        }
        if self.read_pos == self.size && !self.got_eod {
            match self.read_block(true) {
                Ok(()) => {},
                Err(e) => {
                    self.read_error = true;
                    return Err(e);
                },
            }
        }
        let rest = self.size - self.read_pos;
        let copy_len = if buf.len() < rest {
            buf.len()
        } else {
            rest
        };
        let ghost cur = self.rest();
        let start = BLOCK_HEADER_SIZE + self.read_pos;
        let mut i: usize = 0;
        while i < copy_len
            invariant
                i <= copy_len,
                copy_len <= buf@.len(),
                copy_len <= rest,
                rest == self.size - self.read_pos,
                start == BLOCK_HEADER_SIZE + self.read_pos,
                self.wf(),
                buf@.len() == old(buf)@.len(),
                forall|k: int| 0 <= k < i ==> buf@[k] == self.buffer@[start + k],
                forall|k: int| i <= k < buf@.len() ==> buf@[k] == old(buf)@[k],
            decreases copy_len - i,
        {
            buf.set(i, self.buffer[start + i]);
            i = i + 1;
        }
        self.read_pos = self.read_pos + copy_len;
        proof {
            assert(buf@.subrange(0, copy_len as int) =~= cur.0.subrange(0, copy_len as int));
            assert(cur.0 =~= buf@.subrange(0, copy_len as int) + self.rest().0);
            assert(buf@.subrange(copy_len as int, buf@.len() as int) =~= old(buf)@.subrange(
                copy_len as int,
                old(buf)@.len() as int,
            ));
        }
        Ok(copy_len)
    }

    /// Reads the whole rest of the stream and appends it to `out`.
    /// Returns the number of bytes appended.
    #[verifier::loop_isolation(false)]
    pub fn read_to_end(&mut self, out: &mut Vec<u8>) -> (r: Result<usize, TapeError>)
        requires
            old(self).wf(),
        ensures
            final(self).wf(),
            final(out)@ == old(out)@ + old(self).rest().0,
            match r {
                Ok(n) => old(self).rest().1 is None && n == old(self).rest().0.len(),
                Err(e) => old(self).rest().1 == Some(e),
            },
            r is Ok ==> final(self).at_end() && final(self).rest() == (
                Seq::<u8>::empty(),
                None::<TapeError>,
            ),
            r is Ok ==> final(self).incomplete_flag() == old(self).end_incomplete(),
            r is Ok && !old(self).at_end() ==> final(self).end_marker_seen(),
    {
        let mut buf = zeroed(BLOCK_PAYLOAD_SIZE);
        let start_len = out.len();
        loop
            invariant
                self.wf(),
                buf@.len() == BLOCK_PAYLOAD_SIZE,
                out@.len() >= start_len,
                start_len == old(out)@.len(),
                out@ + self.rest().0 == old(out)@ + old(self).rest().0,
                self.rest().1 == old(self).rest().1,
                self.end_incomplete() == old(self).end_incomplete(),
                self.at_end() && !old(self).at_end() ==> self.end_marker_seen(),
                old(self).at_end() ==> self.at_end(),
            decreases self.rest().0.len(),
        {
            let ghost before = self.rest();
            match self.read(&mut buf) {
                Ok(0) => {
                    assert(out@ + before.0 =~= out@);
                    assert(out@.subrange(start_len as int, out@.len() as int) =~= old(self).rest().0)
                        by {
                        assert(old(out)@ + old(self).rest().0 == out@);
                    }
                    return Ok(out.len() - start_len);
                },
                Ok(n) => {
                    let ghost prev = out@;
                    let mut i: usize = 0;
                    while i < n
                        invariant
                            i <= n,
                            n <= buf@.len(),
                            out@ == prev + buf@.subrange(0, i as int),
                        decreases n - i,
                    {
                        out.push(buf[i]);
                        i = i + 1;
                        assert(out@ =~= prev + buf@.subrange(0, i as int));
                    }
                    assert(out@ + self.rest().0 =~= prev + before.0);
                },
                Err(e) => {
                    assert(out@ + before.0 =~= out@);
                    return Err(e);
                },
            }
        }
    }

    /// Drains the rest of the stream; a missing end-of-stream block is no
    /// error here. Returns the number of payload bytes skipped.
    #[verifier::loop_isolation(false)]
    pub fn skip_data(&mut self) -> (r: Result<usize, TapeError>)
        requires
            old(self).wf(),
        ensures
            final(self).wf(),
            old(self).rest().1 is None || old(self).rest().1 == Some(TapeError::TruncatedStream)
                ==> r == Ok::<usize, TapeError>(old(self).rest().0.len() as usize) && final(self).at_end(),
            r is Ok ==> final(self).rest() == (Seq::<u8>::empty(), None::<TapeError>),
            r is Ok ==> final(self).incomplete_flag() == old(self).end_incomplete(),
            !(old(self).rest().1 is None || old(self).rest().1 == Some(TapeError::TruncatedStream))
                ==> r == Err::<usize, TapeError>(old(self).rest().1->Some_0),
    {
        if self.read_error {
            return Err(TapeError::Poisoned);
        }
        proof {
            if !self.got_eod {
                lemma_decode_len(self.reader.pending(), self.seq_nr as nat);
            }
        }
        let mut bytes: usize = self.size - self.read_pos;
        self.read_pos = self.size;
        loop
            invariant
                self.wf(),
                !self.read_error,
                self.read_pos == self.size,
                bytes + self.rest().0.len() == old(self).rest().0.len(),
                old(self).rest().0.len() <= BLOCK_PAYLOAD_SIZE + isize::MAX,
                self.rest().1 == old(self).rest().1 || (old(self).rest().1 == Some(
                    TapeError::TruncatedStream,
                ) && self.got_eod && self.rest() == (Seq::<u8>::empty(), None::<TapeError>)),
            self.end_incomplete() == old(self).end_incomplete(),
            decreases self.reader.pending().len() + (if self.got_eod { 0int } else { 1int }),
        {
            if self.got_eod {
                assert(self.rest().0.len() == 0);
                return Ok(bytes);
            }
            match self.read_block(false) {
                Ok(()) => {
                    bytes = bytes + (self.size - self.read_pos);
                    self.read_pos = self.size;
                },
                Err(e) => {
                    return Err(e);
                },
            }
        }
    }

    /// The incomplete flag of the end-of-stream block; an error before the
    /// end of the stream, or where it had no end-of-stream block.
    pub fn is_incomplete(&self) -> (r: Result<bool, TapeError>)
        ensures
            !self.at_end() ==> r == Err::<bool, TapeError>(TapeError::NotAtEnd),
            self.at_end() && !self.end_marker_seen() ==> r == Err::<bool, TapeError>(
                TapeError::NoEndMarker,
            ),
            self.at_end() && self.end_marker_seen() ==> r == Ok::<bool, TapeError>(
                self.incomplete_flag(),
            ),
    {
        if !self.got_eod {
            return Err(TapeError::NotAtEnd);
        }
        if !self.found_end_marker {
            return Err(TapeError::NoEndMarker);
        }
        Ok(self.incomplete)
    }

    /// Whether the stream ended with an end-of-stream block; an error before
    /// the end of the stream.
    pub fn has_end_marker(&self) -> (r: Result<bool, TapeError>)
        ensures
            !self.at_end() ==> r == Err::<bool, TapeError>(TapeError::NotAtEnd),
            self.at_end() ==> r == Ok::<bool, TapeError>(self.end_marker_seen()),
    {
        if !self.got_eod {
            return Err(TapeError::NotAtEnd);
        }
        Ok(self.found_end_marker)
    }
}

} // verus!
