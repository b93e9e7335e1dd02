//! The TA612C serial protocol: the request the logger sends, the 13-byte frame
//! the meter answers with, and how that frame is assembled and decoded.
//!
//! Request:  `AA 55 01 03 03`
//! Response: `55 AA 01 0B [T1lo T1hi T2lo T2hi T3lo T3hi T4lo T4hi] [sum]`
//! Each reading is a signed 16-bit little-endian count of tenths of a degree
//! Celsius; `0x7FFF` marks an open circuit (no probe on that channel).

use vstd::prelude::*;

verus! {

/// Line speed of the meter's USB serial port (9600 8N1, no parity).
pub const BAUD_RATE: u32 = 9600;

/// How long one read on the serial port may wait, in milliseconds.
pub const READ_TIMEOUT_MS: u64 = 500;

/// Length of the meter's answer frame in bytes.
pub const FRAME_LEN: usize = 13;

/// Number of thermocouple channels on the meter.
pub const CHANNEL_COUNT: usize = 4;

/// The raw reading that the meter sends for a channel with no probe.
pub const OPEN_CIRCUIT: i16 = 0x7FFF;

/// The bytes of the real-time reading request.
pub open spec fn spec_request() -> Seq<u8> {
    seq![0xAAu8, 0x55u8, 0x01u8, 0x03u8, 0x03u8]
}

/// Returns the request that asks the meter for one real-time frame.
pub fn request_command() -> (cmd: [u8; 5])
    ensures
        cmd@ == spec_request(),
{
    [0xAA, 0x55, 0x01, 0x03, 0x03]
}

/// The signed 16-bit value stored little-endian in the bytes `lo`, `hi`.
pub open spec fn le_i16(lo: u8, hi: u8) -> int {
    let u = lo + 256 * hi;
    if u >= 0x8000 {
        u - 0x10000
    } else {
        u
    }
}

/// The reading of one channel: `None` for an open circuit, else the raw value
/// in tenths of a degree.
pub open spec fn channel_reading(lo: u8, hi: u8) -> Option<i16> {
    if le_i16(lo, hi) == 0x7FFF {
        None
    } else {
        Some(le_i16(lo, hi) as i16)
    }
}

/// A frame is accepted when it is complete and starts with `55 AA 01`.
pub open spec fn frame_accepted(b: Seq<u8>) -> bool {
    &&& b.len() == 13
    &&& b[0] == 0x55
    &&& b[1] == 0xAA
    &&& b[2] == 0x01
}

/// The four channel readings carried by a frame.
pub open spec fn frame_readings(b: Seq<u8>) -> Seq<Option<i16>> {
    seq![
        channel_reading(b[4], b[5]),
        channel_reading(b[6], b[7]),
        channel_reading(b[8], b[9]),
        channel_reading(b[10], b[11]),
    ]
}

/// The two bytes, low byte first, in which the meter sends the reading `r`
/// (two's complement).
pub open spec fn le_bytes(r: i16) -> Seq<u8> {
    let u: int = if r < 0 { r + 0x10000 } else { r as int };
    seq![(u % 256) as u8, (u / 256) as u8]
}

/// The frame in which the meter reports the raw readings `r0`..`r3`; the
/// length byte and the checksum are whatever the meter put there.
pub open spec fn meter_frame(len_byte: u8, r0: i16, r1: i16, r2: i16, r3: i16, sum: u8) -> Seq<u8> {
    seq![0x55u8, 0xAAu8, 0x01u8, len_byte] + le_bytes(r0) + le_bytes(r1) + le_bytes(r2) + le_bytes(
        r3,
    ) + seq![sum]
}

/// What the logger makes of a raw reading: no value for an open circuit,
/// else the reading itself.
pub open spec fn reading_of(r: i16) -> Option<i16> {
    if r == 0x7FFF {
        None
    } else {
        Some(r)
    }
}

/// The two bytes of a reading decode back to that reading.
pub proof fn lemma_le_roundtrip(r: i16)
    ensures
        le_i16(le_bytes(r)[0], le_bytes(r)[1]) == r,
        channel_reading(le_bytes(r)[0], le_bytes(r)[1]) == reading_of(r),
{
    let u: int = if r < 0 { r + 0x10000 } else { r as int };
    assert(0 <= u < 0x10000);
    assert(u == 256 * (u / 256) + u % 256);
    assert(le_bytes(r)[0] == u % 256);
    assert(le_bytes(r)[1] == u / 256);
}

/// Every frame the meter sends is accepted, and each channel decodes to the
/// reading the meter sent, with an open circuit read as no value.
pub proof fn lemma_meter_frame_decodes(len_byte: u8, r0: i16, r1: i16, r2: i16, r3: i16, sum: u8)
    ensures
        frame_accepted(meter_frame(len_byte, r0, r1, r2, r3, sum)),
        frame_readings(meter_frame(len_byte, r0, r1, r2, r3, sum)) == seq![
            reading_of(r0),
            reading_of(r1),
            reading_of(r2),
            reading_of(r3),
        ],
{
    let f = meter_frame(len_byte, r0, r1, r2, r3, sum);
    lemma_le_roundtrip(r0);
    lemma_le_roundtrip(r1);
    lemma_le_roundtrip(r2);
    lemma_le_roundtrip(r3);
    assert(f[4] == le_bytes(r0)[0] && f[5] == le_bytes(r0)[1]);
    assert(f[6] == le_bytes(r1)[0] && f[7] == le_bytes(r1)[1]);
    assert(f[8] == le_bytes(r2)[0] && f[9] == le_bytes(r2)[1]);
    assert(f[10] == le_bytes(r3)[0] && f[11] == le_bytes(r3)[1]);
    assert(frame_readings(f) =~= seq![reading_of(r0), reading_of(r1), reading_of(r2), reading_of(r3)]);
}

/// Exactly the 13-byte frames that start with `55 AA 01` are accepted; any
/// other length or any other first three bytes is refused.
pub proof fn lemma_accepted_frames(b: Seq<u8>)
    ensures
        frame_accepted(b) <==> (b.len() == 13 && b[0] == 0x55u8 && b[1] == 0xAAu8 && b[2] == 0x01u8),
{
}

/// Each channel is read from its own two bytes, low byte first: channel `k`
/// from bytes `4 + 2k` and `5 + 2k`, with `0x7FFF` as no value.
pub proof fn lemma_channel_bytes(b: Seq<u8>, k: int)
    requires
        b.len() == 13,
        0 <= k < 4,
    ensures
        frame_readings(b).len() == 4,
        frame_readings(b)[k] == (if b[4 + 2 * k] == 0xFFu8 && b[5 + 2 * k] == 0x7Fu8 {
            None
        } else {
            Some(
                (if b[5 + 2 * k] >= 0x80u8 {
                    b[4 + 2 * k] + 256 * b[5 + 2 * k] - 0x10000
                } else {
                    b[4 + 2 * k] + 256 * b[5 + 2 * k]
                }) as i16,
            )
        }),
{
}

/// Decodes one signed little-endian reading.
pub fn decode_reading(lo: u8, hi: u8) -> (r: Option<i16>)
    ensures
        r == channel_reading(lo, hi),
{
    let u: u32 = lo as u32 + 256 * (hi as u32);
    let raw: i32 = if u >= 0x8000 {
        u as i32 - 0x10000
    } else {
        u as i32
    };
    if raw == 0x7FFF {
        None
    } else {
        Some(raw as i16)
    }
}

/// Decodes a frame received from the meter into its four channel readings.
/// Returns `None` when the frame is not 13 bytes long or its header is not
/// `55 AA 01`; the length byte and the checksum are not checked.
pub fn decode_frame(buf: &[u8]) -> (res: Option<[Option<i16>; 4]>)
    ensures
        res is Some <==> frame_accepted(buf@),
        res matches Some(t) ==> t@ == frame_readings(buf@),
{
    if buf.len() != FRAME_LEN || buf[0] != 0x55 || buf[1] != 0xAA || buf[2] != 0x01 {
        return None;
    }
    let t = [
        decode_reading(buf[4], buf[5]),
        decode_reading(buf[6], buf[7]),
        decode_reading(buf[8], buf[9]),
        decode_reading(buf[10], buf[11]),
    ];
    assert(t@ =~= frame_readings(buf@));
    Some(t)
}

/// The bytes held after a run of reads that handed in `chunks`, one after
/// the other, starting from `buf` (what [`FrameBuffer::accept`] does).
pub open spec fn after_reads(buf: Seq<u8>, chunks: Seq<Seq<u8>>) -> Seq<u8>
    decreases chunks.len(),
{
    if chunks.len() == 0 {
        buf
    } else {
        after_reads(buf, chunks.drop_last()) + chunks.last()
    }
}

proof fn lemma_after_reads_flatten(chunks: Seq<Seq<u8>>)
    ensures
        after_reads(Seq::empty(), chunks) == chunks.flatten_alt(),
    decreases chunks.len(),
{
    if chunks.len() > 0 {
        lemma_after_reads_flatten(chunks.drop_last());
    }
}

/// However the port splits the answer over its reads, the buffer ends up
/// holding the answer's bytes in order, so the frame is accepted or refused,
/// and decoded, the same way as if it had come in one read.
pub proof fn lemma_any_split_same_frame(chunks: Seq<Seq<u8>>, answer: Seq<u8>)
    requires
        chunks.flatten() == answer,
    ensures
        after_reads(Seq::empty(), chunks) == answer,
        after_reads(Seq::empty(), chunks) == after_reads(Seq::empty(), seq![answer]),
        frame_accepted(after_reads(Seq::empty(), chunks)) == frame_accepted(answer),
        frame_readings(after_reads(Seq::empty(), chunks)) == frame_readings(answer),
{
    lemma_after_reads_flatten(chunks);
    chunks.lemma_flatten_and_flatten_alt_are_equivalent();
    let one = seq![answer];
    assert(one.drop_last() =~= Seq::<Seq<u8>>::empty());
    assert(after_reads(Seq::empty(), one.drop_last()) == Seq::<u8>::empty());
    assert(one.last() == answer);
    assert(Seq::<u8>::empty() + answer =~= answer);
    assert(after_reads(Seq::empty(), one) == answer);
}

/// What the reader should do after a chunk of the answer arrived.
#[derive(Clone, Copy, Debug, PartialEq, Eq, Structural)]
pub enum FrameProgress {
    /// The frame is not complete yet: read again.
    NeedMore,
    /// All 13 bytes are in: decode the frame.
    Complete,
    /// The port delivered nothing: give up on this frame.
    Failed,
}

/// The answer frame as it is being read from the port, at most 13 bytes.
pub struct FrameBuffer {
    bytes: Vec<u8>,
}

impl View for FrameBuffer {
    type V = Seq<u8>;

    closed spec fn view(&self) -> Seq<u8> {
        self.bytes@
    }
}

impl FrameBuffer {
    #[verifier::type_invariant]
    spec fn fits(self) -> bool {
        self.bytes@.len() <= 13
    }

    /// An empty buffer, ready for a new frame.
    pub fn new() -> (fb: FrameBuffer)
        ensures
            fb@ == Seq::<u8>::empty(),
    {
        FrameBuffer { bytes: Vec::new() }
    }

    /// How many bytes of the frame are still missing.
    pub fn remaining(&self) -> (n: usize)
        ensures
            n == 13 - self@.len(),
            self@.len() <= 13,
    {
        proof {
            use_type_invariant(self);
        }
        FRAME_LEN - self.bytes.len()
    }

    /// The bytes received so far.
    pub fn bytes(&self) -> (b: &[u8])
        ensures
            b@ == self@,
    {
        self.bytes.as_slice()
    }

    /// Takes in the bytes of one read from the port, which never hands back
    /// more than the bytes still missing. An empty read means the port gave
    /// nothing and the frame is abandoned.
    pub fn accept(&mut self, chunk: &[u8]) -> (p: FrameProgress)
        requires
            old(self)@.len() + chunk@.len() <= 13,
        ensures
            final(self)@ == old(self)@ + chunk@,
            p == (if chunk@.len() == 0 {
                FrameProgress::Failed
            } else if final(self)@.len() == 13 {
                FrameProgress::Complete
            } else {
                FrameProgress::NeedMore
            }),
    {
        proof {
            use_type_invariant(&*self);
        }
        let ghost start = self.bytes@;
        let mut bytes: Vec<u8> = Vec::new();
        std::mem::swap(&mut bytes, &mut self.bytes);
        let mut i: usize = 0;
        while i < chunk.len()
            invariant
                i <= chunk@.len(),
                start.len() + chunk@.len() <= 13,
                bytes@ == start + chunk@.subrange(0, i as int),
            decreases chunk@.len() - i,
        {
            bytes.push(chunk[i]);
            i = i + 1;
            assert(bytes@ =~= start + chunk@.subrange(0, i as int));
        }
        assert(chunk@.subrange(0, chunk@.len() as int) =~= chunk@);
        let complete = bytes.len() == FRAME_LEN;
        self.bytes = bytes;
        if chunk.len() == 0 {
            FrameProgress::Failed
        } else if complete {
            FrameProgress::Complete
        } else {
            FrameProgress::NeedMore
        }
    }

    /// Decodes the buffered frame (see [`decode_frame`]).
    pub fn decode(&self) -> (res: Option<[Option<i16>; 4]>)
        ensures
            res is Some <==> frame_accepted(self@),
            res matches Some(t) ==> t@ == frame_readings(self@),
    {
        decode_frame(self.bytes.as_slice())
    }
}

} // verus!
