//! Frames on the wire.
//!
//! Outgoing frame: `CC 01 <len:3LE> <type:1> <data> <checksum:1> 0D 0A`.
//! Incoming frame: `CC 81 <len:3LE> <type:1> <data> <checksum:1> 0D 0A`.
//! The length counts the whole frame (9 bytes plus the data); the checksum
//! is the wrapping sum of every byte before it.

use vstd::prelude::*;
use vstd::arithmetic::div_mod::lemma_add_mod_noop;

verus! {

/// First byte of every frame.
pub const FRAME_START: u8 = 0xCC;
/// Second byte of a frame sent to the device.
pub const DIR_TO_DEVICE: u8 = 0x01;
/// Second byte of a frame sent by the device.
pub const DIR_FROM_DEVICE: u8 = 0x81;
/// Number of framing bytes around the data.
pub const FRAME_OVERHEAD: usize = 9;

/// Sum of the bytes, as an unbounded natural number.
pub open spec fn byte_sum(s: Seq<u8>) -> nat
    decreases s.len(),
{
    if s.len() == 0 {
        0
    } else {
        byte_sum(s.drop_last()) + s.last() as nat
    }
}

/// The checksum of a byte sequence: its sum modulo 256.
pub open spec fn spec_checksum(s: Seq<u8>) -> u8 {
    (byte_sum(s) % 256) as u8
}

/// The three little-endian bytes of the low 24 bits of `n`.
pub open spec fn le24(n: nat) -> Seq<u8> {
    seq![(n % 256) as u8, ((n / 256) % 256) as u8, ((n / 65536) % 256) as u8]
}

/// Everything of a frame up to, not including, its checksum.
pub open spec fn frame_body(dir: u8, msg_type: u8, payload: Seq<u8>) -> Seq<u8> {
    seq![FRAME_START, dir] + le24((9 + payload.len()) as nat) + seq![msg_type] + payload
}

/// The complete frame with direction byte `dir`.
pub open spec fn frame_bytes(dir: u8, msg_type: u8, payload: Seq<u8>) -> Seq<u8> {
    let body = frame_body(dir, msg_type, payload);
    body + seq![spec_checksum(body), 0x0Du8, 0x0Au8]
}

/// The checksum of `a + b` is the wrapping sum of the checksums of `a` and `b`.
pub proof fn law_checksum_concat(a: Seq<u8>, b: Seq<u8>)
    ensures
        byte_sum(a + b) == byte_sum(a) + byte_sum(b),
        spec_checksum(a + b) as int == (spec_checksum(a) as int + spec_checksum(b) as int) % 256,
    decreases b.len(),
{
    if b.len() == 0 {
        assert(a + b =~= a);
    } else {
        law_checksum_concat(a, b.drop_last());
        assert((a + b).drop_last() =~= a + b.drop_last());
        assert((a + b).last() == b.last());
    }
    lemma_add_mod_noop(byte_sum(a) as int, byte_sum(b) as int, 256);
}

/// Wrapping byte sum of the first `n` bytes of `data`.
pub fn checksum_prefix(data: &[u8], n: usize) -> (r: u8)
    requires
        n <= data.len(),
    ensures
        r == spec_checksum(data@.take(n as int)),
{
    let mut acc: u8 = 0;
    let mut i: usize = 0;
    while i < n
        invariant
            i <= n <= data.len(),
            acc == spec_checksum(data@.take(i as int)),
        decreases n - i,
    {
        proof {
            assert(data@.take(i + 1).drop_last() =~= data@.take(i as int));
            lemma_add_mod_noop(byte_sum(data@.take(i as int)) as int, data@[i as int] as int, 256);
        }
        acc = acc.wrapping_add(data[i]);
        i = i + 1;
    }
    acc
}

/// Wrapping byte sum of `data`.
pub fn checksum(data: &[u8]) -> (r: u8)
    ensures
        r == spec_checksum(data@),
{
    assert(data@.take(data.len() as int) =~= data@);
    checksum_prefix(data, data.len())
}

/// Message types of the protocol.
#[derive(Debug, Clone, Copy, PartialEq, Eq, Structural)]
pub enum MsgType {
    Stop,
    GetDeviceId,
    SetExposureMode,
    GetExposureMode,
    SetExposureValue,
    GetExposureValue,
    GetRange,
    GetData,
}

/// The byte that stands for each message type on the wire.
pub open spec fn spec_msg_code(m: MsgType) -> u8 {
    match m {
        MsgType::Stop => 0x04,
        MsgType::GetDeviceId => 0x08,
        MsgType::SetExposureMode => 0x0A,
        MsgType::GetExposureMode => 0x0B,
        MsgType::SetExposureValue => 0x0C,
        MsgType::GetExposureValue => 0x0D,
        MsgType::GetRange => 0x0F,
        MsgType::GetData => 0x33,
    }
}

impl MsgType {
    /// The byte of this message type.
    pub fn code(self) -> (r: u8)
        ensures
            r == spec_msg_code(self),
    {
        match self {
            MsgType::Stop => 0x04,
            MsgType::GetDeviceId => 0x08,
            MsgType::SetExposureMode => 0x0A,
            MsgType::GetExposureMode => 0x0B,
            MsgType::SetExposureValue => 0x0C,
            MsgType::GetExposureValue => 0x0D,
            MsgType::GetRange => 0x0F,
            MsgType::GetData => 0x33,
        }
    }
}

/// Builds the frame that sends `msg_type` with `payload` to the device.
pub fn build_frame(msg_type: u8, payload: &[u8]) -> (f: Vec<u8>)
    requires
        payload.len() + 9 <= usize::MAX,
    ensures
        f@ == frame_bytes(DIR_TO_DEVICE, msg_type, payload@),
        f@.len() == payload.len() + 9,
{
    let total = FRAME_OVERHEAD + payload.len();
    let mut f: Vec<u8> = Vec::with_capacity(total);
    f.push(FRAME_START);
    f.push(DIR_TO_DEVICE);
    f.push((total % 256) as u8);
    f.push(((total / 256) % 256) as u8);
    f.push(((total / 65536) % 256) as u8);
    f.push(msg_type);
    let ghost head = f@;
    let mut i: usize = 0;
    while i < payload.len()
        invariant
            i <= payload.len(),
            head.len() == 6,
            f@ == head + payload@.take(i as int),
        decreases payload.len() - i,
    {
        f.push(payload[i]);
        proof {
            assert(payload@.take(i + 1) =~= payload@.take(i as int).push(payload@[i as int]));
        }
        i = i + 1;
    }
    assert(payload@.take(payload.len() as int) =~= payload@);
    assert(f@ =~= frame_body(DIR_TO_DEVICE, msg_type, payload@));
    let chk = checksum(f.as_slice());
    f.push(chk);
    f.push(0x0D);
    f.push(0x0A);
    f
}

} // verus!
