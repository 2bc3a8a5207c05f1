//! Payloads of device responses: the wavelength range, and the obfuscated
//! spectrum that `GET_DATA` streams.
//!
//! `GET_DATA` payload (little-endian): status `u8`, exposure time in µs
//! `u32`, encoded exponent `u16`, serial number `u32`, `ex_info` `u64`,
//! then the encoded spectrum, two bytes per pixel.

use vstd::prelude::*;

verus! {

/// Exposure state the device reports with each spectrum.
#[derive(Debug, Clone, Copy, PartialEq, Eq, Structural)]
pub enum ExposureStatus {
    Normal,
    Over,
    Under,
}

/// Status code 0 is normal, 1 is over-exposed, anything else under-exposed.
pub open spec fn spec_status_from_code(code: u8) -> ExposureStatus {
    if code == 0 {
        ExposureStatus::Normal
    } else if code == 1 {
        ExposureStatus::Over
    } else {
        ExposureStatus::Under
    }
}

impl ExposureStatus {
    /// The status for a status code of the device.
    pub fn from_code(code: u8) -> (r: ExposureStatus)
        ensures
            r == spec_status_from_code(code),
    {
        match code {
            0 => ExposureStatus::Normal,
            1 => ExposureStatus::Over,
            _ => ExposureStatus::Under,
        }
    }
}

/// Errors in response payloads.
#[derive(Debug, Clone, Copy, PartialEq, Eq, Structural)]
pub enum PayloadError {
    /// A `GET_RANGE` response shorter than 4 bytes.
    RangeTooShort,
    /// A `GET_DATA` payload shorter than 19 bytes; holds its length.
    DataTooShort(usize),
}

/// Little-endian value of the 2 bytes of `s` at `i`.
pub open spec fn le16_at(s: Seq<u8>, i: int) -> int {
    s[i] as int + s[i + 1] as int * 256
}

/// Little-endian value of the 4 bytes of `s` at `i`.
pub open spec fn le32_at(s: Seq<u8>, i: int) -> int {
    le16_at(s, i) + le16_at(s, i + 2) * 65536
}

/// Little-endian value of the 8 bytes of `s` at `i`.
pub open spec fn le64_at(s: Seq<u8>, i: int) -> int {
    le32_at(s, i) + le32_at(s, i + 4) * 4294967296
}

/// Reads a little-endian `u16` at `i`.
pub fn read_u16_le(data: &[u8], i: usize) -> (r: u16)
    requires
        i + 2 <= data.len(),
    ensures
        r as int == le16_at(data@, i as int),
{
    (data[i] as u16) + (data[i + 1] as u16) * 256
}

/// Reads a little-endian `u32` at `i`.
pub fn read_u32_le(data: &[u8], i: usize) -> (r: u32)
    requires
        i + 4 <= data.len(),
    ensures
        r as int == le32_at(data@, i as int),
{
    let lo = read_u16_le(data, i) as u32;
    let hi = read_u16_le(data, i + 2) as u32;
    lo + hi * 65536
}

/// Reads a little-endian `u64` at `i`.
pub fn read_u64_le(data: &[u8], i: usize) -> (r: u64)
    requires
        i + 8 <= data.len(),
    ensures
        r as int == le64_at(data@, i as int),
{
    let lo = read_u32_le(data, i) as u64;
    let hi = read_u32_le(data, i + 4) as u64;
    lo + hi * 4294967296
}

/// Start and end wavelength in a `GET_RANGE` response, when it holds them.
pub open spec fn spec_range(data: Seq<u8>) -> Option<(u16, u16)> {
    if data.len() < 4 {
        None
    } else {
        Some((le16_at(data, 0) as u16, le16_at(data, 2) as u16))
    }
}

/// Parses a `GET_RANGE` response into (start, end) wavelengths in nm.
pub fn parse_range(data: &[u8]) -> (r: Result<(u16, u16), PayloadError>)
    ensures
        data@.len() < 4 <==> r == Err::<(u16, u16), PayloadError>(PayloadError::RangeTooShort),
        data@.len() >= 4 ==> r == Ok::<(u16, u16), PayloadError>(spec_range(data@).unwrap()),
{
    if data.len() < 4 {
        return Err(PayloadError::RangeTooShort);
    }
    Ok((read_u16_le(data, 0), read_u16_le(data, 2)))
}

/// Length of the fixed part of a `GET_DATA` payload.
pub const DATA_HEADER_LEN: usize = 19;

/// The fields of a `GET_DATA` payload.
pub struct DataPayload {
    pub status: ExposureStatus,
    pub exposure_time_us: u32,
    pub encoded_exponent: u16,
    pub serial: u32,
    pub ex_info: u64,
    pub encoded: Vec<u16>,
}

/// The encoded pixels: the bytes after the header taken in pairs, a
/// trailing odd byte left out.
pub open spec fn spec_encoded(data: Seq<u8>) -> Seq<u16> {
    Seq::new(((data.len() - 19) / 2) as nat, |i: int| le16_at(data, 19 + 2 * i) as u16)
}

/// `p` holds the fields that `data` encodes.
pub open spec fn payload_matches(p: DataPayload, data: Seq<u8>) -> bool {
    &&& data.len() >= 19
    &&& p.status == spec_status_from_code(data[0])
    &&& p.exposure_time_us as int == le32_at(data, 1)
    &&& p.encoded_exponent as int == le16_at(data, 5)
    &&& p.serial as int == le32_at(data, 7)
    &&& p.ex_info as int == le64_at(data, 11)
    &&& p.encoded@ == spec_encoded(data)
}

/// Parses a `GET_DATA` payload.
pub fn parse_data_payload(data: &[u8]) -> (r: Result<DataPayload, PayloadError>)
    ensures
        data@.len() < 19 <==> r is Err,
        r matches Err(e) ==> e == PayloadError::DataTooShort(data@.len() as usize),
        r matches Ok(p) ==> payload_matches(p, data@),
        r matches Ok(p) ==> 19 + 2 * p.encoded@.len() <= data@.len() < 21 + 2 * p.encoded@.len(),
        r matches Ok(p) ==> forall|i: int| 0 <= i < p.encoded@.len() ==>
            #[trigger] p.encoded@[i] as int == data@[19 + 2 * i] as int + data@[20 + 2 * i] as int * 256,
{
    if data.len() < DATA_HEADER_LEN {
        return Err(PayloadError::DataTooShort(data.len()));
    }
    let status = ExposureStatus::from_code(data[0]);
    let exposure_time_us = read_u32_le(data, 1);
    let encoded_exponent = read_u16_le(data, 5);
    let serial = read_u32_le(data, 7);
    let ex_info = read_u64_le(data, 11);
    let count: usize = (data.len() - DATA_HEADER_LEN) / 2;
    let mut encoded: Vec<u16> = Vec::with_capacity(count);
    let mut i: usize = 0;
    while i < count
        invariant
            count == (data@.len() - 19) / 2,
            data@.len() >= 19,
            data@.len() == data.len(),
            i <= count,
            encoded@ == spec_encoded(data@).take(i as int),
        decreases count - i,
    {
        assert(19 + 2 * i + 2 <= data@.len()) by (nonlinear_arith)
            requires
                count == (data@.len() - 19) / 2,
                data@.len() >= 19,
                i < count,
        ;
        let v = read_u16_le(data, DATA_HEADER_LEN + 2 * i);
        encoded.push(v);
        proof {
            assert(spec_encoded(data@).take(i + 1) =~= spec_encoded(data@).take(i as int).push(v));
        }
        i = i + 1;
    }
    assert(spec_encoded(data@).take(count as int) =~= spec_encoded(data@));
    let p = DataPayload { status, exposure_time_us, encoded_exponent, serial, ex_info, encoded };
    proof { law_payload_pixels(p, data@); }
    Ok(p)
}

/// `x` with its four bytes in reverse order.
pub open spec fn swap32(x: u32) -> u32 {
    ((x % 256) * 16777216 + ((x / 256) % 256) * 65536 + ((x / 65536) % 256) * 256 + x / 16777216) as u32
}

/// `x` with its two bytes in reverse order.
pub open spec fn swap16(x: u16) -> u16 {
    ((x % 256) * 256 + x / 256) as u16
}

/// Reverses the byte order of a `u32`.
pub fn swap_bytes_u32(x: u32) -> (r: u32)
    ensures
        r == swap32(x),
{
    (x % 256) * 16777216 + ((x / 256) % 256) * 65536 + ((x / 65536) % 256) * 256 + x / 16777216
}

/// Reverses the byte order of a `u16`.
pub fn swap_bytes_u16(x: u16) -> (r: u16)
    ensures
        r == swap16(x),
{
    (x % 256) * 256 + x / 256
}

/// Value the key derivation uses twice: the big-endian reading of the
/// exposure-time bits, XORed with `ex_info >> 16`.
pub open spec fn key_common(exposure_bits: u32, ex_info: u64) -> u64 {
    (swap32(exposure_bits) as u64) ^ (ex_info >> 16u64)
}

/// Key that unmasks the first half of the pixels.
pub open spec fn spec_key_a(exposure_bits: u32, serial: u32, ex_info: u64) -> u16 {
    (key_common(exposure_bits, ex_info) ^ (((exposure_bits as u64) ^ (serial as u64)) >> 16u64)
        ^ (serial as u64) ^ ex_info) as u16
}

/// Key that unmasks the second half of the pixels.
pub open spec fn spec_key_b(exposure_bits: u32, serial: u32, ex_info: u64) -> u16 {
    ((key_common(exposure_bits, ex_info) >> 16u64) ^ (exposure_bits as u64) ^ (serial as u64)) as u16
}

/// Derives the two unmasking keys from the bit pattern of the exposure
/// time in ms as an `f32`, the serial number and `ex_info`.
pub fn derive_keys(exposure_bits: u32, serial: u32, ex_info: u64) -> (r: (u16, u16))
    ensures
        r.0 == spec_key_a(exposure_bits, serial, ex_info),
        r.1 == spec_key_b(exposure_bits, serial, ex_info),
{
    let et_be: u64 = swap_bytes_u32(exposure_bits) as u64;
    let common: u64 = et_be ^ (ex_info >> 16u64);
    let key_a = (common ^ (((exposure_bits as u64) ^ (serial as u64)) >> 16u64) ^ (serial as u64)
        ^ ex_info) as u16;
    let key_b = ((common >> 16u64) ^ (exposure_bits as u64) ^ (serial as u64)) as u16;
    (key_a, key_b)
}

/// The decimal exponent: the byte-swapped encoded exponent XOR 8848.
pub open spec fn spec_exponent(encoded_exponent: u16) -> u16 {
    swap16(encoded_exponent) ^ 8848u16
}

/// Decodes the exponent; intensities are raw counts divided by 10 to its power.
pub fn decode_exponent(encoded_exponent: u16) -> (r: u16)
    ensures
        r == spec_exponent(encoded_exponent),
{
    swap_bytes_u16(encoded_exponent) ^ 8848u16
}

/// The key for pixel `i` of `len`: `key_a` for the first half, `key_b` after.
pub open spec fn key_for(i: int, len: int, key_a: u16, key_b: u16) -> u16 {
    if i < len / 2 {
        key_a
    } else {
        key_b
    }
}

/// `encoded` with each pixel XORed with its key.
pub open spec fn spec_unmask(encoded: Seq<u16>, key_a: u16, key_b: u16) -> Seq<u16> {
    Seq::new(encoded.len(), |i: int| encoded[i] ^ key_for(i, encoded.len() as int, key_a, key_b))
}

/// Unmasks the encoded pixels.
pub fn unmask_spectrum(encoded: &[u16], key_a: u16, key_b: u16) -> (r: Vec<u16>)
    ensures
        r@ == spec_unmask(encoded@, key_a, key_b),
        r@.len() == encoded@.len(),
        forall|i: int| 0 <= i < encoded@.len() ==> #[trigger] r@[i] == encoded@[i] ^ (
            if 2 * i + 2 <= encoded@.len() { key_a } else { key_b }),
{
    proof { law_unmask_halves(encoded@, key_a, key_b); }
    let mid = encoded.len() / 2;
    let mut r: Vec<u16> = Vec::with_capacity(encoded.len());
    let mut i: usize = 0;
    while i < encoded.len()
        invariant
            mid == encoded@.len() / 2,
            i <= encoded@.len(),
            r@ == spec_unmask(encoded@, key_a, key_b).take(i as int),
        decreases encoded.len() - i,
    {
        let key = if i < mid { key_a } else { key_b };
        r.push(encoded[i] ^ key);
        proof {
            assert(spec_unmask(encoded@, key_a, key_b).take(i + 1) =~= spec_unmask(encoded@, key_a, key_b).take(i as int).push(encoded@[i as int] ^ key));
        }
        i = i + 1;
    }
    assert(spec_unmask(encoded@, key_a, key_b).take(encoded.len() as int) =~= spec_unmask(encoded@, key_a, key_b));
    r
}

/// Every pixel of a payload is one complete byte pair after the 19-byte
/// header, read little-endian, in order, and every complete pair is a pixel.
pub proof fn law_payload_pixels(p: DataPayload, data: Seq<u8>)
    requires
        payload_matches(p, data),
    ensures
        19 + 2 * p.encoded@.len() <= data.len() < 21 + 2 * p.encoded@.len(),
        forall|i: int| 0 <= i < p.encoded@.len() ==>
            #[trigger] p.encoded@[i] as int == data[19 + 2 * i] as int + data[20 + 2 * i] as int * 256,
{
    let n = p.encoded@.len() as int;
    let m = data.len() - 19;
    assert(n == m / 2);
    assert(2 * n <= m < 2 * n + 2) by (nonlinear_arith)
        requires
            n == m / 2,
            m >= 0,
    ;
}

/// The first `len / 2` pixels (those with `2i + 2 <= len`) are unmasked with
/// `key_a`, all the others with `key_b`, and no pixel is added or lost.
pub proof fn law_unmask_halves(encoded: Seq<u16>, key_a: u16, key_b: u16)
    ensures
        spec_unmask(encoded, key_a, key_b).len() == encoded.len(),
        forall|i: int| 0 <= i < encoded.len() ==> #[trigger] spec_unmask(encoded, key_a, key_b)[i]
            == encoded[i] ^ (if 2 * i + 2 <= encoded.len() { key_a } else { key_b }),
{
    let len = encoded.len() as int;
    assert forall|i: int| 0 <= i < len implies #[trigger] spec_unmask(encoded, key_a, key_b)[i]
        == encoded[i] ^ (if 2 * i + 2 <= len { key_a } else { key_b }) by {
        assert(i < len / 2 <==> 2 * i + 2 <= len) by (nonlinear_arith)
            requires
                0 <= i,
                0 <= len,
        ;
    }
}

/// Unmasking twice with the same keys gives back the encoded pixels.
pub proof fn law_unmask_involution(encoded: Seq<u16>, key_a: u16, key_b: u16)
    ensures
        spec_unmask(spec_unmask(encoded, key_a, key_b), key_a, key_b) == encoded,
{
    let once = spec_unmask(encoded, key_a, key_b);
    let twice = spec_unmask(once, key_a, key_b);
    assert forall|i: int| 0 <= i < encoded.len() implies twice[i] == encoded[i] by {
        let k = key_for(i, encoded.len() as int, key_a, key_b);
        let v = encoded[i];
        assert((v ^ k) ^ k == v) by (bit_vector);
    }
    assert(twice =~= encoded);
}

/// Swapping the bytes of a `u32` twice gives it back.
pub proof fn law_swap32_involution(x: u32)
    ensures
        swap32(swap32(x)) == x,
{
    let b0 = x % 256;
    let b1 = (x / 256) % 256;
    let b2 = (x / 65536) % 256;
    let b3 = x / 16777216;
    assert(x == b0 + b1 * 256 + b2 * 65536 + b3 * 16777216) by (nonlinear_arith)
        requires
            b0 == x % 256,
            b1 == (x / 256) % 256,
            b2 == (x / 65536) % 256,
            b3 == x / 16777216,
    ;
    let y = swap32(x);
    assert(y == b3 + b2 * 256 + b1 * 65536 + b0 * 16777216);
    assert(y % 256 == b3 && (y / 256) % 256 == b2 && (y / 65536) % 256 == b1 && y / 16777216 == b0)
        by (nonlinear_arith)
        requires
            y == b3 + b2 * 256 + b1 * 65536 + b0 * 16777216,
            b0 < 256,
            b1 < 256,
            b2 < 256,
            b3 < 256,
    ;
}

} // verus!
