//! The TorchBearer protocol, apart from the serial line: which frames to
//! send, what to make of the bytes that come back, and how a `GET_DATA`
//! payload becomes a spectrum of raw counts over a wavelength axis.

use vstd::prelude::*;
use crate::frame::{build_frame, frame_bytes, spec_msg_code, MsgType, DIR_TO_DEVICE};
use crate::payload::{
    law_unmask_halves,
    derive_keys, decode_exponent, parse_data_payload, parse_range, payload_matches, spec_exponent,
    spec_key_a, spec_key_b, spec_range, spec_unmask, unmask_spectrum, DataPayload, ExposureStatus,
    PayloadError,
};
use crate::reader::{parse_panics, parse_step, FrameReader};

verus! {

/// Wavelength the range starts at before the device has reported its own.
pub const DEFAULT_WAVELENGTH_START: u16 = 340;
/// Wavelength the range ends at before the device has reported its own.
pub const DEFAULT_WAVELENGTH_END: u16 = 1000;

/// A range whose pixel count `end - start + 1` is a `u16`.
pub open spec fn range_fits(start: u16, end: u16) -> bool {
    start <= end && end - start < 65535
}

/// Number of pixels in a spectrum: the range's pixel count, or fewer if
/// the device sent fewer.
pub open spec fn spec_pixel_count(start: u16, end: u16, available: nat) -> nat {
    let in_range = (end - start + 1) as nat;
    if in_range < available {
        in_range
    } else {
        available
    }
}

/// The wavelength axis: `n` consecutive wavelengths from `start`.
pub open spec fn spec_axis(start: u16, n: nat) -> Seq<u16> {
    Seq::new(n, |i: int| (start + i) as u16)
}

/// A spectrum in raw counts, before they are scaled to intensities by
/// `10^exponent`.
pub struct SpectrumCounts {
    pub status: ExposureStatus,
    pub exposure_time_us: u32,
    pub exponent: u16,
    pub wavelengths: Vec<u16>,
    pub counts: Vec<u16>,
    pub wavelength_start: u16,
    pub wavelength_end: u16,
}

/// The spectrum that payload `p` gives, for exposure-time bits
/// `exposure_bits` and the range `start..=end`.
pub open spec fn counts_match(
    c: SpectrumCounts,
    p: DataPayload,
    exposure_bits: u32,
    start: u16,
    end: u16,
) -> bool {
    let n = spec_pixel_count(start, end, p.encoded@.len());
    let key_a = spec_key_a(exposure_bits, p.serial, p.ex_info);
    let key_b = spec_key_b(exposure_bits, p.serial, p.ex_info);
    &&& c.status == p.status
    &&& c.exposure_time_us == p.exposure_time_us
    &&& c.exponent == spec_exponent(p.encoded_exponent)
    &&& c.counts@ == spec_unmask(p.encoded@, key_a, key_b).take(n as int)
    &&& c.wavelengths@ == spec_axis(start, n)
    &&& c.wavelength_start == start
    &&& c.wavelength_end == end
}

/// Unmasks the pixels of `p` and lays them over the wavelengths from
/// `start`, as many as the range holds and the device sent.
/// `exposure_bits` is the bit pattern of the exposure time in ms as `f32`.
pub fn decode_counts(p: &DataPayload, exposure_bits: u32, start: u16, end: u16) -> (c:
    SpectrumCounts)
    requires
        range_fits(start, end),
    ensures
        counts_match(c, *p, exposure_bits, start, end),
        c.counts@.len() == (if end - start + 1 <= p.encoded@.len() { end - start + 1 } else { p.encoded@.len() as int }),
        c.wavelengths@.len() == c.counts@.len(),
        p.encoded@.len() >= end - start + 1 ==> c.wavelengths@.last() == end,
{
    let (key_a, key_b) = derive_keys(exposure_bits, p.serial, p.ex_info);
    let all = unmask_spectrum(p.encoded.as_slice(), key_a, key_b);
    let pixel_count: usize = (end - start + 1) as usize;
    let n: usize = if pixel_count < all.len() { pixel_count } else { all.len() };
    let mut counts: Vec<u16> = Vec::with_capacity(n);
    let mut wavelengths: Vec<u16> = Vec::with_capacity(n);
    let mut i: usize = 0;
    while i < n
        invariant
            n <= all@.len(),
            n <= pixel_count,
            pixel_count == end - start + 1,
            range_fits(start, end),
            i <= n,
            counts@ == all@.take(i as int),
            wavelengths@ == spec_axis(start, n as nat).take(i as int),
        decreases n - i,
    {
        counts.push(all[i]);
        wavelengths.push(start + i as u16);
        proof {
            assert(counts@ =~= all@.take(i + 1));
            assert(wavelengths@ =~= spec_axis(start, n as nat).take(i + 1));
        }
        i = i + 1;
    }
    proof {
        assert(spec_axis(start, n as nat).take(n as int) =~= spec_axis(start, n as nat));
    }
    let c = SpectrumCounts {
        status: p.status,
        exposure_time_us: p.exposure_time_us,
        exponent: decode_exponent(p.encoded_exponent),
        wavelengths,
        counts,
        wavelength_start: start,
        wavelength_end: end,
    };
    proof { law_decode_counts_length(c, *p, exposure_bits, start, end); }
    c
}

/// The wavelength axis of a decoded spectrum starts at the range's start,
/// goes up by one nm per pixel, has one wavelength per count, and never
/// passes the range's end.
pub proof fn law_axis_within_range(c: SpectrumCounts, p: DataPayload, exposure_bits: u32, start: u16, end: u16)
    requires
        range_fits(start, end),
        counts_match(c, p, exposure_bits, start, end),
    ensures
        c.wavelengths@.len() == c.counts@.len(),
        c.counts@.len() <= p.encoded@.len(),
        forall|i: int| 0 <= i < c.wavelengths@.len() ==> c.wavelengths@[i] == start + i,
        forall|i: int| 0 <= i < c.wavelengths@.len() ==> start <= #[trigger] c.wavelengths@[i] <= end,
{
}

/// A decoded spectrum has `min(end - start + 1, pixels sent)` counts and as
/// many wavelengths; when the device sent at least as many pixels as the
/// range holds, the axis runs all the way to the range's end. Count `i` is
/// encoded pixel `i` unmasked with `key_a` in the first half of the pixels
/// sent and `key_b` after.
pub proof fn law_decode_counts_length(c: SpectrumCounts, p: DataPayload, exposure_bits: u32, start: u16, end: u16)
    requires
        range_fits(start, end),
        counts_match(c, p, exposure_bits, start, end),
    ensures
        c.counts@.len() == (if end - start + 1 <= p.encoded@.len() { end - start + 1 } else { p.encoded@.len() as int }),
        c.wavelengths@.len() == c.counts@.len(),
        p.encoded@.len() >= end - start + 1 ==> c.wavelengths@.last() == end,
        forall|i: int| 0 <= i < c.counts@.len() ==> #[trigger] c.counts@[i] == p.encoded@[i] ^ (
            if 2 * i + 2 <= p.encoded@.len() {
                spec_key_a(exposure_bits, p.serial, p.ex_info)
            } else {
                spec_key_b(exposure_bits, p.serial, p.ex_info)
            }),
{
    law_unmask_halves(p.encoded@, spec_key_a(exposure_bits, p.serial, p.ex_info), spec_key_b(exposure_bits, p.serial, p.ex_info));
}

/// The protocol state of one spectrometer: the bytes read but not yet
/// taken as frames, and the wavelength range.
pub struct TorchBearer {
    pub reader: FrameReader,
    pub wavelength_start: u16,
    pub wavelength_end: u16,
}

/// The data of the frame taken, if there was one and it has type `expected`.
pub open spec fn spec_recv(frame: Option<(u8, Seq<u8>)>, expected: u8) -> Option<Seq<u8>> {
    match frame {
        Some((t, d)) => if t == expected {
            Some(d)
        } else {
            None
        },
        None => None,
    }
}

impl TorchBearer {
    /// Bytes read from the device and not yet taken as frames.
    pub open spec fn pending(&self) -> Seq<u8> {
        self.reader@
    }

    /// A device state before any byte was read: the default range and an
    /// empty buffer.
    pub fn new() -> (tb: TorchBearer)
        ensures
            tb.wavelength_start == DEFAULT_WAVELENGTH_START,
            tb.wavelength_end == DEFAULT_WAVELENGTH_END,
            tb.pending() == Seq::<u8>::empty(),
    {
        TorchBearer {
            reader: FrameReader::new(),
            wavelength_start: DEFAULT_WAVELENGTH_START,
            wavelength_end: DEFAULT_WAVELENGTH_END,
        }
    }

    /// The frame that sends `msg_type` with `payload`.
    pub fn send(&self, msg_type: u8, payload: &[u8]) -> (f: Vec<u8>)
        requires
            payload.len() + 9 <= usize::MAX,
        ensures
            f@ == frame_bytes(DIR_TO_DEVICE, msg_type, payload@),
    {
        build_frame(msg_type, payload)
    }

    /// The frame that asks for the wavelength range.
    pub fn query_range(&self) -> (f: Vec<u8>)
        ensures
            f@ == frame_bytes(DIR_TO_DEVICE, spec_msg_code(MsgType::GetRange), Seq::<u8>::empty()),
    {
        let empty: [u8; 0] = [];
        assert(empty@ =~= Seq::<u8>::empty());
        self.send(MsgType::GetRange.code(), &empty)
    }

    /// The frame that begins continuous acquisition.
    pub fn start_streaming(&self) -> (f: Vec<u8>)
        ensures
            f@ == frame_bytes(DIR_TO_DEVICE, spec_msg_code(MsgType::GetData), Seq::<u8>::empty()),
    {
        let empty: [u8; 0] = [];
        assert(empty@ =~= Seq::<u8>::empty());
        self.send(MsgType::GetData.code(), &empty)
    }

    /// The frame that stops continuous acquisition.
    pub fn stop_streaming(&self) -> (f: Vec<u8>)
        ensures
            f@ == frame_bytes(DIR_TO_DEVICE, spec_msg_code(MsgType::Stop), Seq::<u8>::empty()),
    {
        let empty: [u8; 0] = [];
        assert(empty@ =~= Seq::<u8>::empty());
        self.send(MsgType::Stop.code(), &empty)
    }

    /// Takes in bytes read from the device.
    pub fn feed(&mut self, chunk: &[u8])
        ensures
            final(self).pending() == old(self).pending() + chunk@,
            final(self).wavelength_start == old(self).wavelength_start,
            final(self).wavelength_end == old(self).wavelength_end,
    {
        self.reader.feed(chunk);
    }

    /// Whether the next attempt to take a frame would meet a length field
    /// the frame format cannot have.
    pub fn frame_would_panic(&self) -> (r: bool)
        ensures
            r == parse_panics(self.pending()),
    {
        self.reader.parse_would_panic()
    }

    /// One attempt to take a frame; its data if it has type `expected`.
    /// A frame of another type is taken and dropped.
    pub fn recv_type(&mut self, expected: u8) -> (r: Option<Vec<u8>>)
        requires
            !parse_panics(old(self).pending()),
        ensures
            final(self).pending() == parse_step(old(self).pending()).0,
            r.deep_view() == spec_recv(parse_step(old(self).pending()).1, expected),
            final(self).wavelength_start == old(self).wavelength_start,
            final(self).wavelength_end == old(self).wavelength_end,
    {
        match self.reader.try_parse() {
            Some((t, data)) => {
                if t == expected {
                    Some(data)
                } else {
                    None
                }
            },
            None => None,
        }
    }

    /// Takes the wavelength range from a `GET_RANGE` response; a response
    /// too short leaves the range as it was.
    pub fn apply_range(&mut self, data: &[u8]) -> (r: Result<(), PayloadError>)
        ensures
            final(self).pending() == old(self).pending(),
            data@.len() < 4 <==> r is Err,
            r matches Err(e) ==> e == PayloadError::RangeTooShort,
            r is Err ==> final(self).wavelength_start == old(self).wavelength_start
                && final(self).wavelength_end == old(self).wavelength_end,
            r is Ok ==> (final(self).wavelength_start, final(self).wavelength_end)
                == spec_range(data@).unwrap(),
    {
        match parse_range(data) {
            Ok((start, end)) => {
                self.wavelength_start = start;
                self.wavelength_end = end;
                Ok(())
            },
            Err(e) => Err(e),
        }
    }

    /// One attempt to take a spectrum frame. `None` when no frame was
    /// complete or the frame was of another type (it is dropped); otherwise
    /// the parsed payload, or the error for a payload too short.
    pub fn read_spectrum(&mut self) -> (r: Option<Result<DataPayload, PayloadError>>)
        requires
            !parse_panics(old(self).pending()),
        ensures
            final(self).pending() == parse_step(old(self).pending()).0,
            final(self).wavelength_start == old(self).wavelength_start,
            final(self).wavelength_end == old(self).wavelength_end,
            ({
                let got = spec_recv(
                    parse_step(old(self).pending()).1,
                    spec_msg_code(MsgType::GetData),
                );
                match r {
                    None => got is None,
                    Some(Err(e)) => got is Some && got.unwrap().len() < 19 && e
                        == PayloadError::DataTooShort(got.unwrap().len() as usize),
                    Some(Ok(p)) => got is Some && payload_matches(p, got.unwrap()),
                }
            }),
    {
        match self.recv_type(MsgType::GetData.code()) {
            Some(data) => {
                assert(data.deep_view() =~= data@);
                Some(parse_data_payload(data.as_slice()))
            },
            None => None,
        }
    }

    /// Decodes a payload over this device's wavelength range.
    pub fn decode(&self, p: &DataPayload, exposure_bits: u32) -> (c: SpectrumCounts)
        requires
            range_fits(self.wavelength_start, self.wavelength_end),
        ensures
            counts_match(c, *p, exposure_bits, self.wavelength_start, self.wavelength_end),
    {
        decode_counts(p, exposure_bits, self.wavelength_start, self.wavelength_end)
    }
}

} // verus!
