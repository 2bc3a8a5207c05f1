use tobes_rs::device::{decode_counts, TorchBearer};
use tobes_rs::frame::build_frame;
use tobes_rs::payload::{
    decode_exponent, derive_keys, parse_data_payload, parse_range, unmask_spectrum, ExposureStatus,
    PayloadError,
};

fn device_frame(msg_type: u8, payload: &[u8]) -> Vec<u8> {
    let total = 9 + payload.len();
    let mut f = vec![0xCC, 0x81, (total & 0xFF) as u8, ((total >> 8) & 0xFF) as u8, ((total >> 16) & 0xFF) as u8, msg_type];
    f.extend_from_slice(payload);
    let chk = f.iter().fold(0u8, |a, &b| a.wrapping_add(b));
    f.push(chk);
    f.push(0x0D);
    f.push(0x0A);
    f
}

fn data_payload(status: u8, us: u32, exp: u16, serial: u32, ex_info: u64, pixels: &[u16]) -> Vec<u8> {
    let mut d = vec![status];
    d.extend_from_slice(&us.to_le_bytes());
    d.extend_from_slice(&exp.to_le_bytes());
    d.extend_from_slice(&serial.to_le_bytes());
    d.extend_from_slice(&ex_info.to_le_bytes());
    for p in pixels {
        d.extend_from_slice(&p.to_le_bytes());
    }
    d
}

#[test]
fn exposure_status_from_code() {
    assert_eq!(ExposureStatus::from_code(0), ExposureStatus::Normal);
    assert_eq!(ExposureStatus::from_code(1), ExposureStatus::Over);
    assert_eq!(ExposureStatus::from_code(2), ExposureStatus::Under);
    assert_eq!(ExposureStatus::from_code(255), ExposureStatus::Under);
}

#[test]
fn new_device_has_default_range() {
    let tb = TorchBearer::new();
    assert_eq!(tb.wavelength_start, 340);
    assert_eq!(tb.wavelength_end, 1000);
}

#[test]
fn request_frames() {
    let tb = TorchBearer::new();
    assert_eq!(tb.query_range(), build_frame(0x0F, &[]));
    assert_eq!(tb.start_streaming(), build_frame(0x33, &[]));
    assert_eq!(tb.stop_streaming(), build_frame(0x04, &[]));
    assert_eq!(tb.send(0x0C, &[1, 2]), build_frame(0x0C, &[1, 2]));
}

#[test]
fn parse_range_reads_little_endian() {
    assert_eq!(parse_range(&[0x54, 0x01, 0xE8, 0x03]), Ok((340, 1000)));
    assert_eq!(parse_range(&[0x2C, 0x01, 0x4C, 0x04, 0xFF]), Ok((300, 1100)));
    assert_eq!(parse_range(&[0x54, 0x01, 0xE8]), Err(PayloadError::RangeTooShort));
}

#[test]
fn apply_range_updates_only_on_success() {
    let mut tb = TorchBearer::new();
    assert_eq!(tb.apply_range(&[1, 2, 3]), Err(PayloadError::RangeTooShort));
    assert_eq!((tb.wavelength_start, tb.wavelength_end), (340, 1000));
    assert_eq!(tb.apply_range(&[0x2C, 0x01, 0x4C, 0x04]), Ok(()));
    assert_eq!((tb.wavelength_start, tb.wavelength_end), (300, 1100));
}

#[test]
fn recv_type_drops_other_frames() {
    let mut tb = TorchBearer::new();
    let mut bytes = device_frame(0x33, &[0; 19]);
    bytes.extend_from_slice(&device_frame(0x0F, &[0x2C, 0x01, 0x4C, 0x04]));
    tb.feed(&bytes);
    assert!(!tb.frame_would_panic());
    assert_eq!(tb.recv_type(0x0F), None);
    assert_eq!(tb.recv_type(0x0F), Some(vec![0x2C, 0x01, 0x4C, 0x04]));
    assert_eq!(tb.recv_type(0x0F), None);
}

#[test]
fn parse_data_payload_fields() {
    let d = data_payload(1, 100_000, 0x1234, 0xDEADBEEF, 0x0102030405060708, &[10, 20, 30]);
    let mut d2 = d.clone();
    d2.push(0xAB);
    for bytes in [d, d2] {
        let p = parse_data_payload(&bytes).unwrap();
        assert_eq!(p.status, ExposureStatus::Over);
        assert_eq!(p.exposure_time_us, 100_000);
        assert_eq!(p.encoded_exponent, 0x1234);
        assert_eq!(p.serial, 0xDEADBEEF);
        assert_eq!(p.ex_info, 0x0102030405060708);
        assert_eq!(p.encoded, vec![10, 20, 30]);
    }
}

#[test]
fn parse_data_payload_too_short() {
    match parse_data_payload(&[0u8; 18]) {
        Err(e) => assert_eq!(e, PayloadError::DataTooShort(18)),
        Ok(_) => panic!("payload of 18 bytes accepted"),
    }
}

#[test]
fn read_spectrum_skips_other_types() {
    let mut tb = TorchBearer::new();
    tb.feed(&device_frame(0x0F, &[0, 0, 0, 0]));
    assert!(tb.read_spectrum().is_none());
    tb.feed(&device_frame(0x33, &[0; 5]));
    match tb.read_spectrum() {
        Some(Err(e)) => assert_eq!(e, PayloadError::DataTooShort(5)),
        _ => panic!("short payload not reported"),
    }
    tb.feed(&device_frame(0x33, &data_payload(0, 5000, 0, 7, 9, &[1, 2])));
    match tb.read_spectrum() {
        Some(Ok(p)) => {
            assert_eq!(p.status, ExposureStatus::Normal);
            assert_eq!(p.exposure_time_us, 5000);
            assert_eq!(p.encoded, vec![1, 2]);
        }
        _ => panic!("spectrum not read"),
    }
}

fn reference_keys(et_le: u32, serial: u32, ex_info: u64) -> (u16, u16) {
    let et_be: u64 = et_le.swap_bytes() as u64;
    let common: u64 = et_be ^ (ex_info >> 16);
    let key_a = (common ^ (((et_le as u64) ^ (serial as u64)) >> 16) ^ (serial as u64) ^ ex_info) as u16;
    let key_b = ((common >> 16) ^ (et_le as u64) ^ (serial as u64)) as u16;
    (key_a, key_b)
}

#[test]
fn derive_keys_matches_reference() {
    let bits = (100_000u32 as f32 / 1000.0).to_bits();
    for (b, s, e) in [(bits, 0xDEADBEEFu32, 0x0102030405060708u64), (0, 0, 0), (u32::MAX, 1, u64::MAX), (0x12345678, 0x9ABCDEF0, 0x1122334455667788)] {
        assert_eq!(derive_keys(b, s, e), reference_keys(b, s, e));
    }
}

#[test]
fn derive_keys_exact_value() {
    // 100.0f32 has bits 0x42C80000.
    assert_eq!((100_000u32 as f32 / 1000.0).to_bits(), 0x42C8_0000);
    // et_be = 0x0000C842; common = et_be ^ 0 = 0xC842
    // key_a = 0xC842 ^ ((0x42C80000 ^ 0) >> 16 = 0x42C8) = 0x8A8A, serial and ex_info 0
    // key_b = (0xC842 >> 16 = 0) ^ 0x42C80000 -> low 16 bits 0x0000
    assert_eq!(derive_keys(0x42C8_0000, 0, 0), (0x8A8A, 0x0000));
}

#[test]
fn decode_exponent_swaps_and_xors() {
    // 8848 = 0x2290; swap(0x9022) = 0x2290; 0x2290 ^ 0x2290 = 0
    assert_eq!(decode_exponent(0x9022), 0);
    // swap(0x9122) = 0x2291 -> exponent 1
    assert_eq!(decode_exponent(0x9122), 1);
    assert_eq!(decode_exponent(0x1234), 0x1234u16.swap_bytes() ^ 8848);
}

#[test]
fn unmask_uses_key_a_then_key_b() {
    let r = unmask_spectrum(&[0x0000, 0x00FF, 0xFF00, 0xFFFF, 0x1234], 0x1111, 0x2222);
    // mid = 2: indices 0, 1 use key_a, the rest key_b
    assert_eq!(r, vec![0x1111, 0x11EE, 0xDD22, 0xDDDD, 0x3016]);
}

#[test]
fn unmask_twice_restores() {
    let enc = vec![5u16, 900, 65535, 0, 42, 7];
    let once = unmask_spectrum(&enc, 0xABCD, 0x1357);
    let twice = unmask_spectrum(&once, 0xABCD, 0x1357);
    assert_eq!(twice, enc);
}

#[test]
fn decode_counts_truncates_to_range() {
    let p = parse_data_payload(&data_payload(2, 1000, 0x9122, 3, 4, &[1, 2, 3, 4, 5, 6])).unwrap();
    let bits = (1000u32 as f32 / 1000.0).to_bits();
    let (ka, kb) = reference_keys(bits, 3, 4);
    let c = decode_counts(&p, bits, 500, 503);
    assert_eq!(c.status, ExposureStatus::Under);
    assert_eq!(c.exponent, 1);
    assert_eq!(c.wavelengths, vec![500, 501, 502, 503]);
    assert_eq!(c.counts, vec![1 ^ ka, 2 ^ ka, 3 ^ ka, 4 ^ kb]);
    assert_eq!((c.wavelength_start, c.wavelength_end), (500, 503));
}

#[test]
fn decode_counts_limited_by_pixels_sent() {
    let p = parse_data_payload(&data_payload(0, 1000, 0x9022, 0, 0, &[8, 9])).unwrap();
    let c = decode_counts(&p, 0, 340, 1000);
    assert_eq!(c.wavelengths, vec![340, 341]);
    assert_eq!(c.counts.len(), 2);
}

#[test]
fn full_range_of_single_wavelength() {
    let p = parse_data_payload(&data_payload(0, 1, 0, 0, 0, &[8, 9])).unwrap();
    let c = decode_counts(&p, 0, 700, 700);
    assert_eq!(c.wavelengths, vec![700]);
    assert_eq!(c.counts, vec![8]);
}

#[test]
fn device_decode_uses_its_range() {
    let mut tb = TorchBearer::new();
    tb.apply_range(&[0x2C, 0x01, 0x2D, 0x01]).unwrap();
    let p = parse_data_payload(&data_payload(0, 1, 0, 0, 0, &[8, 9, 10])).unwrap();
    let c = tb.decode(&p, 0);
    assert_eq!(c.wavelengths, vec![300, 301]);
}
