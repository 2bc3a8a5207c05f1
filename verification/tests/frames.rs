use tobes_rs::frame::{build_frame, checksum, MsgType};
use tobes_rs::reader::FrameReader;

/// A frame as the device sends it.
fn device_frame(msg_type: u8, payload: &[u8]) -> Vec<u8> {
    let total = 9 + payload.len();
    let mut f = vec![0xCC, 0x81, (total & 0xFF) as u8, ((total >> 8) & 0xFF) as u8, ((total >> 16) & 0xFF) as u8, msg_type];
    f.extend_from_slice(payload);
    let chk = f.iter().fold(0u8, |a, &b| a.wrapping_add(b));
    f.push(chk);
    f.push(0x0D);
    f.push(0x0A);
    f
}

#[test]
fn checksum_sums_bytes() {
    assert_eq!(checksum(&[]), 0);
    assert_eq!(checksum(&[1, 2, 3]), 6);
}

#[test]
fn checksum_wraps() {
    assert_eq!(checksum(&[0xFF, 0x02]), 0x01);
    assert_eq!(checksum(&[0x80, 0x80, 0x80]), 0x80);
}

#[test]
fn build_frame_get_data_without_payload() {
    let f = build_frame(0x33, &[]);
    assert_eq!(f, vec![0xCC, 0x01, 0x09, 0x00, 0x00, 0x33, 0x09, 0x0D, 0x0A]);
}

#[test]
fn build_frame_with_payload() {
    let f = build_frame(0x0C, &[0x10, 0x20]);
    assert_eq!(f.len(), 11);
    assert_eq!(&f[..8], &[0xCC, 0x01, 0x0B, 0x00, 0x00, 0x0C, 0x10, 0x20]);
    assert_eq!(f[8], checksum(&f[..8]));
    assert_eq!(&f[9..], &[0x0D, 0x0A]);
}

#[test]
fn build_frame_length_field_spans_three_bytes() {
    let payload = vec![0u8; 70000];
    let f = build_frame(0x33, &payload);
    let total = 70009usize;
    assert_eq!(f[2], (total & 0xFF) as u8);
    assert_eq!(f[3], ((total >> 8) & 0xFF) as u8);
    assert_eq!(f[4], ((total >> 16) & 0xFF) as u8);
}

#[test]
fn msg_type_codes() {
    assert_eq!(MsgType::Stop.code(), 0x04);
    assert_eq!(MsgType::GetDeviceId.code(), 0x08);
    assert_eq!(MsgType::SetExposureMode.code(), 0x0A);
    assert_eq!(MsgType::GetExposureMode.code(), 0x0B);
    assert_eq!(MsgType::SetExposureValue.code(), 0x0C);
    assert_eq!(MsgType::GetExposureValue.code(), 0x0D);
    assert_eq!(MsgType::GetRange.code(), 0x0F);
    assert_eq!(MsgType::GetData.code(), 0x33);
}

#[test]
fn reader_takes_a_whole_frame() {
    let mut r = FrameReader::new();
    let frame = device_frame(0x0F, &[0x54, 0x01, 0xE8, 0x03]);
    assert!(!r.parse_would_panic());
    let got = r.read_frame(&frame);
    assert_eq!(got, Some((0x0F, vec![0x54, 0x01, 0xE8, 0x03])));
    assert_eq!(r.buffered(), Vec::<u8>::new());
}

#[test]
fn reader_keeps_bytes_after_the_frame() {
    let mut r = FrameReader::new();
    let mut bytes = device_frame(0x33, &[1, 2, 3]);
    bytes.extend_from_slice(&[0xCC, 0x81, 0x0A]);
    let got = r.read_frame(&bytes);
    assert_eq!(got, Some((0x33, vec![1, 2, 3])));
    assert_eq!(r.buffered(), vec![0xCC, 0x81, 0x0A]);
}

#[test]
fn reader_skips_noise_before_a_header() {
    let mut r = FrameReader::new();
    let mut bytes = vec![0x00, 0xCC, 0x01, 0x81, 0x55];
    bytes.extend_from_slice(&device_frame(0x33, &[9, 8]));
    let got = r.read_frame(&bytes);
    assert_eq!(got, Some((0x33, vec![9, 8])));
}

#[test]
fn reader_waits_for_a_split_frame() {
    let mut r = FrameReader::new();
    let frame = device_frame(0x33, &[7, 7, 7, 7]);
    assert_eq!(r.read_frame(&frame[..3]), None);
    assert_eq!(r.buffered(), frame[..3].to_vec());
    assert_eq!(r.read_frame(&frame[3..8]), None);
    assert_eq!(r.buffered(), frame[..8].to_vec());
    assert_eq!(r.read_frame(&frame[8..]), Some((0x33, vec![7, 7, 7, 7])));
}

#[test]
fn reader_drops_header_byte_on_bad_checksum() {
    let mut r = FrameReader::new();
    let mut frame = device_frame(0x33, &[1, 2]);
    let n = frame.len();
    frame[n - 3] = frame[n - 3].wrapping_add(1);
    assert_eq!(r.read_frame(&frame), None);
    assert_eq!(r.buffered(), frame[1..].to_vec());
    // The next attempt skips the rest of the corrupt frame's start.
    assert_eq!(r.read_frame(&[]), None);
}

#[test]
fn reader_drops_header_byte_on_bad_trailer() {
    let mut r = FrameReader::new();
    let mut frame = device_frame(0x33, &[1, 2]);
    let n = frame.len();
    frame[n - 1] = 0x00;
    assert_eq!(r.read_frame(&frame), None);
    assert_eq!(r.buffered(), frame[1..].to_vec());
}

#[test]
fn reader_resyncs_after_corrupt_frame() {
    let mut r = FrameReader::new();
    let mut bad = device_frame(0x33, &[1, 2]);
    let n = bad.len();
    bad[n - 3] ^= 0xFF;
    let good = device_frame(0x0F, &[0x54, 0x01, 0xE8, 0x03]);
    let mut bytes = bad.clone();
    bytes.extend_from_slice(&good);
    assert_eq!(r.read_frame(&bytes), None);
    assert_eq!(r.read_frame(&[]), Some((0x0F, vec![0x54, 0x01, 0xE8, 0x03])));
}

#[test]
fn reader_keeps_last_byte_of_noise() {
    let mut r = FrameReader::new();
    assert_eq!(r.read_frame(&[0x01, 0x02, 0xCC]), None);
    assert_eq!(r.buffered(), vec![0xCC]);
}

#[test]
fn reader_flags_lengths_that_cannot_be() {
    let mut r = FrameReader::new();
    r.feed(&[0xCC, 0x81, 0x00, 0x00, 0x00]);
    assert!(r.parse_would_panic());
    let mut r2 = FrameReader::new();
    // Length 8 with a correct checksum and trailer.
    r2.feed(&[0xCC, 0x81, 0x08, 0x00, 0x00, 0x55, 0x0D, 0x0A]);
    assert!(r2.parse_would_panic());
    let mut r3 = FrameReader::new();
    r3.feed(&device_frame(0x33, &[]));
    assert!(!r3.parse_would_panic());
}
