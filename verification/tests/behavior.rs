use cobs_rs::stuff;
use cobs_rs::unstuff;
use cobs_rs::MarkerInfo;
use cobs_rs::UnstuffError;

#[test]
fn tracker_patches_distance_and_advances() {
    let mut tracker = MarkerInfo { index: 0, points_to: 255 };
    let mut buffer = vec![0u8; 8];
    tracker.adjust_accordingly(&mut buffer, 3);
    assert_eq!(buffer, vec![3, 0, 0, 0, 0, 0, 0, 0]);
    assert_eq!(tracker.index, 3);
    assert_eq!(tracker.points_to, 258);
    tracker.adjust_accordingly(&mut buffer, 7);
    assert_eq!(buffer, vec![3, 0, 0, 4, 0, 0, 0, 0]);
    assert_eq!(tracker.index, 7);
    assert_eq!(tracker.points_to, 262);
}

#[test]
fn tracker_takes_full_byte_distance() {
    let mut tracker = MarkerInfo { index: 0, points_to: 255 };
    let mut buffer = vec![0u8; 256];
    tracker.adjust_accordingly(&mut buffer, 255);
    assert_eq!(buffer[0], 0xff);
    assert_eq!(tracker.index, 255);
    assert_eq!(tracker.points_to, 510);
}

fn marker_free(len: usize) -> Vec<u8> {
    (0..len).map(|k| (k % 255) as u8 + 1).collect()
}

#[test]
fn boundary_253_needs_no_break() {
    let data = marker_free(253);
    let out = stuff(&data, 0x00, 255);
    let mut expected = vec![254u8];
    expected.extend_from_slice(&data);
    expected.push(0x00);
    assert_eq!(out, expected);
}

#[test]
fn boundary_254_needs_no_break() {
    let data = marker_free(254);
    let out = stuff(&data, 0x00, 256);
    let mut expected = vec![0xffu8];
    expected.extend_from_slice(&data);
    expected.push(0x00);
    assert_eq!(out, expected);
}

#[test]
fn boundary_255_breaks_once() {
    let data = marker_free(255);
    let out = stuff(&data, 0x00, 258);
    let mut expected = vec![0xffu8];
    expected.extend_from_slice(&data[..254]);
    expected.push(0x02);
    expected.push(data[254]);
    expected.push(0x00);
    assert_eq!(out, expected);
    // 255 payload bytes cost exactly 255 + 2 + 255 / 254 frame bytes.
    assert_eq!(unstuff(&out, 0x00, 255).unwrap(), (data, 258));
}

#[test]
fn break_then_marker_adjacent_distance() {
    // 255 bytes, all 0xff but the last one 0x01: a forced break lands right
    // at the run boundary and is followed by a distance byte of 2.
    let mut data = vec![0xffu8; 255];
    data[254] = 0x01;
    let mut expected = vec![0xffu8];
    expected.extend_from_slice(&vec![0xffu8; 254]);
    expected.push(0x02);
    expected.push(0x01);
    expected.push(0x00);
    let out = stuff(&data, 0x00, 258);
    assert_eq!(out, expected);
    assert_eq!(unstuff(&out, 0x00, 255).unwrap(), (data, 258));
}

#[test]
fn empty_buffer_round_trips() {
    let data: Vec<u8> = Vec::new();
    let out = stuff(&data, 0x00, 2);
    assert_eq!(out, vec![0x01, 0x00]);
    assert_eq!(unstuff(&out, 0x00, 0).unwrap(), (Vec::new(), 2));
}

#[test]
fn trailing_space_keeps_marker_fill() {
    let out = stuff(&vec![0x11], 0x00, 6);
    assert_eq!(out, vec![0x02, 0x11, 0x00, 0x00, 0x00, 0x00]);
    let out = stuff(&vec![0x11], 0x07, 6);
    assert_eq!(out, vec![0x02, 0x11, 0x07, 0x07, 0x07, 0x07]);
}

#[test]
fn no_marker_except_terminator() {
    let data = vec![0x00, 0x11, 0x00, 0x00, 0x22, 0x33, 0x00];
    let out = stuff(&data, 0x00, 9);
    for k in 0..out.len() - 1 {
        assert_ne!(out[k], 0x00);
    }
    assert_eq!(out[out.len() - 1], 0x00);
}

#[test]
fn nonzero_marker_round_trips() {
    let marker = b'i';
    let data = b"Hi everyone! This is a pretty nifty example.".to_vec();
    let out = stuff(&data, marker, 64);
    // The frame takes 44 payload bytes plus the leading distance byte and
    // the terminator; everything after it is marker fill.
    for k in 0..45 {
        assert_ne!(out[k], marker);
    }
    assert_eq!(out[45], marker);
    let (back, used) = unstuff(&out, marker, data.len()).unwrap();
    assert_eq!(back, data);
    assert_eq!(used, 46);
}

#[test]
fn nonzero_marker_concrete_frame() {
    let data = vec![0x10, 0x69, 0x20];
    let out = stuff(&data, 0x69, 5);
    assert_eq!(out, vec![0x02, 0x10, 0x02, 0x20, 0x69]);
    assert_eq!(unstuff(&out, 0x69, 3).unwrap(), (data, 5));
}

#[test]
fn missing_terminator_is_an_error() {
    assert_eq!(
        unstuff(&vec![0x03, 0x11, 0x22], 0x00, 4),
        Err(UnstuffError::MissingTerminator)
    );
    assert_eq!(
        unstuff(&vec![0x01, 0x02, 0x03], 0x07, 4),
        Err(UnstuffError::MissingTerminator)
    );
    assert_eq!(unstuff(&Vec::new(), 0x00, 4), Err(UnstuffError::MissingTerminator));
}

#[test]
fn decoding_stops_at_first_marker() {
    // Bytes past the terminator are never read.
    let frame = vec![0x02, 0x11, 0x00, 0xaa, 0xbb];
    assert_eq!(unstuff(&frame, 0x00, 3).unwrap(), (vec![0x11, 0x00, 0x00], 3));
}

#[test]
fn overhead_grows_by_one_per_254_payload_bytes() {
    // Marker-free payloads off the 254 boundary: frame length is exactly
    // len + 2 + len / 254, observed through the consumed length reported
    // back by unstuff.
    for len in [0usize, 1, 100, 253, 255, 300, 507, 509] {
        let data = marker_free(len);
        let budget = len + 2 + len / 254;
        let out = stuff(&data, 0x00, budget);
        let (back, used) = unstuff(&out, 0x00, len).unwrap();
        assert_eq!(back, data);
        assert_eq!(used, budget);
    }
}
