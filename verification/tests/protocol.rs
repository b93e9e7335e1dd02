use thermocouple_logger::protocol::{
    decode_frame, decode_reading, request_command, FrameBuffer, FrameProgress, BAUD_RATE,
    FRAME_LEN, OPEN_CIRCUIT, READ_TIMEOUT_MS,
};

fn frame(readings: [i16; 4]) -> Vec<u8> {
    let mut f = vec![0x55, 0xAA, 0x01, 0x0B];
    for r in readings {
        f.extend_from_slice(&r.to_le_bytes());
    }
    f.push(0x42);
    f
}

#[test]
fn request_is_the_realtime_query() {
    assert_eq!(request_command(), [0xAA, 0x55, 0x01, 0x03, 0x03]);
    assert_eq!(BAUD_RATE, 9600);
    assert_eq!(READ_TIMEOUT_MS, 500);
    assert_eq!(FRAME_LEN, 13);
}

#[test]
fn decodes_four_channels() {
    let f = frame([275, 273, 274, -5]);
    assert_eq!(decode_frame(&f), Some([Some(275), Some(273), Some(274), Some(-5)]));
}

#[test]
fn open_circuit_reads_as_no_value() {
    let f = frame([OPEN_CIRCUIT, 0, i16::MIN, 32766]);
    assert_eq!(decode_frame(&f), Some([None, Some(0), Some(-32768), Some(32766)]));
    assert_eq!(decode_reading(0xFF, 0x7F), None);
    assert_eq!(decode_reading(0xFE, 0x7F), Some(32766));
    assert_eq!(decode_reading(0x00, 0x80), Some(-32768));
    assert_eq!(decode_reading(0xFF, 0xFF), Some(-1));
}

#[test]
fn rejects_bad_header() {
    for k in 0..3 {
        let mut f = frame([1, 2, 3, 4]);
        f[k] ^= 0x01;
        assert_eq!(decode_frame(&f), None);
    }
}

#[test]
fn ignores_length_byte_and_checksum() {
    let mut f = frame([10, 20, 30, 40]);
    f[3] = 0;
    f[12] = 0;
    assert_eq!(decode_frame(&f), Some([Some(10), Some(20), Some(30), Some(40)]));
}

#[test]
fn rejects_wrong_length() {
    let f = frame([1, 2, 3, 4]);
    assert_eq!(decode_frame(&f[..12]), None);
    let mut longer = f.clone();
    longer.push(0);
    assert_eq!(decode_frame(&longer), None);
    assert_eq!(decode_frame(&[]), None);
}

#[test]
fn frame_buffer_assembles_chunks() {
    let f = frame([100, -100, OPEN_CIRCUIT, 7]);
    let mut fb = FrameBuffer::new();
    assert_eq!(fb.remaining(), 13);
    assert_eq!(fb.accept(&f[..5]), FrameProgress::NeedMore);
    assert_eq!(fb.remaining(), 8);
    assert_eq!(fb.accept(&f[5..12]), FrameProgress::NeedMore);
    assert_eq!(fb.accept(&f[12..]), FrameProgress::Complete);
    assert_eq!(fb.remaining(), 0);
    assert_eq!(fb.bytes(), &f[..]);
    assert_eq!(fb.decode(), Some([Some(100), Some(-100), None, Some(7)]));
}

#[test]
fn frame_buffer_empty_read_fails() {
    let mut fb = FrameBuffer::new();
    assert_eq!(fb.accept(&[0x55]), FrameProgress::NeedMore);
    assert_eq!(fb.accept(&[]), FrameProgress::Failed);
    assert_eq!(fb.bytes(), &[0x55]);
    assert_eq!(fb.decode(), None);
}
