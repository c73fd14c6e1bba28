use bytevec2::ByteEncodable;

use chimera_session::stream_command::StreamCommand;

fn frame_for(payload: &[u8]) -> Vec<u8> {
    let sc = StreamCommand::new(1024);
    sc.encode_payload(payload)
}

#[test]
fn test_stream_command() {
    // One record as the serializer lays it out: the field's size prefix,
    // then the field body produced by bytevec2 itself.
    let data: Vec<u8> = vec![0x00, 0x00, 0xFF, 0xCF];
    let body = data.encode::<u32>().unwrap();
    let mut record: Vec<u8> = (body.len() as u32).to_le_bytes().to_vec();
    record.extend_from_slice(&body);

    let mut sc = StreamCommand::new(1024);
    let to_stream = sc.encode_payload(record.as_slice());
    let decoded = sc.decode_payloads(to_stream.as_slice()).unwrap();
    assert_eq!(decoded, vec![record]);
}

#[test]
fn test_escaping_reserved_bytes() {
    let payload: Vec<u8> = vec![0x01, 0x02, 0x03, 0x04, 0x20, 0x41];
    let frame = frame_for(payload.as_slice());
    assert_eq!(
        frame,
        vec![
            0x01, 0x02, 0x20, 0x01, 0x20, 0x02, 0x20, 0x03, 0x20, 0x04, 0x20, 0x20, 0x41, 0x03,
            0x65, 0x04
        ]
    );
    let mut sc = StreamCommand::new(1024);
    let decoded = sc.decode_payloads(frame.as_slice()).unwrap();
    assert_eq!(decoded, vec![payload]);
}

#[test]
fn test_chunked_delivery() {
    let payload: Vec<u8> = vec![0x10, 0x01, 0x42];
    let frame = frame_for(payload.as_slice());
    // Feed the frame one byte at a time; the payload must come out once.
    let mut sc = StreamCommand::new(1024);
    let mut all: Vec<Vec<u8>> = Vec::new();
    for b in frame.iter() {
        let chunk = [*b];
        let mut got = sc.decode_payloads(&chunk).unwrap();
        all.append(&mut got);
    }
    assert_eq!(all, vec![payload.clone()]);
    // The same split in two uneven chunks.
    let mut sc2 = StreamCommand::new(1024);
    let first = sc2.decode_payloads(&frame[..3]).unwrap();
    assert!(first.is_empty());
    let second = sc2.decode_payloads(&frame[3..]).unwrap();
    assert_eq!(second, vec![payload]);
}

#[test]
fn test_resync_after_garbage() {
    let payload: Vec<u8> = vec![0x55];
    let frame = frame_for(payload.as_slice());
    let mut sc = StreamCommand::new(1024);
    // Garbage without a frame start or end is absorbed silently.
    let none = sc.decode_payloads(&[0x07, 0x08, 0x09]).unwrap();
    assert!(none.is_empty());
    // The next valid frame is then decoded as if nothing happened.
    let got = sc.decode_payloads(frame.as_slice()).unwrap();
    assert_eq!(got, vec![payload]);
}

#[test]
fn test_bounded_buffer() {
    let mut sc = StreamCommand::new(16);
    // Far more bytes than the capacity, never an EOT: no output, no error.
    for _ in 0..100 {
        let got = sc.decode_payloads(&[0x41, 0x41, 0x41, 0x41]).unwrap();
        assert!(got.is_empty());
    }
    // The codec is still usable after a reset.
    sc.reset();
    let payload: Vec<u8> = vec![0x7A];
    let frame = frame_for(payload.as_slice());
    let got = sc.decode_payloads(frame.as_slice()).unwrap();
    assert_eq!(got, vec![payload]);
}

#[test]
fn test_parser_error_on_bad_heading() {
    let mut sc = StreamCommand::new(1024);
    // SOH followed by a byte that is not STX, with an EOT to trigger a parse.
    let r = sc.decode_payloads(&[0x01, 0x05, 0x04]);
    assert!(matches!(
        r,
        Err(chimera_session::stream_command::StreamCommandError::ParserError)
    ));
}

#[test]
fn test_two_frames_in_one_read() {
    let first: Vec<u8> = vec![0x11];
    let second: Vec<u8> = vec![0x22, 0x23];
    let mut bytes = frame_for(first.as_slice());
    bytes.extend_from_slice(frame_for(second.as_slice()).as_slice());
    let mut sc = StreamCommand::new(1024);
    let got = sc.decode_payloads(bytes.as_slice()).unwrap();
    assert_eq!(got, vec![first, second]);
}

#[test]
fn test_empty_read_yields_nothing() {
    let mut sc = StreamCommand::new(1024);
    let got = sc.decode_payloads(&[]).unwrap();
    assert!(got.is_empty());
}

#[test]
fn test_default_capacity() {
    let mut sc: StreamCommand = Default::default();
    let payload: Vec<u8> = vec![0x33];
    let frame = frame_for(payload.as_slice());
    let got = sc.decode_payloads(frame.as_slice()).unwrap();
    assert_eq!(got, vec![payload]);
}
