use sdft::protocol::{
    decode_accept, decode_complete, decode_error, decode_file_chunk, decode_file_end,
    decode_file_start, decode_offer, encode_accept, encode_complete, encode_error,
    encode_file_chunk, encode_file_end, encode_file_start, encode_offer, expect_empty,
    expect_frame, push_string, read_frame, total_size, write_frame, Decoder, FileOffer, Frame,
    FrameKind, FrameReader, FrameStep, ProtocolError, TransferAccept, TransferOffer, MAX_CHUNK_BYTES,
    MAX_CONTROL_PAYLOAD, MAX_FILES, MAX_PATH_BYTES,
};
use sdft::{SafeRelativePath, UnsafePath, PROTOCOL_MAGIC, PROTOCOL_VERSION};

fn example_offer() -> TransferOffer {
    TransferOffer {
        id: [7; 16],
        files: vec![FileOffer {
            path: SafeRelativePath::new(b"folder/file.txt").unwrap(),
            size: 42,
            hash: [9; 32],
        }],
    }
}

#[test]
fn offer_round_trips() {
    let offer = example_offer();
    let encoded = encode_offer(&offer).unwrap();
    assert_eq!(decode_offer(&encoded).unwrap(), offer);
}

#[test]
fn frame_round_trips() {
    let mut bytes = Vec::new();
    write_frame(&mut bytes, FrameKind::Hello, b"hello").unwrap();
    let frame = read_frame(&mut bytes.as_slice()).unwrap();
    assert_eq!(frame.kind, FrameKind::Hello);
    assert_eq!(frame.payload, b"hello");
}

#[test]
fn offer_rejects_traversal() {
    let mut encoded = Vec::new();
    encoded.extend_from_slice(&[0; 16]);
    encoded.extend_from_slice(&1_u32.to_be_bytes());
    push_string(&mut encoded, "../escape").unwrap();
    encoded.extend_from_slice(&0_u64.to_be_bytes());
    encoded.extend_from_slice(&[0; 32]);
    assert!(matches!(
        decode_offer(&encoded),
        Err(ProtocolError::UnsafePath(_))
    ));
}

#[test]
fn oversized_frame_is_rejected_before_allocation() {
    let mut bytes = Vec::new();
    bytes.extend_from_slice(&PROTOCOL_MAGIC);
    bytes.extend_from_slice(&PROTOCOL_VERSION.to_be_bytes());
    bytes.push(FrameKind::Hello.code());
    bytes.extend_from_slice(&((MAX_CONTROL_PAYLOAD as u64) + 1).to_be_bytes());
    assert!(matches!(
        read_frame(&mut bytes.as_slice()),
        Err(ProtocolError::OversizedFrame(_))
    ));
}

fn offer_with_path(path: &[u8]) -> TransferOffer {
    TransferOffer {
        id: [1; 16],
        files: vec![FileOffer {
            path: SafeRelativePath::new(path).unwrap(),
            size: 5,
            hash: [2; 32],
        }],
    }
}

#[test]
fn frames_are_written_byte_for_byte() {
    let mut bytes = vec![0xff];
    write_frame(&mut bytes, FrameKind::FileStart, b"xy").unwrap();
    assert_eq!(
        bytes,
        [0xff, b'S', b'D', b'F', b'T', 0, 1, 5, 0, 0, 0, 0, 0, 0, 0, 2, b'x', b'y']
    );
}

#[test]
fn a_frame_leaves_what_follows_it() {
    let mut bytes = Vec::new();
    write_frame(&mut bytes, FrameKind::Hello, b"").unwrap();
    write_frame(&mut bytes, FrameKind::Complete, b"abcd").unwrap();
    let mut rest = bytes.as_slice();
    assert_eq!(read_frame(&mut rest).unwrap().kind, FrameKind::Hello);
    assert_eq!(
        read_frame(&mut rest).unwrap(),
        Frame { kind: FrameKind::Complete, payload: b"abcd".to_vec() }
    );
    assert!(rest.is_empty());
}

#[test]
fn frames_are_read_field_by_field() {
    let mut bytes = Vec::new();
    write_frame(&mut bytes, FrameKind::Offer, b"payload").unwrap();
    let mut rest = bytes.as_slice();
    let mut reader = FrameReader::new();
    let mut wanted = Vec::new();
    let frame = loop {
        wanted.push(reader.wanted());
        let (field, after) = rest.split_at(reader.wanted());
        rest = after;
        match reader.advance(field.to_vec()).unwrap() {
            FrameStep::More(next) => reader = next,
            FrameStep::Done(frame) => break frame,
        }
    };
    assert_eq!(wanted, [4, 2, 1, 8, 7]);
    assert_eq!(frame.payload, b"payload");
}

#[test]
fn unreadable_frames_are_refused() {
    let mut good = Vec::new();
    write_frame(&mut good, FrameKind::Hello, b"hi").unwrap();

    let mut bytes = good.clone();
    bytes[0] = b'X';
    assert!(matches!(read_frame(&mut bytes.as_slice()), Err(ProtocolError::BadMagic)));

    let mut bytes = good.clone();
    bytes[4] = 1;
    assert!(matches!(
        read_frame(&mut bytes.as_slice()),
        Err(ProtocolError::UnsupportedVersion(257))
    ));

    let mut bytes = good.clone();
    bytes[6] = 9;
    assert!(matches!(
        read_frame(&mut bytes.as_slice()),
        Err(ProtocolError::UnknownFrame(9))
    ));

    for length in 0..good.len() {
        let mut rest = &good[..length];
        match read_frame(&mut rest) {
            Err(ProtocolError::Io(error)) => {
                assert_eq!(error.kind(), std::io::ErrorKind::UnexpectedEof);
            }
            other => panic!("{other:?}"),
        }
        assert!(rest.is_empty());
    }
}

#[test]
fn a_refused_frame_is_read_up_to_the_field_that_is_wrong() {
    let mut good = Vec::new();
    write_frame(&mut good, FrameKind::Hello, b"hi").unwrap();
    for (at, value, read) in [(0, b'X', 4), (4, 1, 6), (6, 9, 7), (7, 1, 15)] {
        let mut bytes = good.clone();
        bytes[at] = value;
        let mut rest = bytes.as_slice();
        assert!(read_frame(&mut rest).is_err());
        assert_eq!(rest, &good[read..]);
    }

    let mut bytes = Vec::new();
    write_frame(&mut bytes, FrameKind::Error, &encode_error("no space").unwrap()).unwrap();
    bytes.extend_from_slice(b"more");
    let mut rest = bytes.as_slice();
    assert!(matches!(
        read_frame(&mut rest),
        Err(ProtocolError::Remote(message)) if message == "no space"
    ));
    assert_eq!(rest, b"more");
}

#[test]
fn every_kind_has_its_byte() {
    let kinds = [
        (FrameKind::Hello, 1),
        (FrameKind::HelloAck, 2),
        (FrameKind::Offer, 3),
        (FrameKind::Accept, 4),
        (FrameKind::FileStart, 5),
        (FrameKind::FileChunk, 6),
        (FrameKind::FileEnd, 7),
        (FrameKind::Complete, 8),
        (FrameKind::Error, 255),
    ];
    for (kind, code) in kinds {
        assert_eq!(kind.code(), code);
        assert_eq!(FrameKind::try_from(code).unwrap(), kind);
    }
    for code in [0, 9, 100, 254] {
        assert!(matches!(FrameKind::try_from(code), Err(ProtocolError::UnknownFrame(other)) if other == code));
    }
}

#[test]
fn chunks_and_control_frames_have_their_own_limits() {
    let mut bytes = Vec::new();
    let chunk = vec![0; MAX_CHUNK_BYTES + 4];
    write_frame(&mut bytes, FrameKind::FileChunk, &chunk).unwrap();
    assert_eq!(read_frame(&mut bytes.as_slice()).unwrap().payload, chunk);

    let mut bytes = Vec::new();
    let chunk = vec![0; MAX_CHUNK_BYTES + 5];
    assert!(matches!(
        write_frame(&mut bytes, FrameKind::FileChunk, &chunk),
        Err(ProtocolError::OversizedFrame(262_149))
    ));
    assert!(bytes.is_empty());
    write_frame(&mut bytes, FrameKind::Offer, &chunk).unwrap();

    let mut header = b"SDFT\x00\x01\x06".to_vec();
    header.extend_from_slice(&(MAX_CHUNK_BYTES as u64 + 5).to_be_bytes());
    assert!(matches!(
        read_frame(&mut header.as_slice()),
        Err(ProtocolError::OversizedFrame(262_149))
    ));
}

#[test]
fn an_error_frame_is_the_peers_refusal() {
    let mut bytes = Vec::new();
    write_frame(&mut bytes, FrameKind::Error, &encode_error("disk full").unwrap()).unwrap();
    match read_frame(&mut bytes.as_slice()) {
        Err(ProtocolError::Remote(message)) => assert_eq!(message, "disk full"),
        other => panic!("{other:?}"),
    }

    let mut bytes = Vec::new();
    write_frame(&mut bytes, FrameKind::Error, b"\0\0\0\x01").unwrap();
    assert!(matches!(
        read_frame(&mut bytes.as_slice()),
        Err(ProtocolError::Malformed("truncated payload"))
    ));
}

#[test]
fn offers_are_written_byte_for_byte() {
    let mut expected = vec![1; 16];
    expected.extend_from_slice(&[0, 0, 0, 1, 0, 0, 0, 3]);
    expected.extend_from_slice(b"a/b");
    expected.extend_from_slice(&[0, 0, 0, 0, 0, 0, 0, 5]);
    expected.extend_from_slice(&[2; 32]);
    assert_eq!(encode_offer(&offer_with_path(b"a/b")).unwrap(), expected);
}

#[test]
fn backslashes_travel_as_separators() {
    let encoded = encode_offer(&offer_with_path(b"a\\b")).unwrap();
    let decoded = decode_offer(&encoded).unwrap();
    assert_eq!(decoded.files[0].path.as_path(), b"a/b");
}

#[test]
fn unwritable_offers_are_refused() {
    assert!(matches!(
        encode_offer(&offer_with_path(b"a\xff")),
        Err(ProtocolError::Malformed("path is not valid Unicode"))
    ));
    assert!(matches!(
        encode_offer(&offer_with_path(&[b'a'; MAX_PATH_BYTES + 1])),
        Err(ProtocolError::Malformed("string is too long"))
    ));
    let longest = offer_with_path(&[b'a'; MAX_PATH_BYTES]);
    assert_eq!(decode_offer(&encode_offer(&longest).unwrap()).unwrap(), longest);

    let mut many = offer_with_path(b"a");
    many.files = vec![many.files[0].clone(); MAX_FILES + 1];
    assert!(matches!(
        encode_offer(&many),
        Err(ProtocolError::Malformed("too many files"))
    ));
}

#[test]
fn offers_refuse_drives_and_nul_bytes() {
    for (path, fault) in [
        ("C:/a", UnsafePath::AbsoluteOrPrefixed),
        ("a\0b", UnsafePath::NulByte),
    ] {
        let mut encoded = vec![0; 16];
        encoded.extend_from_slice(&1_u32.to_be_bytes());
        push_string(&mut encoded, path).unwrap();
        encoded.extend_from_slice(&[0; 40]);
        assert!(matches!(
            decode_offer(&encoded),
            Err(ProtocolError::UnsafePath(found)) if found == fault
        ));
    }
}

#[test]
fn what_was_read_as_an_offer_can_be_written_again() {
    let mut encoded = vec![3; 16];
    encoded.extend_from_slice(&2_u32.to_be_bytes());
    for path in ["./a//\u{e4}/", "x"] {
        push_string(&mut encoded, path).unwrap();
        encoded.extend_from_slice(&7_u64.to_be_bytes());
        encoded.extend_from_slice(&[8; 32]);
    }
    let offer = decode_offer(&encoded).unwrap();
    assert_eq!(offer.id, [3; 16]);
    assert_eq!(offer.files.len(), 2);
    assert_eq!(offer.files[0].path.as_path(), "a/\u{e4}".as_bytes());
    let again = encode_offer(&offer).unwrap();
    assert_eq!(again.len(), encoded.len() - 4);
    assert_eq!(decode_offer(&again).unwrap(), offer);
}

#[test]
fn a_decoder_stands_behind_what_it_read() {
    let cases: [(&[u8], usize); 4] = [
        (&[0, 0, 0], 3),
        (&[0, 1, 0, 0, b'a'], 1),
        (&[0, 0, 0, 3, b'a', b'b'], 2),
        (&[0, 0, 0, 1, 0xff, b'z'], 1),
    ];
    for (bytes, left) in cases {
        let mut decoder = Decoder::new(bytes);
        assert!(decoder.string().is_err());
        assert_eq!(decoder.take(left).unwrap(), &bytes[bytes.len() - left..]);
        assert!(decoder.finish().is_ok());
    }
}

#[test]
fn unreadable_offers_are_refused() {
    let good = encode_offer(&offer_with_path(b"a/b")).unwrap();
    for length in 0..good.len() {
        assert!(matches!(
            decode_offer(&good[..length]),
            Err(ProtocolError::Malformed("truncated payload"))
        ));
    }
    let mut long = good.clone();
    long.push(0);
    assert!(matches!(
        decode_offer(&long),
        Err(ProtocolError::Malformed("payload has trailing bytes"))
    ));
    let mut many = good.clone();
    many[16..20].copy_from_slice(&100_001_u32.to_be_bytes());
    assert!(matches!(
        decode_offer(&many),
        Err(ProtocolError::Malformed("too many files"))
    ));
    let mut text = good.clone();
    text[24] = 0xff;
    assert!(matches!(
        decode_offer(&text),
        Err(ProtocolError::Malformed("string is not valid UTF-8"))
    ));
    let mut length = good.clone();
    length[20..24].copy_from_slice(&4_097_u32.to_be_bytes());
    assert!(matches!(
        decode_offer(&length),
        Err(ProtocolError::Malformed("string is too long"))
    ));
}

#[test]
fn accept_round_trips() {
    let accept = TransferAccept { id: [3; 16], resume_offsets: vec![0, 1, u64::MAX] };
    let encoded = encode_accept(&accept).unwrap();
    assert_eq!(encoded.len(), 16 + 4 + 24);
    assert_eq!(decode_accept(&encoded).unwrap(), accept);
    assert!(matches!(
        decode_accept(&encoded[..encoded.len() - 1]),
        Err(ProtocolError::Malformed("truncated payload"))
    ));
    let many = TransferAccept { id: [0; 16], resume_offsets: vec![0; MAX_FILES + 1] };
    assert!(matches!(
        encode_accept(&many),
        Err(ProtocolError::Malformed("too many resume offsets"))
    ));
    let mut count = encoded.clone();
    count[16..20].copy_from_slice(&100_001_u32.to_be_bytes());
    assert!(matches!(
        decode_accept(&count),
        Err(ProtocolError::Malformed("too many resume offsets"))
    ));
}

#[test]
fn file_messages_round_trip() {
    assert_eq!(encode_file_start(258, 3), [0, 0, 1, 2, 0, 0, 0, 0, 0, 0, 0, 3]);
    assert_eq!(decode_file_start(&encode_file_start(7, u64::MAX)).unwrap(), (7, u64::MAX));
    assert!(matches!(
        decode_file_start(&[0; 11]),
        Err(ProtocolError::Malformed("truncated payload"))
    ));
    assert!(matches!(
        decode_file_start(&[0; 13]),
        Err(ProtocolError::Malformed("payload has trailing bytes"))
    ));

    let chunk = encode_file_chunk(9, b"bytes").unwrap();
    assert_eq!(chunk, b"\0\0\0\x09bytes");
    assert_eq!(decode_file_chunk(&chunk).unwrap(), (9, &b"bytes"[..]));
    assert_eq!(decode_file_chunk(&[0, 0, 0, 4]).unwrap(), (4, &b""[..]));
    assert!(matches!(
        decode_file_chunk(&[0; 3]),
        Err(ProtocolError::Malformed("short file chunk"))
    ));
    assert!(matches!(
        encode_file_chunk(0, &vec![0; MAX_CHUNK_BYTES + 1]),
        Err(ProtocolError::OversizedFrame(262_145))
    ));

    assert_eq!(decode_file_end(&encode_file_end(4, &[8; 32])).unwrap(), (4, [8; 32]));
    assert!(matches!(
        decode_file_end(&[0; 35]),
        Err(ProtocolError::Malformed("truncated payload"))
    ));

    assert_eq!(encode_complete(65_536), [0, 1, 0, 0]);
    assert_eq!(decode_complete(&encode_complete(77)).unwrap(), 77);
    assert!(matches!(
        decode_complete(&[0; 5]),
        Err(ProtocolError::Malformed("payload has trailing bytes"))
    ));
}

#[test]
fn error_messages_round_trip() {
    let encoded = encode_error("caf\u{e9}").unwrap();
    assert_eq!(encoded, b"\0\0\0\x05caf\xc3\xa9");
    assert_eq!(decode_error(&encoded).unwrap(), "caf\u{e9}");
    let long = "a".repeat(MAX_PATH_BYTES + 1);
    assert!(matches!(
        encode_error(&long),
        Err(ProtocolError::Malformed("string is too long"))
    ));
}

#[test]
fn expected_frames_are_of_one_kind() {
    let frame = Frame { kind: FrameKind::Hello, payload: b"x".to_vec() };
    assert_eq!(expect_frame(frame, FrameKind::Hello).unwrap(), b"x");
    let frame = Frame { kind: FrameKind::Hello, payload: Vec::new() };
    assert!(matches!(
        expect_frame(frame, FrameKind::Offer),
        Err(ProtocolError::Malformed("peer sent an unexpected frame"))
    ));
    assert!(expect_empty(b"").is_ok());
    assert!(matches!(
        expect_empty(b"x"),
        Err(ProtocolError::Malformed("expected an empty frame"))
    ));
}

#[test]
fn protocol_errors_are_worded() {
    let cases = [
        (ProtocolError::BadMagic, "peer used an unknown protocol"),
        (
            ProtocolError::UnsupportedVersion(12),
            "peer uses unsupported protocol version 12",
        ),
        (ProtocolError::UnknownFrame(200), "peer sent unknown frame type 200"),
        (
            ProtocolError::OversizedFrame(u64::MAX),
            "peer sent oversized frame (18446744073709551615 bytes)",
        ),
        (
            ProtocolError::Malformed("short file chunk"),
            "peer sent malformed data: short file chunk",
        ),
        (
            ProtocolError::UnsafePath(UnsafePath::Empty),
            "peer sent an unsafe path: the path is empty",
        ),
        (
            ProtocolError::Remote("no room".to_owned()),
            "peer rejected the transfer: no room",
        ),
    ];
    for (error, expected) in cases {
        assert_eq!(error.message(), expected);
    }
    let error = std::io::Error::from(std::io::ErrorKind::TimedOut);
    let expected = format!("network I/O failed: {error}");
    assert_eq!(ProtocolError::from(error).message(), expected);
}

#[test]
fn totals_are_counted_in_64_bits() {
    let mut offer = offer_with_path(b"a");
    offer.files.push(offer.files[0].clone());
    assert_eq!(total_size(&offer.files), Some(10));
    offer.files[0].size = u64::MAX;
    assert_eq!(total_size(&offer.files), None);
    assert_eq!(total_size(&Vec::new()), Some(0));
}

#[test]
fn copies_are_equal() {
    let offer = example_offer();
    assert_eq!(offer.clone(), offer);
    let accept = TransferAccept { id: [3; 16], resume_offsets: vec![1, 2] };
    assert_eq!(accept.clone(), accept);
    let frame = Frame { kind: FrameKind::Hello, payload: vec![1] };
    assert_eq!(frame.clone(), frame);
}
