//! Protocol primitives: varints, ImageIDs, flags, error and event frames.

use jtp::protocol::{
    compute_image_id, encode_varint_to_buf, file_type_from_flags, flags_from_file_type,
    read_error, read_image_header, read_u16, read_u64, read_varint_u32, send_cancel_ack,
    send_error, send_watch_event, validate_request_flags, write_image_header_buffered,
    write_varint_u32, ErrorCode, ImageHeader, ProtocolError, WatchEvent, FLAG_COMPRESSED,
    REQUEST_FLAG_KEEP_ALIVE, RESPONSE_CANCEL, RESPONSE_ERROR, RESPONSE_WATCH,
};

/// Encodes a varint through the fixed buffer.
fn encode(v: u32) -> Vec<u8> {
    let mut buf = [0u8; 5];
    let n = encode_varint_to_buf(v, &mut buf);
    buf[..n].to_vec()
}

/// Writes a varint and reads it back.
fn varint_round_trip(value: u32) -> u32 {
    let mut bytes = Vec::new();
    write_varint_u32(&mut bytes, value);
    assert_eq!(bytes, encode(value));
    let (read, n) = read_varint_u32(&bytes).unwrap();
    assert_eq!(n, bytes.len());
    read
}

#[test]
fn varint_zero() {
    assert_eq!(varint_round_trip(0), 0);
    assert_eq!(encode(0), vec![0x00]);
}

#[test]
fn varint_single_byte_boundary() {
    assert_eq!(varint_round_trip(127), 127);
    assert_eq!(encode(127), vec![0x7f]);
}

#[test]
fn varint_two_byte_boundary() {
    assert_eq!(varint_round_trip(128), 128);
    assert_eq!(encode(128), vec![0x80, 0x01]);
}

#[test]
fn varint_example_from_rfc() {
    assert_eq!(varint_round_trip(4660), 4660);
    assert_eq!(encode(4660), vec![0xB4, 0x24]);
}

#[test]
fn varint_max_u32() {
    assert_eq!(varint_round_trip(u32::MAX), u32::MAX);
    assert_eq!(encode(u32::MAX).len(), 5);
}

#[test]
fn varint_canonical_single_byte_values() {
    for v in 0u32..=127 {
        assert_eq!(encode(v).len(), 1, "value {} should be 1 byte", v);
    }
}

#[test]
fn varint_rejects_overlong() {
    let overlong = vec![0x80u8; 6];
    let result = read_varint_u32(&overlong);
    assert!(result.is_err(), "should reject 6-byte varint");
    assert_eq!(result, Err(ProtocolError::VarintTooLong));
}

#[test]
fn varint_rejects_values_above_u32() {
    assert_eq!(
        read_varint_u32(&[0xFF, 0xFF, 0xFF, 0xFF, 0x0F]),
        Ok((u32::MAX, 5))
    );
    assert_eq!(
        read_varint_u32(&[0xFF, 0xFF, 0xFF, 0xFF, 0x10]),
        Err(ProtocolError::VarintOverflow)
    );
}

#[test]
fn varint_rejects_non_canonical_encodings() {
    assert_eq!(read_varint_u32(&[0x00, 0x00]), Ok((0, 1)));
    assert_eq!(
        read_varint_u32(&[0x80, 0x00]),
        Err(ProtocolError::VarintNotCanonical)
    );
    assert_eq!(
        read_varint_u32(&[0xB4, 0xA4, 0x00]),
        Err(ProtocolError::VarintNotCanonical)
    );
}

#[test]
fn varint_waits_for_its_end() {
    assert_eq!(read_varint_u32(&[]), Err(ProtocolError::UnexpectedEof));
    assert_eq!(
        read_varint_u32(&[0x80, 0x80, 0x80, 0x80]),
        Err(ProtocolError::UnexpectedEof)
    );
}

#[test]
fn varint_leaves_the_rest_of_a_buffer() {
    let mut buf = [9u8; 5];
    assert_eq!(encode_varint_to_buf(300, &mut buf), 2);
    assert_eq!(buf, [0xAC, 0x02, 9, 9, 9]);
}

#[test]
fn image_id_deterministic() {
    let data = b"hello world";
    assert_eq!(compute_image_id(data), compute_image_id(data));
}

#[test]
fn image_id_differs_for_different_data() {
    assert_ne!(compute_image_id(b"aaa"), compute_image_id(b"bbb"));
}

#[test]
fn image_id_seed_zero() {
    assert_eq!(compute_image_id(b""), 0xEF46DB3751D8E999u64);
}

#[test]
fn flags_file_type_roundtrip() {
    for ft in 0u8..=7 {
        let flags = flags_from_file_type(ft);
        let recovered = file_type_from_flags(flags);
        assert_eq!(recovered, ft, "file type {} did not round-trip", ft);
    }
}

#[test]
fn flags_file_type_mask_isolates_low_3_bits() {
    let flags = FLAG_COMPRESSED | 0b010;
    assert_eq!(file_type_from_flags(flags), 0b010);
}

#[test]
fn flag_compressed_does_not_clobber_file_type() {
    let flags = flags_from_file_type(1) | FLAG_COMPRESSED;
    assert_eq!(file_type_from_flags(flags), 1);
    assert_ne!(flags & FLAG_COMPRESSED, 0);
}

#[test]
fn request_flags_valid_zero() {
    assert!(validate_request_flags(0x00).is_ok());
}

#[test]
fn request_flags_valid_keep_alive() {
    assert!(validate_request_flags(REQUEST_FLAG_KEEP_ALIVE).is_ok());
}

#[test]
fn request_flags_rejects_reserved_bit_1() {
    assert!(validate_request_flags(0b0000_0010).is_err());
}

#[test]
fn request_flags_rejects_reserved_bits_all_set() {
    assert!(validate_request_flags(0b1111_1110).is_err());
}

#[test]
fn request_flags_rejects_reserved_plus_keepalive() {
    assert_eq!(
        validate_request_flags(0b0000_0011),
        Err(ProtocolError::ReservedRequestFlags)
    );
}

/// Writes an error frame, checks its header and reads the rest back.
fn error_round_trip(code: ErrorCode, message: &str) -> (ErrorCode, String) {
    let mut bytes = Vec::new();
    send_error(&mut bytes, code, message);
    assert_eq!(bytes[..4], RESPONSE_ERROR);
    let (read, n) = read_error(&bytes[4..]).unwrap();
    assert_eq!(n, bytes.len() - 4);
    read
}

#[test]
fn error_round_trip_not_found() {
    let (code, msg) = error_round_trip(ErrorCode::NotFound, "missing");
    assert_eq!(code, ErrorCode::NotFound);
    assert_eq!(msg, "missing");
}

#[test]
fn error_round_trip_all_codes() {
    let cases = [
        (ErrorCode::NotFound, "nf"),
        (ErrorCode::InvalidRequest, "ir"),
        (ErrorCode::ServerError, "se"),
        (ErrorCode::UnsupportedFeature, "uf"),
        (ErrorCode::RateLimited, "rl"),
    ];
    for (code, msg) in cases {
        let (got_code, got_msg) = error_round_trip(code, msg);
        assert_eq!(got_code, code);
        assert_eq!(got_msg, msg);
    }
}

#[test]
fn error_empty_message() {
    let (code, msg) = error_round_trip(ErrorCode::ServerError, "");
    assert_eq!(code, ErrorCode::ServerError);
    assert_eq!(msg, "");
}

#[test]
fn error_codes_have_their_numbers() {
    for n in 1u8..=5 {
        assert_eq!(ErrorCode::from_u8(n).unwrap().to_u8(), n);
    }
    assert_eq!(ErrorCode::from_u8(0), None);
    assert_eq!(ErrorCode::from_u8(6), None);
    assert_eq!(
        read_error(&[6, 0, 0]).unwrap_err(),
        ProtocolError::UnknownErrorCode
    );
}

#[test]
fn error_message_is_cut_and_decoded_lossily() {
    let long = "x".repeat(70_000);
    let (_, msg) = error_round_trip(ErrorCode::ServerError, &long);
    assert_eq!(msg.len(), 65_535);
    let ((_, msg), n) = read_error(&[3, 0, 2, b'a', 0xFF, b'z']).unwrap();
    assert_eq!(msg, "a\u{FFFD}");
    assert_eq!(n, 5);
    assert_eq!(
        read_error(&[3, 0, 2, b'a']).unwrap_err(),
        ProtocolError::UnexpectedEof
    );
}

#[test]
fn image_header_round_trip() {
    let flags = flags_from_file_type(0) | FLAG_COMPRESSED;
    let length = 12345u32;
    let id = 0xDEADBEEFCAFEBABEu64;
    let mut bytes = Vec::new();
    write_image_header_buffered(&mut bytes, flags, length, id);

    assert_eq!(bytes[0], flags);
    let (got_length, n) = read_varint_u32(&bytes[1..]).unwrap();
    assert_eq!(got_length, length);
    assert_eq!(read_u64(&bytes[1 + n..]).unwrap(), id);
    let (header, used) = read_image_header(&bytes).unwrap();
    assert_eq!(header, ImageHeader { flags, length, id });
    assert_eq!(used, bytes.len());
}

#[test]
fn image_header_length_zero() {
    let mut bytes = Vec::new();
    write_image_header_buffered(&mut bytes, 0, 0, 0);
    assert_eq!(read_varint_u32(&bytes[1..]).unwrap(), (0, 1));
    assert_eq!(read_u64(&bytes[2..]).unwrap(), 0);
}

#[test]
fn image_header_refuses_reserved_flags() {
    let mut bytes = Vec::new();
    write_image_header_buffered(&mut bytes, 0b0001_0000, 1, 2);
    assert_eq!(read_image_header(&bytes).unwrap_err(), ProtocolError::EncryptedFlag);
    bytes[0] = 0b0010_0000;
    assert_eq!(read_image_header(&bytes).unwrap_err(), ProtocolError::ReservedFlags);
}

#[test]
fn cancel_ack_writes_jtpc() {
    let mut bytes = Vec::new();
    send_cancel_ack(&mut bytes);
    assert_eq!(bytes, RESPONSE_CANCEL);
    assert_eq!(bytes, b"JTPC");
}

#[test]
fn watch_event_round_trip() {
    let event = WatchEvent {
        id: 0x0102030405060708,
        flags: flags_from_file_type(1),
        filename: "photo.jpg".to_string(),
        size: 4096,
    };
    let mut b = Vec::new();
    send_watch_event(&mut b, &event);

    assert_eq!(b[..4], RESPONSE_WATCH);
    let got_id = read_u64(&b[4..]).unwrap();
    let got_flags = b[12];
    let name_len = read_u16(&b[13..]).unwrap() as usize;
    let got_name = String::from_utf8(b[15..15 + name_len].to_vec()).unwrap();
    let (got_size, n) = read_varint_u32(&b[15 + name_len..]).unwrap();

    assert_eq!(got_id, event.id);
    assert_eq!(got_flags, event.flags);
    assert_eq!(got_name, event.filename);
    assert_eq!(got_size, event.size);
    assert_eq!(15 + name_len + n, b.len());
}
