//! Image packets: compression, verification and the names of stored files.

use jtp::protocol::{
    accept_image, choose_output_name, compute_image_id, decompress, get_compression_level,
    image_id_text, index_by_id, read_image_header, receive_image, send_image_with_options,
    settle_compression, try_compress, write_image_header_buffered, CompressionStats, ImageHeader,
    ImageId, ImageMetadata, ListedImage, ProtocolError, SentImage, FLAG_COMPRESSED,
};
use jtp::pem::{read_private_key, read_trusted_certs};
use std::collections::HashMap;
use std::sync::Arc;

fn image(file_type: u8, data: &[u8]) -> ImageMetadata {
    ImageMetadata {
        id: compute_image_id(data),
        flags: file_type,
        file_name: "dir/some.bin".to_string(),
        cached_data: Some(Arc::new(data.to_vec())),
    }
}

fn listed(id: ImageId, flags: u8, filename: &str) -> HashMap<ImageId, ListedImage> {
    let item = ListedImage { id, flags, filename: filename.to_string(), size: 1 };
    index_by_id(vec![item])
}

fn ratio_below(limit: f32) -> impl Fn(usize, usize) -> bool {
    move |compressed, original| (compressed as f32) / (original as f32) < limit
}

#[test]
fn compression_level_depends_on_size() {
    assert_eq!(get_compression_level(0), 6);
    assert_eq!(get_compression_level(102_399), 6);
    assert_eq!(get_compression_level(102_400), 3);
    assert_eq!(get_compression_level(1_048_575), 3);
    assert_eq!(get_compression_level(1_048_576), 3);
    assert_eq!(get_compression_level(1_048_577), 1);
}

#[test]
fn compressed_data_decompresses() {
    let data = vec![42u8; 5000];
    let (frame, stats) = try_compress(&data, &ratio_below(0.95)).unwrap();
    let frame = frame.unwrap();
    assert!(frame.len() < 100);
    assert_ne!(frame, data);
    assert_eq!(
        stats,
        CompressionStats {
            original_size: 5000,
            compressed_size: frame.len(),
            used_compression: true,
        }
    );
    assert_eq!(decompress(&frame).unwrap(), data);
}

#[test]
fn compression_that_saves_too_little_is_dropped() {
    let (frame, stats) = try_compress(b"x", &ratio_below(0.95)).unwrap();
    assert!(frame.is_none());
    assert_eq!(stats, CompressionStats::no_compression(1));
    let (frame, _) = try_compress(b"", &ratio_below(0.95)).unwrap();
    assert!(frame.is_none());
    let (kept, stats) = settle_compression(10, vec![1, 2, 3], true);
    assert_eq!(kept, Some(vec![1, 2, 3]));
    assert_eq!((stats.original_size, stats.compressed_size), (10, 3));
}

#[test]
fn malformed_frames_do_not_decompress() {
    assert_eq!(decompress(b"no frame at all"), Err(ProtocolError::DecompressionFailed));
    let (frame, _) = try_compress(&[7u8; 1000], &|_, _| true).unwrap();
    let frame = frame.unwrap();
    assert_eq!(
        decompress(&frame[..frame.len() - 1]),
        Err(ProtocolError::DecompressionFailed)
    );
    assert_eq!(decompress(b""), Err(ProtocolError::DecompressionFailed));
}

#[test]
fn only_bmp_and_unknown_types_are_compressed() {
    let data = vec![1u8; 4000];
    for file_type in 0u8..8 {
        let meta = image(file_type, &data);
        let mut out = Vec::new();
        let sent = send_image_with_options(&mut out, &meta, 0, &ratio_below(0.95)).unwrap();
        let (header, _) = read_image_header(&out).unwrap();
        if file_type == 3 || file_type == 7 {
            assert!(matches!(sent, SentImage::Compressed(_)));
            assert_eq!(header.flags, file_type | FLAG_COMPRESSED);
            assert!(out.len() < 200);
        } else {
            assert_eq!(sent, SentImage::Plain);
            assert_eq!(header.flags, file_type);
            assert_eq!(header.length, 4000);
        }
        let (received, n) = receive_image(&out, &HashMap::new()).unwrap();
        assert_eq!(received.data, data);
        assert_eq!(n, out.len());
    }
}

#[test]
fn incompressible_bitmaps_are_sent_as_they_are() {
    let meta = image(3, b"tiny");
    let mut out = Vec::new();
    let sent = send_image_with_options(&mut out, &meta, 0, &ratio_below(0.95)).unwrap();
    assert_eq!(sent, SentImage::Incompressible(CompressionStats::no_compression(4)));
    let mut expected = Vec::new();
    write_image_header_buffered(&mut expected, 3, 4, meta.id);
    expected.extend_from_slice(b"tiny");
    assert_eq!(out, expected);
}

#[test]
fn uncached_images_get_their_header_only() {
    let mut meta = image(3, b"on disk");
    meta.cached_data = None;
    let mut out = Vec::new();
    let sent = send_image_with_options(&mut out, &meta, 7, &|_, _| true).unwrap();
    assert_eq!(sent, SentImage::File { length: 7 });
    out.extend_from_slice(b"on disk");
    let (received, _) = receive_image(&out, &HashMap::new()).unwrap();
    assert_eq!(received.data, b"on disk");
    let mut out = Vec::new();
    let sent = send_image_with_options(&mut out, &meta, u64::MAX, &|_, _| true).unwrap();
    assert_eq!(sent, SentImage::File { length: u32::MAX });
}

#[test]
fn corrupt_packets_are_refused() {
    let meta = image(0, b"genuine");
    let mut out = Vec::new();
    send_image_with_options(&mut out, &meta, 0, &|_, _| false).unwrap();
    let last = out.len() - 1;
    out[last] ^= 1;
    assert_eq!(
        receive_image(&out, &HashMap::new()).err(),
        Some(ProtocolError::ImageIdMismatch {
            expected: compute_image_id(b"genuine"),
            computed: compute_image_id(b"genuind"),
        })
    );
    let header = ImageHeader { flags: 0, length: 1, id: 5 };
    assert!(accept_image(&header, b"y".to_vec(), &HashMap::new()).is_err());
    let id = compute_image_id(b"y");
    let header = ImageHeader { flags: 0, length: 1, id };
    let image = accept_image(&header, b"y".to_vec(), &HashMap::new()).unwrap();
    assert_eq!(image.data, b"y");
}

#[test]
fn incomplete_packets_wait() {
    let meta = image(0, b"partial data");
    let mut out = Vec::new();
    send_image_with_options(&mut out, &meta, 0, &|_, _| false).unwrap();
    for cut in 0..out.len() {
        assert_eq!(
            receive_image(&out[..cut], &HashMap::new()).err(),
            Some(ProtocolError::UnexpectedEof)
        );
    }
    out.extend_from_slice(b"next packet");
    assert_eq!(receive_image(&out, &HashMap::new()).unwrap().1, out.len() - 11);
}

#[test]
fn packets_marked_compressed_must_be_frames() {
    let mut out = Vec::new();
    write_image_header_buffered(&mut out, FLAG_COMPRESSED, 3, 1);
    out.extend_from_slice(b"raw");
    assert_eq!(
        receive_image(&out, &HashMap::new()).err(),
        Some(ProtocolError::DecompressionFailed)
    );
}

#[test]
fn encrypted_packets_are_refused() {
    let mut out = Vec::new();
    write_image_header_buffered(&mut out, 0x10, 1, 1);
    out.push(0);
    assert_eq!(receive_image(&out, &HashMap::new()).err(), Some(ProtocolError::EncryptedFlag));
}

#[test]
fn output_names_come_from_the_catalog() {
    let id = 0x0123456789abcdef;
    let cases = [
        ("photo.jpg", 0, "photo.jpg"),
        ("photo", 1, "photo.jpg"),
        ("photo", 2, "photo.webp"),
        ("photo", 5, "photo.pdf"),
        ("photo", 6, "photo.bin"),
        ("  spaced.png ", 0, "spaced.png"),
        ("a/b/photo.png", 0, "photo.png"),
        ("a\\b.png", 0, "ab.png"),
        ("x..y.png", 0, "xy.png"),
        ("cafe\u{0301}", 0, "caf\u{e9}.png"),
        ("..", 3, "output_0123456789abcdef.bmp"),
        ("", 4, "output_0123456789abcdef.gif"),
        (".", 7, "output_0123456789abcdef.bin"),
        ("../..\\", 0, "output_0123456789abcdef.png"),
        ("...", 0, "output_0123456789abcdef.png"),
    ];
    for (filename, flags, expected) in cases {
        let header = ImageHeader { flags: 0, length: 0, id };
        let name = choose_output_name(&header, &listed(id, flags, filename));
        assert_eq!(name, expected, "{:?}", filename);
    }
    let header = ImageHeader { flags: 1, length: 0, id };
    assert_eq!(choose_output_name(&header, &HashMap::new()), "output_0123456789abcdef.jpg");
}

#[test]
fn later_catalog_entries_win() {
    let a = ListedImage { id: 1, flags: 0, filename: "a".to_string(), size: 1 };
    let b = ListedImage { id: 1, flags: 0, filename: "b".to_string(), size: 2 };
    let map = index_by_id(vec![a, b]);
    assert_eq!(map.len(), 1);
    assert_eq!(map[&1].filename, "b");
}

#[test]
fn image_ids_have_a_text_form() {
    assert_eq!(image_id_text(0x00ff10a9), "0000000000ff10a9");
    assert_eq!(jtp::image_id::image_id_hex_len(), 16);
    assert_eq!(&jtp::image_id::image_id_hex(b""), b"ef46db3751d8e999");
    let mut out = [b'?'; 16];
    jtp::image_id::hex_encode_8(&[0x0f, 0xa5], &mut out);
    assert_eq!(&out, b"0fa5????????????");
}

#[test]
fn certificates_are_read_from_pem() {
    let section = |kind: &str, body: &str| {
        format!("-----BEGIN {}-----\n{}\n-----END {}-----\n", kind, body, kind)
    };
    let mut pem = section("CERTIFICATE", "AQID");
    pem.push_str(&section("PUBLIC KEY", "BwgJ"));
    pem.push_str(&section("CERTIFICATE", "BAUG"));
    assert_eq!(
        read_trusted_certs(pem.as_bytes()),
        Ok(vec![vec![1, 2, 3], vec![4, 5, 6]])
    );
    assert_eq!(read_trusted_certs(b"no sections"), Ok(vec![]));
    let open = "-----BEGIN CERTIFICATE-----\nAQID\n";
    assert_eq!(read_trusted_certs(open.as_bytes()), Err(ProtocolError::MalformedPem));

    assert_eq!(read_private_key(pem.as_bytes()), Err(ProtocolError::NoPrivateKey));
    assert_eq!(read_private_key(open.as_bytes()), Err(ProtocolError::MalformedPem));
    pem.push_str(&section("PRIVATE KEY", "CgsM"));
    assert_eq!(read_private_key(pem.as_bytes()), Ok(vec![10, 11, 12]));
}
