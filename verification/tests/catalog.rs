//! Catalogs: collisions, order, image directories and LIST responses.

use jtp::protocol::{
    compute_image_id, file_type_from_flags, flags_from_file_type, read_image_header,
    read_list_response, read_u16, read_varint_u32, send_catalog, send_catalog_buffered,
    send_image_with_options, DirFile, ImageCatalog, ImageId,
    ImageMetadata, Loaded, ProtocolError, LIST_FILTER_GIF, LIST_FILTER_PNG, RESPONSE_LIST,
    SIZE_THRESHOLD_LARGE,
};
use std::collections::HashMap;
use std::sync::Arc;
use unicode_normalization::UnicodeNormalization;

fn fake_image(id: ImageId, file_type: u8, data: Vec<u8>) -> ImageMetadata {
    ImageMetadata {
        id,
        flags: flags_from_file_type(file_type),
        file_name: format!("test_{:016x}.png", id),
        cached_data: Some(Arc::new(data)),
    }
}

/// Finds no compression worth it.
fn never(_compressed: usize, _original: usize) -> bool {
    false
}

/// Finds compression worth it that saves anything.
fn shorter(compressed: usize, original: usize) -> bool {
    compressed < original
}

fn make_catalog(images: Vec<Vec<u8>>) -> ImageCatalog {
    let mut cat = ImageCatalog::new_empty();
    for data in images {
        let id = compute_image_id(&data);
        cat.add_image(fake_image(id, 0, data), false);
    }
    cat
}

fn file(name: &str, content: &[u8]) -> DirFile {
    DirFile {
        path: format!("dir/{}", name),
        content: Some(content.to_vec()),
    }
}

fn named(name: &str, data: &[u8]) -> ImageMetadata {
    ImageMetadata {
        id: compute_image_id(data),
        flags: 0,
        file_name: name.to_string(),
        cached_data: Some(Arc::new(data.to_vec())),
    }
}

#[test]
fn catalog_rejects_collision() {
    let bytes = b"duplicate content".to_vec();
    let id = compute_image_id(&bytes);
    let meta1 = fake_image(id, 0, bytes.clone());
    let meta2 = fake_image(id, 1, bytes.clone());

    let mut cat = ImageCatalog::new_empty();
    assert_eq!(cat.add_image(meta1, true), None);
    assert_eq!(cat.add_image(meta2, true), Some(id));

    assert_eq!(cat.images.len(), 1, "collision should reduce catalog to 1 entry");
    assert_eq!(file_type_from_flags(cat.images[&id].flags), 0);
}

#[test]
fn collision_is_not_reported_unless_asked_for() {
    let mut cat = make_catalog(vec![b"x".to_vec()]);
    let id = compute_image_id(b"x");
    assert_eq!(cat.add_image(fake_image(id, 3, b"x".to_vec()), false), None);
    assert_eq!(cat.images.len(), 1);
}

#[test]
fn catalog_sorted_ids_are_stable() {
    let data_a = b"aaaa".to_vec();
    let data_b = b"bbbb".to_vec();
    let id_a = compute_image_id(&data_a);
    let id_b = compute_image_id(&data_b);

    let mut cat = ImageCatalog::new_empty();
    cat.add_image(fake_image(id_b, 0, data_b), false);
    cat.add_image(fake_image(id_a, 0, data_a), false);

    let sorted = cat.sorted_ids();
    assert_eq!(sorted.len(), 2);
    assert_eq!(sorted, cat.sorted_ids());
    assert_eq!(sorted, [id_a.min(id_b), id_a.max(id_b)]);
}

#[test]
fn sorted_ids_go_by_base_name_in_code_point_order() {
    let names = ["z/b.png", "a/é.png", "b/a.png", "Z.png", "c/aa.png", "d/", "e/a.png"];
    let mut cat = ImageCatalog::new_empty();
    for name in names {
        cat.add_image(named(name, name.as_bytes()), false);
    }
    let listed: Vec<String> = cat
        .sorted_ids()
        .iter()
        .map(|id| cat.get_metadata(id).unwrap().file_name.clone())
        .collect();
    let mut a = vec!["b/a.png", "e/a.png"];
    a.sort_by_key(|n| compute_image_id(n.as_bytes()));
    assert_eq!(listed, ["Z.png", a[0], a[1], "c/aa.png", "z/b.png", "d/", "a/é.png"]);
}

#[test]
fn list_images_has_every_image() {
    let cat = make_catalog(vec![b"1".to_vec(), b"2".to_vec()]);
    let mut ids = cat.list_images();
    let mut sorted = cat.sorted_ids().to_vec();
    ids.sort();
    sorted.sort();
    assert_eq!(ids, sorted);
    assert!(cat.get_metadata(&1).is_none());
}

#[test]
fn catalog_from_dir_ignores_non_image_files() {
    let files = vec![
        file("image.png", b"\x89PNG...fake"),
        file("readme.txt", b"not an image"),
        file("script.sh", b"#!/bin/sh"),
    ];
    let cat = ImageCatalog::from_dir(Some(files), None);
    assert_eq!(cat.images.len(), 1, "only PNG should be loaded");
}

#[test]
fn catalog_from_dir_name_filter() {
    let files = vec![
        file("sunset.jpg", b"jpg_data_a"),
        file("portrait.jpg", b"jpg_data_b"),
        file("landscape.png", b"png_data_c"),
    ];
    let cat = ImageCatalog::from_dir(Some(files), Some("portrait"));
    assert_eq!(cat.images.len(), 1);
    let only = cat.images.values().next().unwrap();
    assert!(only.file_name.contains("portrait"));
}

#[test]
fn catalog_from_dir_missing_dir_returns_empty() {
    let cat = ImageCatalog::from_dir(None, None);
    assert!(cat.images.is_empty());
    assert!(cat.sorted_ids().is_empty());
    assert!(ImageCatalog::new(None).images.is_empty());
}

#[test]
fn from_dir_tells_types_by_extension() {
    let cases = [
        ("a.png", Some(0)),
        ("a.JPG", Some(1)),
        ("a.b.jPeG", Some(1)),
        ("a.webp", Some(2)),
        ("a.BMP", Some(3)),
        ("a.gif", Some(4)),
        ("a.pdf", None),
        (".png", None),
        ("png", None),
        ("a.", None),
        ("dir.png/..", None),
        ("x/a.gif/.", Some(4)),
    ];
    for (name, expected) in cases {
        assert_eq!(ImageCatalog::wanted_file(name, None), expected, "{}", name);
    }
    assert_eq!(ImageCatalog::wanted_file("Sun/SET.png", Some("set")), Some(0));
    assert_eq!(ImageCatalog::wanted_file("Sun/set.png", Some("sun")), None);
    assert_eq!(ImageCatalog::wanted_file("set.png", Some("")), Some(0));
}

#[test]
fn from_dir_keeps_the_first_of_equal_files() {
    let files = vec![
        file("late.png", b"same"),
        file("early.gif", b"same"),
        DirFile { path: "dir/unreadable.png".to_string(), content: None },
    ];
    let cat = ImageCatalog::from_dir(Some(files), None);
    assert_eq!(cat.images.len(), 1);
    assert_eq!(cat.images.values().next().unwrap().file_name, "dir/late.png");
}

#[test]
fn load_file_says_what_became_of_a_file() {
    let mut cat = ImageCatalog::new_empty();
    let id = compute_image_id(b"content");
    assert_eq!(cat.load_file(file("a.txt", b"content"), None), Loaded::Skipped);
    assert_eq!(cat.load_file(file("a.png", b"content"), None), Loaded::Added(id));
    assert_eq!(cat.load_file(file("b.png", b"content"), None), Loaded::Collision(id));
    cat.rebuild_sorted();
    assert_eq!(cat.sorted_ids(), [id]);
}

#[test]
fn large_files_are_not_kept_in_memory() {
    let at_limit = vec![1u8; SIZE_THRESHOLD_LARGE];
    let above = vec![2u8; SIZE_THRESHOLD_LARGE + 1];
    let files = vec![file("a.bmp", &at_limit), file("b.bmp", &above)];
    let cat = ImageCatalog::from_dir(Some(files), None);
    let a = &cat.images[&compute_image_id(&at_limit)];
    let b = &cat.images[&compute_image_id(&above)];
    assert_eq!(a.cached_data.as_ref().unwrap().len(), SIZE_THRESHOLD_LARGE);
    assert!(b.cached_data.is_none());
}

#[test]
fn catalog_send_uses_varint_count_not_u16() {
    let cat = make_catalog(vec![b"img1".to_vec(), b"img2".to_vec(), b"img3".to_vec()]);
    let mut b = Vec::new();
    send_catalog(&mut b, &cat, &HashMap::new(), &never).unwrap();

    assert_eq!(b[..4], RESPONSE_LIST);
    assert!(b[4] & 0x80 == 0, "count=3 should be a 1-byte varint (no continuation bit)");
    assert_eq!(b[4], 3);
}

#[test]
fn catalog_buffered_matches_unbuffered() {
    let cat = make_catalog(vec![b"data_x".to_vec(), b"data_y".to_vec()]);
    let mut out1 = Vec::new();
    let mut out2 = Vec::new();
    send_catalog(&mut out1, &cat, &HashMap::new(), &never).unwrap();
    send_catalog_buffered(&mut out2, &cat, &HashMap::new(), &never);
    assert_eq!(out1, out2, "send_catalog and send_catalog_buffered must produce identical bytes");
}

#[test]
fn catalog_nfc_normalises_nfd_filename() {
    let nfd_name: String = "cafe\u{0301}.png".to_string();
    let nfc_name: String = nfd_name.nfc().collect();
    assert_ne!(nfd_name, nfc_name);

    let mut cat = ImageCatalog::new_empty();
    cat.add_image(named(&nfd_name, b"pixel"), false);
    let mut b = Vec::new();
    send_catalog(&mut b, &cat, &HashMap::new(), &never).unwrap();

    assert_eq!(b[..4], RESPONSE_LIST);
    assert_eq!(read_varint_u32(&b[4..]).unwrap(), (1, 1));
    let name_len = read_u16(&b[14..]).unwrap() as usize;
    let transmitted = String::from_utf8(b[16..16 + name_len].to_vec()).unwrap();
    assert_eq!(transmitted, nfc_name, "filename must be NFC-normalised before transmission");
}

#[test]
fn sizes_of_uncached_images_come_from_their_files() {
    let mut cat = ImageCatalog::new_empty();
    let mut a = named("a.png", b"a");
    let mut b = named("b.png", b"b");
    a.cached_data = None;
    b.cached_data = None;
    let (id_a, id_b) = (a.id, b.id);
    cat.add_image(a, false);
    cat.add_image(b, false);

    let mut sizes = HashMap::new();
    sizes.insert(id_b, u64::from(u32::MAX) + 7);
    let mut out = vec![7u8];
    assert_eq!(send_catalog(&mut out, &cat, &sizes, &never), Err(ProtocolError::SizeUnavailable));
    assert_eq!(out, b"\x07JTPL\x02");

    let mut out = Vec::new();
    send_catalog_buffered(&mut out, &cat, &sizes, &never);
    let (listed, n) = read_list_response(&out, None).unwrap();
    assert_eq!(n, out.len());
    assert_eq!(listed.len(), 1);
    assert_eq!((listed[0].id, listed[0].size), (id_b, u32::MAX));

    sizes.insert(id_a, 300);
    let mut out = Vec::new();
    assert_eq!(send_catalog(&mut out, &cat, &sizes, &never), Ok(()));
    let (listed, _) = read_list_response(&out, None).unwrap();
    assert_eq!((listed[0].id, listed[0].size), (id_a, 300));
}

#[test]
fn list_response_reads_back() {
    let mut cat = ImageCatalog::new_empty();
    cat.add_image(named("dir/ sunny.png ", b"one"), false);
    let mut gif = named("dir/funny.gif", b"two!");
    gif.flags = 4;
    cat.add_image(gif, false);
    let mut out = Vec::new();
    send_catalog_buffered(&mut out, &cat, &HashMap::new(), &never);
    let whole = out.len();
    out.extend_from_slice(b"next");

    let (listed, n) = read_list_response(&out, None).unwrap();
    assert_eq!(n, whole);
    assert_eq!(listed.len(), 2);
    assert_eq!(listed[0].filename, "sunny.png");
    assert_eq!(listed[1].filename, "funny.gif");
    assert_eq!(listed[1].size, 4);
    assert_eq!(listed[1].id, compute_image_id(b"two!"));

    let (gifs, n) = read_list_response(&out, Some(LIST_FILTER_GIF)).unwrap();
    assert_eq!(n, whole);
    assert_eq!(gifs.len(), 1);
    assert_eq!(gifs[0].filename, "funny.gif");
    let (pngs, _) = read_list_response(&out, Some(LIST_FILTER_PNG)).unwrap();
    assert_eq!(pngs[0].filename, "sunny.png");

    for cut in 0..whole {
        assert_eq!(
            read_list_response(&out[..cut], None).unwrap_err(),
            ProtocolError::UnexpectedEof
        );
    }
}

#[test]
fn list_response_refuses_other_headers_and_flags() {
    assert_eq!(
        read_list_response(b"JTPB\x00", None).unwrap_err(),
        ProtocolError::UnexpectedHeader
    );
    let entry = [0u8, 0, 0, 0, 0, 0, 0, 9, 0x20, 0, 1, b'a', 5];
    let mut bytes = b"JTPL\x01".to_vec();
    bytes.extend_from_slice(&entry);
    assert_eq!(read_list_response(&bytes, None).unwrap_err(), ProtocolError::ReservedFlags);
    bytes[13] = 0x01;
    assert_eq!(read_list_response(&bytes, None).unwrap().0[0].filename, "a");
}

#[test]
fn rescan_adds_new_images_once() {
    let mut cat = ImageCatalog::from_dir(Some(vec![file("a.png", b"a")]), None);
    let again = vec![file("z.png", b"z"), file("b.png", b"b"), file("c.png", b"a")];
    let fresh = cat.add_new_images(ImageCatalog::from_dir(Some(again), None));
    assert_eq!(fresh, [compute_image_id(b"b"), compute_image_id(b"z")]);
    assert_eq!(cat.images.len(), 3);
    assert_eq!(cat.images[&compute_image_id(b"a")].file_name, "dir/a.png");
    assert_eq!(
        cat.sorted_ids(),
        [compute_image_id(b"a"), compute_image_id(b"b"), compute_image_id(b"z")]
    );
    let same = vec![file("z.png", b"z")];
    assert!(cat.add_new_images(ImageCatalog::from_dir(Some(same), None)).is_empty());
}

#[test]
fn listed_size_is_the_length_of_the_packet() {
    for file_type in [0u8, 3, 7] {
        let data = vec![5u8; 3000];
        let mut meta = named("a.bmp", &data);
        meta.flags = file_type;
        let mut packet = Vec::new();
        send_image_with_options(&mut packet, &meta, 0, &shorter).unwrap();
        let (header, n) = read_image_header(&packet).unwrap();
        assert_eq!(packet.len(), n + header.length as usize);
        assert_eq!(header.length == 3000, file_type == 0);

        let mut cat = ImageCatalog::new_empty();
        cat.add_image(meta, false);
        let mut out = Vec::new();
        send_catalog_buffered(&mut out, &cat, &HashMap::new(), &shorter);
        assert_eq!(read_list_response(&out, None).unwrap().0[0].size, header.length);
        let mut same = Vec::new();
        send_catalog(&mut same, &cat, &HashMap::new(), &shorter).unwrap();
        assert_eq!(out, same);
        let mut plain = Vec::new();
        send_catalog(&mut plain, &cat, &HashMap::new(), &never).unwrap();
        assert_eq!(read_list_response(&plain, None).unwrap().0[0].size, 3000);
    }
}
