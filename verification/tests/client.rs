//! What clients make of responses, their plans and both command lines.

use jtp::catalog::{DirFile, ImageCatalog};
use jtp::client::{
    collect_have_ids, listed_line, parse_filter, plan_download, read_counted_head, read_get_head,
    split_ids, usable_connection, DownloadPlan,
};
use jtp::client_args;
use jtp::protocol::{
    compute_image_id, passes_filter, read_image_ids, read_request, read_watch_frame, send_error,
    send_watch_event, write_batch_request_buffered, write_cancel_request_buffered,
    write_get_request_buffered, write_list_and_get_request_buffered, write_list_request_buffered,
    write_watch_request_buffered, ErrorCode, ListedImage, ProtocolError, Request, RequestError,
    WatchEvent, WatchFrame, LIST_FILTER_BMP, LIST_FILTER_GIF, LIST_FILTER_JPEG, LIST_FILTER_PNG,
    RESPONSE_BATCH, RESPONSE_LIST_AND_GET,
};
use jtp::rate_limit::RateLimiter;
use jtp::server_args;
use jtp::text::{chars_of, parse_number, to_decimal};
use jtp::watch::{catalog_watch_step, event_line};
use std::collections::HashMap;

fn strings(args: &[&str]) -> Vec<String> {
    args.iter().map(|a| a.to_string()).collect()
}

#[test]
fn response_heads_announce_packets() {
    assert_eq!(read_get_head(b"JTPD\x03rest"), Ok((3, 5)));
    assert_eq!(read_get_head(b"JTPD"), Err(ProtocolError::UnexpectedEof));
    assert_eq!(read_get_head(b"JTPL\x03"), Err(ProtocolError::UnexpectedHeader));
    assert_eq!(read_counted_head(b"JTPB\xAC\x02", RESPONSE_BATCH), Ok((300, 6)));
    assert_eq!(
        read_counted_head(b"JTPB\x01", RESPONSE_LIST_AND_GET),
        Err(ProtocolError::UnexpectedHeader)
    );
    assert_eq!(
        read_counted_head(b"JTPG\x80", RESPONSE_LIST_AND_GET),
        Err(ProtocolError::UnexpectedEof)
    );
}

#[test]
fn requests_read_back() {
    let mut w = Vec::new();
    write_get_request_buffered(&mut w, 1, &[1, 0x0203]);
    assert_eq!(w, [0, 1, 2, 0, 0, 0, 0, 0, 0, 0, 1, 0, 0, 0, 0, 0, 0, 2, 3]);
    let Ok(((Request::GetById(ids), keep), n)) = read_request(&w) else { panic!() };
    assert_eq!((ids, keep, n), (vec![1, 0x0203], true, w.len()));

    let many: Vec<u64> = (0..300).collect();
    let mut w = Vec::new();
    write_get_request_buffered(&mut w, 0, &many);
    let Ok(((Request::GetById(ids), false), _)) = read_request(&w) else { panic!() };
    assert_eq!(ids, many[..255]);

    let mut w = Vec::new();
    write_batch_request_buffered(&mut w, 0, &many);
    assert_eq!(w[..4], [2, 0, 0xAC, 0x02]);
    let Ok(((Request::Batch(ids), false), n)) = read_request(&w) else { panic!() };
    assert_eq!((ids, n), (many, w.len()));

    let mut w = Vec::new();
    write_list_request_buffered(&mut w, 1);
    write_list_and_get_request_buffered(&mut w, 0);
    write_cancel_request_buffered(&mut w);
    write_watch_request_buffered(&mut w);
    assert_eq!(w, [1, 1, 5, 0, 3, 0, 4, 0]);
    assert!(matches!(read_request(&w), Ok(((Request::List, true), 2))));
    assert!(matches!(read_request(&w[2..]), Ok(((Request::ListAndGet, false), 2))));
    assert!(matches!(read_request(&w[4..]), Ok(((Request::Cancel, false), 2))));
    assert!(matches!(read_request(&w[6..]), Ok(((Request::Watch, false), 2))));
}

#[test]
fn bad_requests_are_told_apart() {
    let cases: [(&[u8], RequestError); 8] = [
        (&[1], RequestError::Incomplete),
        (&[1, 2], RequestError::ReservedFlags),
        (&[6, 0], RequestError::UnknownType),
        (&[0xFE, 0], RequestError::UnknownType),
        (&[3, 1], RequestError::FlagsNotZero),
        (&[2, 0, 0x80, 0x00], RequestError::MalformedCount),
        (&[2, 0, 0xC1, 0x84, 0x3D], RequestError::TooManyIds),
        (&[2, 0, 0xC0, 0x84, 0x3D], RequestError::Incomplete),
    ];
    for (bytes, expected) in cases {
        assert_eq!(read_request(bytes).err(), Some(expected), "{:?}", bytes);
    }
}

#[test]
fn image_ids_read_back() {
    let bytes: Vec<u8> = (0..17).collect();
    assert_eq!(
        read_image_ids(&bytes, 2),
        Ok(vec![0x0001020304050607, 0x08090a0b0c0d0e0f])
    );
    assert_eq!(read_image_ids(&bytes, 3), Err(ProtocolError::UnexpectedEof));
    assert_eq!(read_image_ids(&bytes, usize::MAX), Err(ProtocolError::UnexpectedEof));
    assert_eq!(read_image_ids(&[], 0), Ok(vec![]));
}

#[test]
fn catalog_lines_are_readable() {
    let item = ListedImage { id: 255, flags: 1, filename: "a.jpg".to_string(), size: 1204 };
    assert_eq!(listed_line(&item), "- 00000000000000ff  [jpg]  a.jpg  1204 bytes");
    let item = ListedImage { id: 0, flags: 7, filename: String::new(), size: 0 };
    assert_eq!(listed_line(&item), "- 0000000000000000  [?]    0 bytes");
}

#[test]
fn have_ids_are_collected_once() {
    let file = |name: &str, content: Option<&[u8]>| DirFile {
        path: name.to_string(),
        content: content.map(|c| c.to_vec()),
    };
    let files = vec![
        file("a.txt", Some(b"same")),
        file("b.png", Some(b"same")),
        file("c", Some(b"other")),
        file("d", None),
    ];
    let mut ids = collect_have_ids(Some(files));
    ids.sort();
    let mut expected = vec![compute_image_id(b"same"), compute_image_id(b"other")];
    expected.sort();
    assert_eq!(ids, expected);
    assert!(collect_have_ids(None).is_empty());
}

#[test]
fn downloads_are_planned() {
    assert_eq!(plan_download(10, 3, true, true), DownloadPlan::Parallel { chunk_size: 4 });
    assert_eq!(plan_download(9, 3, false, false), DownloadPlan::Parallel { chunk_size: 3 });
    assert_eq!(plan_download(10, 1, true, true), DownloadPlan::KeepAlive);
    assert_eq!(plan_download(1000, 1, true, false), DownloadPlan::Streams);
    assert_eq!(plan_download(255, 1, false, true), DownloadPlan::Single);
    assert_eq!(plan_download(256, 1, false, true), DownloadPlan::TooMany);
}

#[test]
fn ids_are_split_into_chunks() {
    let ids: Vec<u64> = (0..600).collect();
    let chunks = split_ids(&ids, 255);
    assert_eq!(chunks.iter().map(Vec::len).collect::<Vec<_>>(), [255, 255, 90]);
    assert_eq!(chunks.concat(), ids);
    assert!(split_ids(&[], 4).is_empty());
    assert_eq!(split_ids(&ids[..4], 4).len(), 1);
}

#[test]
fn idle_connections_are_passed_over() {
    assert_eq!(usable_connection(&[5, 31, 40], 30), Some(0));
    assert_eq!(usable_connection(&[5, 6, 30], 30), Some(1));
    assert_eq!(usable_connection(&[30], 30), None);
    assert_eq!(usable_connection(&[], 30), None);
}

#[test]
fn filters_are_parsed() {
    assert_eq!(parse_filter("png").0, Some(LIST_FILTER_PNG));
    assert_eq!(parse_filter("JPG, gif ,jpeg").0, Some(LIST_FILTER_JPEG | LIST_FILTER_GIF));
    assert_eq!(parse_filter("png,jpg,webp,bmp,gif,pdf").0, None);
    assert_eq!(parse_filter("").0, None);
    let (mask, ignored) = parse_filter("bmp, tiff ,,Raw");
    assert_eq!(mask, Some(LIST_FILTER_BMP));
    assert_eq!(ignored, ["tiff", "", "Raw"]);
}

#[test]
fn filters_admit_their_types() {
    assert!(passes_filter(None, 7));
    for t in 0u8..6 {
        assert!(passes_filter(Some(1 << t), t | 8));
        assert!(!passes_filter(Some(!(1 << t)), t));
    }
    assert!(!passes_filter(Some(0xFF), 6));
}

#[test]
fn watch_frames_are_read() {
    let event = WatchEvent {
        id: 10,
        flags: 2,
        filename: "cafe\u{0301}.webp".to_string(),
        size: 9,
    };
    let mut bytes = Vec::new();
    send_watch_event(&mut bytes, &event);
    let whole = bytes.len();
    let (frame, n) = read_watch_frame(&bytes).unwrap();
    assert_eq!(n, whole);
    let WatchFrame::Event(got) = frame else { panic!() };
    assert_eq!(got.filename, "caf\u{e9}.webp");
    assert_eq!(
        event_line(&got),
        "NEW  id=000000000000000a type=webp size=9 name=caf\u{e9}.webp"
    );
    for cut in 0..whole {
        assert_eq!(read_watch_frame(&bytes[..cut]).err(), Some(ProtocolError::UnexpectedEof));
    }

    let mut bytes = Vec::new();
    send_error(&mut bytes, ErrorCode::ServerError, "gone");
    bytes[4] = 77;
    let (frame, n) = read_watch_frame(&bytes).unwrap();
    let WatchFrame::Failed { code, message } = frame else { panic!() };
    assert_eq!((code, message.as_str(), n), (77, "gone", bytes.len()));
    assert_eq!(read_watch_frame(b"JTPL").err(), Some(ProtocolError::UnexpectedHeader));
}

#[test]
fn unknown_types_are_announced_as_such() {
    let event = WatchEvent { id: 0, flags: 7, filename: "f".to_string(), size: 0 };
    assert_eq!(event_line(&event), "NEW  id=0000000000000000 type=unknown size=0 name=f");
}

#[test]
fn rescans_announce_new_images() {
    let file = |name: &str, content: &[u8]| DirFile {
        path: name.to_string(),
        content: Some(content.to_vec()),
    };
    let mut catalog = ImageCatalog::from_dir(Some(vec![file("x/a.png", b"a")]), None);
    let large = vec![3u8; 1_048_577];
    let scan = || {
        let files = vec![file("x/a.png", b"a"), file("x/c.gif", b"ccc"), file("x/b.bmp", &large)];
        ImageCatalog::from_dir(Some(files), None)
    };
    let mut sizes = HashMap::new();
    sizes.insert(compute_image_id(&large), 1_048_577u64);
    let events = catalog_watch_step(&mut catalog, scan(), &sizes, &|_, _| false);
    assert_eq!(events.len(), 2);
    assert_eq!((events[0].filename.as_str(), events[0].size), ("b.bmp", 1_048_577));
    assert_eq!((events[1].filename.as_str(), events[1].size, events[1].flags), ("c.gif", 3, 4));
    assert_eq!(catalog.images.len(), 3);
    assert!(catalog_watch_step(&mut catalog, scan(), &sizes, &|_, _| false).is_empty());
}

#[test]
fn rescans_announce_size_zero_if_unknown() {
    let mut catalog = ImageCatalog::new_empty();
    let large = DirFile { path: "l.png".to_string(), content: Some(vec![0u8; 1_048_577]) };
    let scan = ImageCatalog::from_dir(Some(vec![large]), None);
    let events = catalog_watch_step(&mut catalog, scan, &HashMap::new(), &|_, _| false);
    assert_eq!(events[0].size, 0);
}

#[test]
fn client_defaults() {
    let a = client_args::parse_args(&[]).unwrap();
    assert_eq!(a.addr, "127.0.0.1:8443");
    assert_eq!(a.server_name, "localhost");
    assert_eq!((a.cert_path.as_str(), a.cert_set), ("cert.pem", false));
    assert_eq!(a.receive_dir, "output");
    assert!(!a.batch && !a.watch && !a.verbose && !a.keep_alive && !a.no_quic && !a.plain);
    assert_eq!((a.repeat, a.parallel, a.tcp_nodelay), (1, 1, true));
    assert_eq!(a.filter_mask, None);
}

#[test]
fn client_options() {
    let a = client_args::parse_args(&strings(&[
        "jtp://example.org", "--out", "o", "--delta", "-w", "-f", "png,odd", "-k", "-v", "--repeat",
        "3", "-p", "64", "--no-tcp-nodelay", "--no-quic", "--cert", "c.pem", "ignored", "--unknown",
    ]))
    .unwrap();
    assert_eq!(a.addr, "example.org:8443");
    assert_eq!(a.server_name, "localhost");
    assert_eq!((a.cert_path.as_str(), a.cert_set), ("c.pem", true));
    assert_eq!(a.receive_dir, "o");
    assert!(a.batch && a.watch && a.verbose && a.keep_alive && a.no_quic && !a.tcp_nodelay);
    assert_eq!((a.repeat, a.parallel), (3, 32));
    assert_eq!(a.filter_mask, Some(LIST_FILTER_PNG));
    assert_eq!(a.ignored_types, ["odd"]);

    let a = client_args::parse_args(&strings(&[
        "--addr", "h:1", "--server-name", "s", "--repeat", "0", "-p", "0", "--repeat", "x", "--plain",
        "--addr",
    ]))
    .unwrap();
    assert_eq!((a.addr.as_str(), a.server_name.as_str()), ("h:1", "s"));
    assert_eq!((a.repeat, a.parallel), (1, 1));
    assert!(a.no_quic && a.plain);
    let a = client_args::parse_args(&strings(&["--plain", "--tls"])).unwrap();
    assert!(a.no_quic && !a.plain);
    assert!(client_args::parse_args(&strings(&["-v", "-h"])).is_none());
    assert!(client_args::parse_args(&strings(&["--out", "-h"])).is_some());
}

#[test]
fn server_defaults() {
    let a = server_args::parse_args(&[]).unwrap();
    assert_eq!(a.bind, "0.0.0.0:8443");
    assert_eq!(a.images_dir, "images");
    assert_eq!((a.cert_path.as_str(), a.key_path.as_str()), ("cert.pem", "key.pem"));
    assert_eq!(a.only_name_contains, None);
    assert!(a.compression_thresholds.is_empty());
    assert_eq!((a.keep_alive_timeout, a.rate_limit_window), (30, 1));
    assert_eq!((a.rate_limit, a.watch_interval), (None, None));
    assert!(a.tcp_nodelay && !a.no_tls && !a.verbose);
}

#[test]
fn server_options() {
    let a = server_args::parse_args(&strings(&[
        "--bind", "b", "--images-dir", "i", "--cert", "c", "--key", "k", "--only", "sun",
        "--compress-threshold", "0.5", "--compression-threshold", "oops", "--keep-alive-timeout",
        "+7", "--rate-limit", "12", "--rate-limit-window", "60", "--watch-interval", "0", "--watch",
        "--no-tcp-nodelay", "--plain", "-v", "extra",
    ]))
    .unwrap();
    assert_eq!(a.bind, "b");
    assert_eq!(a.images_dir, "i");
    assert_eq!((a.cert_path.as_str(), a.key_path.as_str()), ("c", "k"));
    assert_eq!(a.only_name_contains.as_deref(), Some("sun"));
    assert_eq!(a.compression_thresholds, ["0.5", "oops"]);
    assert_eq!((a.keep_alive_timeout, a.rate_limit_window), (7, 60));
    assert_eq!((a.rate_limit, a.watch_interval), (Some(12), Some(1)));
    assert!(!a.tcp_nodelay && a.no_tls && a.verbose);

    let a = server_args::parse_args(&strings(&["--watch", "--rate-limit", "-1"])).unwrap();
    assert_eq!((a.rate_limit, a.watch_interval), (None, Some(5)));
    assert!(server_args::parse_args(&strings(&["--help"])).is_none());
}

#[test]
fn numbers_are_parsed() {
    let parse = |s: &str, max: u64| parse_number(&chars_of(s), max);
    assert_eq!(parse("0", 10), Some(0));
    assert_eq!(parse("+007", 10), Some(7));
    assert_eq!(parse("18446744073709551615", u64::MAX), Some(u64::MAX));
    assert_eq!(parse("18446744073709551616", u64::MAX), None);
    assert_eq!(parse("11", 10), None);
    assert_eq!(parse("", 10), None);
    assert_eq!(parse("+", 10), None);
    assert_eq!(parse("-1", 10), None);
    assert_eq!(parse("1 ", 10), None);
    assert_eq!(to_decimal(u64::MAX), "18446744073709551615");
    assert_eq!(to_decimal(0), "0");
}

#[test]
fn rate_limits_hold_in_a_window() {
    let mut limiter = RateLimiter::new(2, 1000);
    assert!(limiter.check(1, 0));
    assert!(limiter.check(1, 10));
    assert!(!limiter.check(1, 999));
    assert!(limiter.check(2, 999));
    limiter.cleanup(999);
    assert!(!limiter.check(1, 999));
    assert!(limiter.check(1, 1000));
    limiter.cleanup(5000);
    assert!(limiter.check(1, 5000));
    assert!(!RateLimiter::new(0, 1000).check(1, 0));
}
