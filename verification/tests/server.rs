//! Request and response flows of a server.

use jtp::protocol::{
    compute_image_id, encode_varint_to_buf, file_type_from_flags, flags_from_file_type,
    read_error, read_image_header, read_list_response, read_u16, read_u64, read_varint_u32,
    read_watch_frame, send_image_with_options, write_batch_request_buffered,
    write_cancel_request_buffered, write_get_request_buffered,
    write_list_and_get_request_buffered, write_list_request_buffered,
    write_watch_request_buffered, ErrorCode, ImageCatalog, ImageId, ImageMetadata, WatchEvent,
    WatchFrame,
    REQUEST_BATCH, REQUEST_FLAG_KEEP_ALIVE, REQUEST_GET_BY_ID, REQUEST_LIST, RESPONSE_BATCH,
    RESPONSE_CANCEL, RESPONSE_ERROR, RESPONSE_GET_BY_ID, RESPONSE_LIST, RESPONSE_LIST_AND_GET,
    RESPONSE_WATCH,
};
use jtp::server::{deliver_event, handle_requests, keep_sending, rate_limited, Session};
use jtp::watch::catalog_watch_step;
use std::collections::{HashMap, HashSet};
use std::sync::Arc;

fn make_catalog(images: Vec<Vec<u8>>) -> ImageCatalog {
    let mut cat = ImageCatalog::new_empty();
    for data in images {
        let id = compute_image_id(&data);
        let meta = ImageMetadata {
            id,
            flags: flags_from_file_type(0),
            file_name: format!("test_{:016x}.png", id),
            cached_data: Some(Arc::new(data)),
        };
        cat.add_image(meta, false);
    }
    cat
}

/// Finds no compression worth it.
fn never(_compressed: usize, _original: usize) -> bool {
    false
}

/// A connection to a server, with what the server has sent on it.
struct Connection {
    catalog: ImageCatalog,
    watch: bool,
    session: Option<Session>,
    unread: Vec<u8>,
    sent: Vec<u8>,
}

impl Connection {
    fn new(catalog: ImageCatalog, watch: bool) -> Self {
        Connection {
            catalog,
            watch,
            session: Some(Session::Fresh),
            unread: Vec::new(),
            sent: Vec::new(),
        }
    }

    /// Hands bytes to the server, which answers all complete requests.
    fn send(&mut self, bytes: &[u8]) {
        self.unread.extend_from_slice(bytes);
        while let Some(session) = self.session {
            let sizes = HashMap::new();
            let step = handle_requests(
                session, &self.unread, &self.catalog, &sizes, &never, self.watch,
            );
            let Some((response, used)) = step else { break };
            self.unread.drain(..used);
            self.sent.extend_from_slice(&response.bytes);
            for id in &response.packets {
                let meta = self.catalog.get_metadata(id).unwrap();
                send_image_with_options(&mut self.sent, meta, 0, &never).unwrap();
            }
            self.session = response.next;
        }
    }

    /// Rescans the image directory: the server announces what is new.
    fn rescan(&mut self, found: ImageCatalog) {
        let events = catalog_watch_step(&mut self.catalog, found, &HashMap::new(), &never);
        for event in &events {
            if let Some(session) = self.session {
                let response = deliver_event(session, event);
                self.sent.extend_from_slice(&response.bytes);
                assert!(response.packets.is_empty());
                self.session = response.next;
            }
        }
    }

    fn take(&mut self, n: usize) -> Vec<u8> {
        self.sent.drain(..n).collect()
    }

    fn take_varint(&mut self) -> u32 {
        let (v, n) = read_varint_u32(&self.sent).unwrap();
        self.take(n);
        v
    }

    fn take_u8(&mut self) -> u8 {
        self.take(1)[0]
    }

    fn take_u64(&mut self) -> u64 {
        let bytes = self.take(8);
        read_u64(&bytes).unwrap()
    }

    fn take_u16(&mut self) -> u16 {
        let bytes = self.take(2);
        read_u16(&bytes).unwrap()
    }

    fn take_error(&mut self) -> ErrorCode {
        assert_eq!(self.take(4), RESPONSE_ERROR);
        let ((code, _), n) = read_error(&self.sent).unwrap();
        self.take(n);
        assert!(self.sent.is_empty());
        assert_eq!(self.session, None, "the connection is closed");
        code
    }
}

#[test]
fn list_response_header_and_varint_count() {
    let mut c = Connection::new(
        make_catalog(vec![b"a".to_vec(), b"bb".to_vec(), b"ccc".to_vec()]),
        false,
    );
    let mut w = Vec::new();
    write_list_request_buffered(&mut w, 0);
    c.send(&w);
    assert_eq!(c.take(4), RESPONSE_LIST, "LIST header must be JTPL");
    assert_eq!(c.take_varint(), 3);
}

#[test]
fn list_catalog_entry_fields() {
    let data = b"test_image_data".to_vec();
    let id = compute_image_id(&data);
    let mut c = Connection::new(make_catalog(vec![data.clone()]), false);
    let mut w = Vec::new();
    write_list_request_buffered(&mut w, 0);
    c.send(&w);

    c.take(4);
    c.take_varint();
    let got_id = c.take_u64();
    let got_flags = c.take_u8();
    let name_len = c.take_u16() as usize;
    let name = c.take(name_len);
    let got_size = c.take_varint();

    assert_eq!(got_id, id);
    assert_eq!(file_type_from_flags(got_flags), 0);
    assert!(!name.is_empty(), "filename must be non-empty");
    assert_eq!(got_size, data.len() as u32);
    assert!(c.sent.is_empty());
}

#[test]
fn list_empty_catalog() {
    let mut c = Connection::new(make_catalog(vec![]), false);
    let mut w = Vec::new();
    write_list_request_buffered(&mut w, 0);
    c.send(&w);
    assert_eq!(c.take(4), RESPONSE_LIST);
    assert_eq!(c.take_varint(), 0, "empty catalog must report count=0");
    assert_eq!(c.session, None);
}

#[test]
fn get_by_id_jtpd_header_present() {
    let data = b"image_bytes".to_vec();
    let id = compute_image_id(&data);
    let mut c = Connection::new(make_catalog(vec![data]), false);
    let mut w = Vec::new();
    write_get_request_buffered(&mut w, 0, &[id]);
    c.send(&w);
    assert_eq!(c.take(4), RESPONSE_GET_BY_ID, "GET_BY_ID must respond with JTPD header");
}

#[test]
fn get_by_id_returns_correct_m_count() {
    let data = b"pixels".to_vec();
    let id = compute_image_id(&data);
    let mut c = Connection::new(make_catalog(vec![data]), false);
    let mut w = Vec::new();
    write_get_request_buffered(&mut w, 0, &[id]);
    c.send(&w);
    c.take(4);
    assert_eq!(c.take_u8(), 1, "server should return M=1 for one known ID");
}

#[test]
fn get_by_id_m_less_than_n_for_unknown_ids() {
    let data = b"real_image".to_vec();
    let known_id = compute_image_id(&data);
    let unknown_id = 0xDEADBEEFu64;
    let mut c = Connection::new(make_catalog(vec![data]), false);
    let mut w = Vec::new();
    write_get_request_buffered(&mut w, 0, &[known_id, unknown_id]);
    c.send(&w);
    assert_eq!(c.take(4), RESPONSE_GET_BY_ID);
    assert_eq!(c.take_u8(), 1, "unknown IDs must be silently skipped; M should be 1");
}

#[test]
fn get_by_id_image_packet_content() {
    let data = b"raw_pixel_data".to_vec();
    let id = compute_image_id(&data);
    let mut c = Connection::new(make_catalog(vec![data.clone()]), false);
    let mut w = Vec::new();
    write_get_request_buffered(&mut w, 0, &[id]);
    c.send(&w);

    c.take(5);
    let flags = c.take_u8();
    let length = c.take_varint();
    let got_id = c.take_u64();
    let body = c.take(length as usize);
    assert_eq!(got_id, id, "ImageID in packet must match requested ID");
    assert_eq!(body, data, "image data must match what was stored");
    assert_eq!(file_type_from_flags(flags), 0);
}

#[test]
fn get_by_id_zero_count_returns_jtpd_m0() {
    let mut c = Connection::new(make_catalog(vec![b"img".to_vec()]), false);
    let mut w = Vec::new();
    write_get_request_buffered(&mut w, 0, &[]);
    c.send(&w);
    assert_eq!(c.take(4), RESPONSE_GET_BY_ID);
    assert_eq!(c.take_u8(), 0, "N=0 request must produce M=0 response");
}

#[test]
fn batch_returns_jtpb_header() {
    let mut c = Connection::new(make_catalog(vec![b"x".to_vec()]), false);
    let mut w = Vec::new();
    write_batch_request_buffered(&mut w, 0, &[]);
    c.send(&w);
    assert_eq!(c.take(4), RESPONSE_BATCH, "BATCH must respond with JTPB");
}

#[test]
fn batch_missing_count_excludes_have_ids() {
    let data_a = b"image_a".to_vec();
    let data_b = b"image_b".to_vec();
    let id_a = compute_image_id(&data_a);
    let id_b = compute_image_id(&data_b);
    let mut c = Connection::new(make_catalog(vec![data_a, data_b]), false);
    let mut w = Vec::new();
    write_batch_request_buffered(&mut w, 0, &[id_a]);
    c.send(&w);

    assert_eq!(c.take(4), RESPONSE_BATCH);
    assert_eq!(c.take_varint(), 1, "client has 1 of 2 images; missing count must be 1");
    let _flags = c.take_u8();
    let length = c.take_varint();
    assert_eq!(c.take_u64(), id_b);
    assert_eq!(c.take(length as usize), b"image_b");
}

#[test]
fn batch_all_have_sends_zero_images() {
    let data = b"only_image".to_vec();
    let id = compute_image_id(&data);
    let mut c = Connection::new(make_catalog(vec![data]), false);
    let mut w = Vec::new();
    write_batch_request_buffered(&mut w, 0, &[id]);
    c.send(&w);
    assert_eq!(c.take(4), RESPONSE_BATCH);
    assert_eq!(c.take_varint(), 0, "client has all images; missing count must be 0");
    assert!(c.sent.is_empty());
}

#[test]
fn list_and_get_header_and_varint_count() {
    let mut c = Connection::new(make_catalog(vec![b"p".to_vec(), b"qq".to_vec()]), false);
    let mut w = Vec::new();
    write_list_and_get_request_buffered(&mut w, 0);
    c.send(&w);
    assert_eq!(c.take(4), RESPONSE_LIST_AND_GET, "LIST_AND_GET must respond with JTPG");
    assert_eq!(c.take_varint(), 2);
}

#[test]
fn list_and_get_delivers_all_images() {
    let data_a = b"img_a".to_vec();
    let data_b = b"img_b".to_vec();
    let ids: HashSet<ImageId> = [compute_image_id(&data_a), compute_image_id(&data_b)]
        .into_iter()
        .collect();
    let mut c = Connection::new(make_catalog(vec![data_a, data_b]), false);
    let mut w = Vec::new();
    write_list_and_get_request_buffered(&mut w, 0);
    c.send(&w);

    c.take(4);
    let count = c.take_varint();
    let mut received = HashSet::new();
    for _ in 0..count {
        let (header, n) = read_image_header(&c.sent).unwrap();
        c.take(n + header.length as usize);
        received.insert(header.id);
    }
    assert_eq!(received, ids, "LIST_AND_GET must deliver all images");
    assert!(c.sent.is_empty());
}

#[test]
fn keep_alive_allows_multiple_requests() {
    let data = b"multi".to_vec();
    let id = compute_image_id(&data);
    let mut c = Connection::new(make_catalog(vec![data]), false);
    let mut w = Vec::new();
    write_list_request_buffered(&mut w, REQUEST_FLAG_KEEP_ALIVE);
    c.send(&w);
    let (_, n) = read_list_response(&c.sent, None).unwrap();
    c.take(n);
    assert_eq!(c.session, Some(Session::KeptAlive));

    let mut w = Vec::new();
    write_get_request_buffered(&mut w, 0, &[id]);
    c.send(&w);
    assert_eq!(
        c.take(4),
        RESPONSE_GET_BY_ID,
        "second request must succeed on the kept-alive connection"
    );
    assert_eq!(c.session, None);
}

#[test]
fn image_id_verification_detects_corruption() {
    let data = b"genuine_data".to_vec();
    let id = compute_image_id(&data);
    let corrupted = b"tampered_data".to_vec();
    assert_eq!(compute_image_id(&data), id, "known-good data must verify");
    assert_ne!(
        compute_image_id(&corrupted),
        id,
        "tampered data must fail ImageID verification"
    );
}

#[test]
fn cancel_on_non_keepalive_returns_error() {
    let mut c = Connection::new(make_catalog(vec![b"img".to_vec()]), false);
    let mut w = Vec::new();
    write_cancel_request_buffered(&mut w);
    c.send(&w);
    assert_eq!(c.take_error(), ErrorCode::InvalidRequest);
}

#[test]
fn cancel_after_keepalive_returns_jtpc() {
    let mut c = Connection::new(make_catalog(vec![b"img".to_vec()]), false);
    let mut w = Vec::new();
    write_list_request_buffered(&mut w, REQUEST_FLAG_KEEP_ALIVE);
    c.send(&w);
    let (_, n) = read_list_response(&c.sent, None).unwrap();
    c.take(n);

    let mut w = Vec::new();
    write_cancel_request_buffered(&mut w);
    c.send(&w);
    assert_eq!(
        c.take(4),
        RESPONSE_CANCEL,
        "CANCEL on keep-alive connection must return JTPC"
    );
    assert_eq!(c.session, Some(Session::KeptAlive));
}

#[test]
fn watch_unsupported_when_no_tx() {
    let mut c = Connection::new(make_catalog(vec![]), false);
    let mut w = Vec::new();
    write_watch_request_buffered(&mut w);
    c.send(&w);
    assert_eq!(c.take_error(), ErrorCode::UnsupportedFeature);
}

#[test]
fn watch_receives_jtpw_event_then_cancel() {
    let mut c = Connection::new(make_catalog(vec![]), true);
    let mut w = Vec::new();
    write_watch_request_buffered(&mut w);
    c.send(&w);
    assert_eq!(c.session, Some(Session::Watching));
    assert!(c.sent.is_empty());

    let event = WatchEvent {
        id: 0x1234567890ABCDEFu64,
        flags: flags_from_file_type(2),
        filename: "new_image.webp".to_string(),
        size: 2048,
    };
    let mut found = ImageCatalog::new_empty();
    found.add_image(
        ImageMetadata {
            id: event.id,
            flags: event.flags,
            file_name: format!("images/{}", event.filename),
            cached_data: Some(Arc::new(vec![0u8; 2048])),
        },
        false,
    );
    c.rescan(found);
    assert_eq!(c.take(4), RESPONSE_WATCH, "server must push JTPW frame");
    assert_eq!(c.take_u64(), event.id);
    assert_eq!(c.take_u8(), event.flags);
    let name_len = c.take_u16() as usize;
    assert_eq!(String::from_utf8(c.take(name_len)).unwrap(), event.filename);
    assert_eq!(c.take_varint(), event.size);

    let mut w = Vec::new();
    write_cancel_request_buffered(&mut w);
    c.send(&w);
    assert_eq!(c.take(4), RESPONSE_CANCEL, "WATCH CANCEL must return JTPC");
    assert_eq!(c.session, Some(Session::KeptAlive));
}

#[test]
fn subscription_sends_new_images_in_order_then_jtpc() {
    let old = b"there already".to_vec();
    let mut c = Connection::new(make_catalog(vec![old.clone()]), true);
    c.rescan(make_catalog(vec![old.clone(), b"before".to_vec()]));
    assert!(c.sent.is_empty(), "nobody is subscribed yet");

    let mut w = Vec::new();
    write_watch_request_buffered(&mut w);
    c.send(&w);
    let one = vec![old.clone(), b"one".to_vec()];
    c.rescan(make_catalog(one.clone()));
    c.rescan(make_catalog(one));
    c.rescan(make_catalog(vec![b"two".to_vec(), b"three".to_vec()]));
    let mut w = Vec::new();
    write_cancel_request_buffered(&mut w);
    c.send(&w);
    c.rescan(make_catalog(vec![b"after".to_vec()]));

    let mut last = [compute_image_id(b"two"), compute_image_id(b"three")];
    last.sort();
    for id in [compute_image_id(b"one"), last[0], last[1]] {
        let (frame, n) = read_watch_frame(&c.sent).unwrap();
        let WatchFrame::Event(event) = frame else { panic!() };
        assert_eq!(event.id, id);
        c.take(n);
    }
    assert_eq!(c.sent, RESPONSE_CANCEL);
}

#[test]
fn watching_clients_can_only_cancel() {
    let mut c = Connection::new(make_catalog(vec![]), true);
    let mut w = Vec::new();
    write_watch_request_buffered(&mut w);
    write_list_request_buffered(&mut w, 0);
    c.send(&w);
    assert_eq!(c.take(4), RESPONSE_ERROR);
    let ((code, _), n) = read_error(&c.sent).unwrap();
    c.take(n);
    assert_eq!(code, ErrorCode::InvalidRequest);
    assert_eq!(c.session, Some(Session::Watching), "the subscription goes on");
    let mut w = Vec::new();
    write_cancel_request_buffered(&mut w);
    c.send(&w);
    assert_eq!(c.sent, RESPONSE_CANCEL);
}

#[test]
fn unknown_reqtype_returns_unsupported_feature() {
    let mut c = Connection::new(make_catalog(vec![]), false);
    c.send(&[0xFF, 0x00]);
    assert_eq!(
        c.take_error(),
        ErrorCode::UnsupportedFeature,
        "unknown ReqType must yield UnsupportedFeature, not InvalidRequest"
    );
}

#[test]
fn reserved_request_flags_return_invalid_request() {
    let mut c = Connection::new(make_catalog(vec![]), false);
    c.send(&[REQUEST_LIST, 0b0000_0010]);
    assert_eq!(c.take_error(), ErrorCode::InvalidRequest);
}

#[test]
fn all_reserved_flags_set_returns_invalid_request() {
    let mut c = Connection::new(make_catalog(vec![]), false);
    c.send(&[REQUEST_GET_BY_ID, 0xFF]);
    assert_eq!(c.take_error(), ErrorCode::InvalidRequest);
}

#[test]
fn cancel_and_watch_with_flags_are_invalid() {
    for req_type in [3u8, 4] {
        let mut c = Connection::new(make_catalog(vec![]), true);
        c.send(&[req_type, REQUEST_FLAG_KEEP_ALIVE]);
        assert_eq!(c.take_error(), ErrorCode::InvalidRequest);
    }
}

#[test]
fn batch_oversized_have_count_returns_invalid_request() {
    let mut c = Connection::new(make_catalog(vec![]), false);
    let too_large: u32 = 1_000_001;
    let mut buf = vec![REQUEST_BATCH, 0x00];
    let mut varint = [0u8; 5];
    let n = encode_varint_to_buf(too_large, &mut varint);
    buf.extend_from_slice(&varint[..n]);
    c.send(&buf);
    assert_eq!(c.take_error(), ErrorCode::InvalidRequest);
}

#[test]
fn batch_with_malformed_count_is_invalid() {
    let mut c = Connection::new(make_catalog(vec![]), false);
    c.send(&[REQUEST_BATCH, 0x00, 0x81, 0x00]);
    assert_eq!(c.take_error(), ErrorCode::InvalidRequest);
}

#[test]
fn batch_at_limit_is_accepted() {
    let mut c = Connection::new(make_catalog(vec![b"one".to_vec()]), false);
    let at_limit: u32 = 1_000_000;
    let mut buf = vec![REQUEST_BATCH, 0x00];
    let mut vb = [0u8; 5];
    let n = encode_varint_to_buf(at_limit, &mut vb);
    buf.extend_from_slice(&vb[..n]);
    for i in 0u32..at_limit {
        buf.extend_from_slice(&(i as u64).to_be_bytes());
    }
    c.send(&buf);
    assert_eq!(c.take(4), RESPONSE_BATCH, "BATCH at limit must succeed with JTPB");
    assert_eq!(c.take_varint(), 1);
}

#[test]
fn abrupt_disconnect_does_not_panic_server() {
    let mut c = Connection::new(make_catalog(vec![]), false);
    c.send(&[REQUEST_LIST]);
    assert!(c.sent.is_empty());
    assert_eq!(c.session, Some(Session::Fresh));
}

#[test]
fn requests_may_arrive_in_pieces() {
    let data = b"piecemeal".to_vec();
    let id = compute_image_id(&data);
    let mut c = Connection::new(make_catalog(vec![data]), false);
    let mut w = Vec::new();
    write_batch_request_buffered(&mut w, 0, &[id, 5, 6]);
    let (last, first) = w.split_last().unwrap();
    for byte in first {
        c.send(&[*byte]);
        assert!(c.sent.is_empty());
    }
    c.send(&[*last]);
    assert_eq!(c.sent, b"JTPB\x00");
}

#[test]
fn cancel_is_seen_between_packets() {
    let mut w = Vec::new();
    write_cancel_request_buffered(&mut w);
    assert!(!keep_sending(Some(Session::KeptAlive), &w));
    assert!(keep_sending(Some(Session::KeptAlive), &w[..1]));
    assert!(keep_sending(Some(Session::KeptAlive), &[REQUEST_LIST, 0]));
    assert!(keep_sending(None, &w));
}

#[test]
fn rate_limited_clients_are_told_so() {
    let r = rate_limited();
    assert_eq!(r.bytes, b"JTPE\x05\x00\x11too many requests");
    assert_eq!(r.next, None);
    assert!(r.packets.is_empty());
}
