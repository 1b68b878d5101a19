//! What a server answers, and when it closes a connection.

use crate::bytes::append_bytes;
use crate::catalog::{is_listing, ImageCatalog, ImageModel};
use crate::compression::decisive;
use crate::flags::{request_flags_check, REQUEST_FLAG_KEEP_ALIVE};
use crate::frames::{
    error_bytes, send_cancel_ack, send_error, ErrorCode, RESPONSE_BATCH, RESPONSE_CANCEL,
    RESPONSE_GET_BY_ID, RESPONSE_LIST_AND_GET,
};
use crate::image_id::ImageId;
use crate::listing::{
    countable, list_bytes, names_normal, send_catalog_buffered, sized_ids, sizing_of, Sizing,
};
use crate::request::{
    batch_request_bytes, get_request_bytes, keep_alive_flags, law_batch_request_round_trip,
    law_get_request_round_trip, law_large_batch_refused, law_request_reading, law_request_settled,
    law_short_request_round_trip, read_request, request_at_front, Request, RequestError,
    RequestModel, MAX_HAVE_COUNT, REQUEST_BATCH, REQUEST_CANCEL, REQUEST_LIST,
    REQUEST_LIST_AND_GET, REQUEST_WATCH,
};
use crate::text::nfc_form;
use crate::varint::{varint_bytes, write_varint_u32};
use crate::watch::{event_bytes, events_bytes, send_watch_event, EventModel, WatchEvent};
use std::collections::{HashMap, HashSet};
use vstd::prelude::*;

verus! {

broadcast use vstd::std_specs::hash::group_hash_axioms;

/// Where a connection stands between two requests.
#[derive(Debug, Clone, Copy, PartialEq, Eq, Structural)]
pub enum Session {
    /// No request has been answered yet.
    Fresh,
    /// The connection was kept alive after a response.
    KeptAlive,
    /// The client is subscribed to new images.
    Watching,
}

/// What a server does about a request.
pub struct Response {
    /// The bytes to send at once.
    pub bytes: Vec<u8>,
    /// The images whose packets follow, in this order.
    pub packets: Vec<ImageId>,
    /// The session to go on with; `None` closes the connection.
    pub next: Option<Session>,
}

/// What a server does about a request, as a mathematical value.
#[verifier::ext_equal]
pub struct ResponseModel {
    pub bytes: Seq<u8>,
    pub packets: Seq<ImageId>,
    pub next: Option<Session>,
}

impl View for Response {
    type V = ResponseModel;

    open spec fn view(&self) -> ResponseModel {
        ResponseModel { bytes: self.bytes@, packets: self.packets@, next: self.next }
    }
}

/// The error code and message with which a request is refused.
pub open spec fn refusal(e: RequestError) -> (ErrorCode, Seq<char>) {
    match e {
        RequestError::UnknownType => (ErrorCode::UnsupportedFeature, "unknown request type"@),
        RequestError::FlagsNotZero => (ErrorCode::InvalidRequest, "request flags must be 0"@),
        RequestError::MalformedCount => (ErrorCode::InvalidRequest, "malformed count"@),
        RequestError::TooManyIds => (ErrorCode::InvalidRequest, "have_count exceeds limit"@),
        _ => (ErrorCode::InvalidRequest, "reserved request flags are set"@),
    }
}

/// An ERROR response, after which the connection is closed.
pub open spec fn refused(code: ErrorCode, message: Seq<char>) -> ResponseModel {
    ResponseModel { bytes: error_bytes(code, message), packets: Seq::empty(), next: None }
}

/// The session after a response: open if the request asked for it.
pub open spec fn after(keep_alive: bool) -> Option<Session> {
    if keep_alive {
        Some(Session::KeptAlive)
    } else {
        None
    }
}

/// Those of `ids` that are known, in the same order.
pub open spec fn known_ids(images: Map<ImageId, ImageModel>, ids: Seq<ImageId>) -> Seq<ImageId>
    decreases ids.len(),
{
    if ids.len() == 0 {
        ids
    } else {
        let before = known_ids(images, ids.drop_last());
        if images.dom().contains(ids.last()) {
            before.push(ids.last())
        } else {
            before
        }
    }
}

/// Those of `ids` that are not among `have`, in the same order.
pub open spec fn missing_ids(have: Seq<ImageId>, ids: Seq<ImageId>) -> Seq<ImageId>
    decreases ids.len(),
{
    if ids.len() == 0 {
        ids
    } else {
        let before = missing_ids(have, ids.drop_last());
        if have.contains(ids.last()) {
            before
        } else {
            before.push(ids.last())
        }
    }
}

/// The answer to a request. `order` lists the images, and `watch_enabled`
/// says whether the server announces new ones.
///
/// While a client is subscribed, it can only cancel the subscription; other
/// requests are answered with an error, and the subscription goes on.
pub open spec fn answer(
    session: Session,
    request: RequestModel,
    keep_alive: bool,
    images: Map<ImageId, ImageModel>,
    order: Seq<ImageId>,
    sizing: Sizing,
    watch_enabled: bool,
) -> ResponseModel {
    match request {
        RequestModel::Cancel => if session == Session::Fresh {
            refused(ErrorCode::InvalidRequest, "CANCEL requires keep-alive"@)
        } else {
            ResponseModel {
                bytes: RESPONSE_CANCEL@,
                packets: Seq::empty(),
                next: Some(Session::KeptAlive),
            }
        },
        _ => if session == Session::Watching {
            ResponseModel {
                bytes: error_bytes(ErrorCode::InvalidRequest, "subscription is active"@),
                packets: Seq::empty(),
                next: Some(Session::Watching),
            }
        } else {
            match request {
                RequestModel::List => ResponseModel {
                    bytes: list_bytes(
                        images,
                        sizing,
                        sized_ids(images, sizing, countable(order)),
                    ),
                    packets: Seq::empty(),
                    next: after(keep_alive),
                },
                RequestModel::GetById(ids) => {
                    let packets = known_ids(images, ids);
                    let bytes = RESPONSE_GET_BY_ID@ + seq![packets.len() as u8];
                    ResponseModel { bytes, packets, next: after(keep_alive) }
                },
                RequestModel::Batch(have) => {
                    let packets = countable(missing_ids(have, order));
                    let bytes = RESPONSE_BATCH@ + varint_bytes(packets.len());
                    ResponseModel { bytes, packets, next: after(keep_alive) }
                },
                RequestModel::ListAndGet => {
                    let packets = countable(order);
                    let bytes = RESPONSE_LIST_AND_GET@ + varint_bytes(packets.len());
                    ResponseModel { bytes, packets, next: after(keep_alive) }
                },
                _ => if watch_enabled {
                    ResponseModel {
                        bytes: Seq::empty(),
                        packets: Seq::empty(),
                        next: Some(Session::Watching),
                    }
                } else {
                    refused(ErrorCode::UnsupportedFeature, "WATCH is not enabled"@)
                },
            }
        },
    }
}

fn refuse(code: ErrorCode, message: &str) -> (r: Response)
    ensures
        r@ == refused(code, message@),
{
    let mut bytes: Vec<u8> = Vec::new();
    send_error(&mut bytes, code, message);
    let r = Response { bytes, packets: Vec::new(), next: None };
    proof {
        assert(r@ =~= refused(code, message@));
    }
    r
}

fn session_after(keep_alive: bool) -> (r: Option<Session>)
    ensures
        r == after(keep_alive),
{
    if keep_alive {
        Some(Session::KeptAlive)
    } else {
        None
    }
}

/// Selects `known_ids`.
pub fn select_known(catalog: &ImageCatalog, ids: &[ImageId]) -> (known: Vec<ImageId>)
    ensures
        known@ == known_ids(catalog.model(), ids@),
        known@.len() <= ids@.len(),
{
    let mut known: Vec<ImageId> = Vec::new();
    let mut i: usize = 0;
    proof {
        assert(ids@.take(0) =~= Seq::<ImageId>::empty());
    }
    while i < ids.len()
        invariant
            i <= ids@.len(),
            known@ == known_ids(catalog.model(), ids@.take(i as int)),
            known@.len() <= i,
        decreases ids@.len() - i,
    {
        proof {
            assert(ids@.take(i + 1).drop_last() =~= ids@.take(i as int));
        }
        if catalog.get_metadata(&ids[i]).is_some() {
            known.push(ids[i]);
        }
        i = i + 1;
    }
    proof {
        assert(ids@.take(i as int) =~= ids@);
    }
    known
}

/// Selects `missing_ids`.
pub fn select_missing(have: &[ImageId], ids: &[ImageId]) -> (missing: Vec<ImageId>)
    ensures
        missing@ == missing_ids(have@, ids@),
{
    let mut had: HashSet<ImageId> = HashSet::new();
    let mut k: usize = 0;
    while k < have.len()
        invariant
            k <= have@.len(),
            forall|id: ImageId| had@.contains(id) <==> have@.take(k as int).contains(id),
        decreases have@.len() - k,
    {
        let ghost before = have@.take(k as int);
        let ghost next = have@.take(k + 1);
        had.insert(have[k]);
        proof {
            assert(next =~= before.push(have@[k as int]));
            assert forall|id: ImageId| next.contains(id) <==> before.contains(id) || id
                == have@[k as int] by {
                if before.contains(id) {
                    let j = choose|j: int| 0 <= j < before.len() && before[j] == id;
                    assert(next[j] == id);
                }
                assert(next[k as int] == have@[k as int]);
                if next.contains(id) && id != have@[k as int] {
                    let j = choose|j: int| 0 <= j < next.len() && next[j] == id;
                    assert(before[j] == id);
                }
            }
        }
        k = k + 1;
    }
    let mut missing: Vec<ImageId> = Vec::new();
    let mut i: usize = 0;
    proof {
        assert(have@.take(k as int) =~= have@);
        assert(ids@.take(0) =~= Seq::<ImageId>::empty());
    }
    while i < ids.len()
        invariant
            i <= ids@.len(),
            forall|id: ImageId| had@.contains(id) <==> have@.contains(id),
            missing@ == missing_ids(have@, ids@.take(i as int)),
        decreases ids@.len() - i,
    {
        let id: u64 = ids[i];
        proof {
            assert(ids@.take(i + 1).drop_last() =~= ids@.take(i as int));
            assert(had@.contains(id) <==> have@.contains(id));
        }
        if !had.contains(&id) {
            missing.push(id);
        }
        i = i + 1;
    }
    proof {
        assert(ids@.take(i as int) =~= ids@);
    }
    missing
}

fn packets_response(magic: [u8; 4], ids: &[ImageId], keep_alive: bool) -> (r: Response)
    ensures
        r@ == (ResponseModel {
            bytes: magic@ + varint_bytes(countable(ids@).len()),
            packets: countable(ids@),
            next: after(keep_alive),
        }),
{
    let n: usize = if ids.len() as u64 <= 0xFFFF_FFFF {
        ids.len()
    } else {
        0xFFFF_FFFF
    };
    let mut bytes: Vec<u8> = Vec::new();
    append_bytes(&mut bytes, &magic);
    write_varint_u32(&mut bytes, n as u32);
    let mut packets: Vec<ImageId> = Vec::new();
    packets.extend_from_slice(&ids[0..n]);
    let r = Response { bytes, packets, next: session_after(keep_alive) };
    proof {
        assert(packets@ =~= countable(ids@));
        assert(r@.bytes =~= magic@ + varint_bytes(countable(ids@).len()));
    }
    r
}

/// Answers a request.
pub fn respond<F: Fn(usize, usize) -> bool>(
    session: Session,
    request: Request,
    keep_alive: bool,
    catalog: &ImageCatalog,
    file_sizes: &HashMap<ImageId, u64>,
    worth_it: &F,
    watch_enabled: bool,
) -> (r: Response)
    requires
        catalog.wf(),
        decisive(*worth_it),
        request@ matches RequestModel::GetById(ids) ==> ids.len() <= 255,
    ensures
        r@ == answer(
            session,
            request@,
            keep_alive,
            catalog.model(),
            catalog.order(),
            sizing_of(file_sizes@, *worth_it),
            watch_enabled,
        ),
        request@ is List && session != Session::Watching ==> names_normal(
            catalog.model(),
            sized_ids(
                catalog.model(),
                sizing_of(file_sizes@, *worth_it),
                countable(catalog.order()),
            ),
        ),
{
    if let Request::Cancel = request {
        if session == Session::Fresh {
            return refuse(ErrorCode::InvalidRequest, "CANCEL requires keep-alive");
        }
        let mut bytes: Vec<u8> = Vec::new();
        send_cancel_ack(&mut bytes);
        let r = Response { bytes, packets: Vec::new(), next: Some(Session::KeptAlive) };
        proof {
            assert(r@.bytes =~= RESPONSE_CANCEL@);
            assert(r@.packets =~= Seq::<ImageId>::empty());
        }
        return r;
    }
    if session == Session::Watching {
        let error = refuse(ErrorCode::InvalidRequest, "subscription is active");
        return Response {
            bytes: error.bytes,
            packets: error.packets,
            next: Some(Session::Watching),
        };
    }
    match request {
        Request::List => {
            let mut bytes: Vec<u8> = Vec::new();
            send_catalog_buffered(&mut bytes, catalog, file_sizes, worth_it);
            let r = Response { bytes, packets: Vec::new(), next: session_after(keep_alive) };
            proof {
                let images = catalog.model();
                let sizing = sizing_of(file_sizes@, *worth_it);
                let ids = sized_ids(images, sizing, countable(catalog.order()));
                assert(r@.bytes =~= list_bytes(images, sizing, ids));
                assert(r@.packets =~= Seq::<ImageId>::empty());
            }
            r
        },
        Request::GetById(ids) => {
            let packets = select_known(catalog, &ids);
            let mut bytes: Vec<u8> = Vec::new();
            append_bytes(&mut bytes, &RESPONSE_GET_BY_ID);
            bytes.push(packets.len() as u8);
            let r = Response { bytes, packets, next: session_after(keep_alive) };
            proof {
                assert(r@.bytes =~= RESPONSE_GET_BY_ID@ + seq![packets@.len() as u8]);
            }
            r
        },
        Request::Batch(have) => {
            let missing = select_missing(&have, catalog.sorted_ids());
            packets_response(RESPONSE_BATCH, &missing, keep_alive)
        },
        Request::ListAndGet => packets_response(
            RESPONSE_LIST_AND_GET,
            catalog.sorted_ids(),
            keep_alive,
        ),
        _ => {
            if watch_enabled {
                let r = Response {
                    bytes: Vec::new(),
                    packets: Vec::new(),
                    next: Some(Session::Watching),
                };
                proof {
                    assert(r@.bytes =~= Seq::<u8>::empty());
                    assert(r@.packets =~= Seq::<ImageId>::empty());
                }
                r
            } else {
                refuse(ErrorCode::UnsupportedFeature, "WATCH is not enabled")
            }
        },
    }
}

/// What a server does about the bytes that it has received, and how many of
/// them that uses up; `None` while it has to wait for more.
pub open spec fn reaction(
    session: Session,
    input: Seq<u8>,
    images: Map<ImageId, ImageModel>,
    order: Seq<ImageId>,
    sizing: Sizing,
    watch_enabled: bool,
) -> Option<(ResponseModel, nat)> {
    match request_at_front(input) {
        Ok(((request, keep_alive), n)) => Some(
            (answer(session, request, keep_alive, images, order, sizing, watch_enabled), n),
        ),
        Err(RequestError::Incomplete) => None,
        Err(e) => Some((refused(refusal(e).0, refusal(e).1), input.len())),
    }
}

/// One step of serving a connection: reacts to the bytes received so far.
/// The result is `None` while the request in them is incomplete. With the
/// response comes the number of bytes that the request takes; of a refused
/// one, that is all.
pub fn handle_requests<F: Fn(usize, usize) -> bool>(
    session: Session,
    input: &[u8],
    catalog: &ImageCatalog,
    file_sizes: &HashMap<ImageId, u64>,
    worth_it: &F,
    watch_enabled: bool,
) -> (r: Option<(Response, usize)>)
    requires
        catalog.wf(),
        decisive(*worth_it),
    ensures
        match reaction(
            session,
            input@,
            catalog.model(),
            catalog.order(),
            sizing_of(file_sizes@, *worth_it),
            watch_enabled,
        ) {
            Some((response, n)) => r matches Some((rr, rn)) && rr@ == response && rn == n && n
                <= input@.len(),
            None => r is None,
        },
        (request_at_front(input@) matches Ok(((RequestModel::List, _), _))) && session
            != Session::Watching ==> names_normal(
            catalog.model(),
            sized_ids(
                catalog.model(),
                sizing_of(file_sizes@, *worth_it),
                countable(catalog.order()),
            ),
        ),
{
    let (code, message) = match read_request(input) {
        Ok(((request, keep_alive), n)) => {
            let response = respond(
                session,
                request,
                keep_alive,
                catalog,
                file_sizes,
                worth_it,
                watch_enabled,
            );
            return Some((response, n));
        },
        Err(RequestError::Incomplete) => return None,
        Err(RequestError::UnknownType) => (ErrorCode::UnsupportedFeature, "unknown request type"),
        Err(RequestError::FlagsNotZero) => (ErrorCode::InvalidRequest, "request flags must be 0"),
        Err(RequestError::MalformedCount) => (ErrorCode::InvalidRequest, "malformed count"),
        Err(RequestError::TooManyIds) => (ErrorCode::InvalidRequest, "have_count exceeds limit"),
        Err(RequestError::ReservedFlags) => (
            ErrorCode::InvalidRequest,
            "reserved request flags are set",
        ),
    };
    Some((refuse(code, message), input.len()))
}

/// Whether a server that has sent a packet of a response goes on with the next
/// one: not if a CANCEL request has come in on a connection that stays open.
pub open spec fn goes_on(next: Option<Session>, input: Seq<u8>) -> bool {
    !(next is Some && (request_at_front(input) matches Ok(((RequestModel::Cancel, _), _))))
}

/// Decides `goes_on`. `next` is the session after the response, and `input`
/// holds the bytes received meanwhile.
pub fn keep_sending(next: Option<Session>, input: &[u8]) -> (r: bool)
    ensures
        r == goes_on(next, input@),
{
    if next.is_none() {
        return true;
    }
    match read_request(input) {
        Ok(((Request::Cancel, _), _)) => false,
        _ => true,
    }
}

/// What a server sends on a connection when a new image is announced: the
/// event, if the client is subscribed.
pub open spec fn delivery(session: Session, event: EventModel) -> ResponseModel {
    ResponseModel {
        bytes: if session == Session::Watching {
            event_bytes(event)
        } else {
            Seq::empty()
        },
        packets: Seq::empty(),
        next: Some(session),
    }
}

/// Announces a new image on a connection.
pub fn deliver_event(session: Session, event: &WatchEvent) -> (r: Response)
    ensures
        r@ == delivery(session, event@),
        nfc_form(nfc_form(event.filename@)) == nfc_form(event.filename@),
{
    let mut frame: Vec<u8> = Vec::new();
    send_watch_event(&mut frame, event);
    let bytes = if session == Session::Watching {
        frame
    } else {
        Vec::new()
    };
    let r = Response { bytes, packets: Vec::new(), next: Some(session) };
    proof {
        assert(r@ =~= delivery(session, event@));
    }
    r
}

/// The answer to a client that sends too many requests.
pub fn rate_limited() -> (r: Response)
    ensures
        r@ == refused(ErrorCode::RateLimited, "too many requests"@),
{
    refuse(ErrorCode::RateLimited, "too many requests")
}

/// `known_ids` holds exactly those requested images that are known, so never
/// more than were requested, and all of them if all are known.
pub proof fn law_get_returns_known(images: Map<ImageId, ImageModel>, ids: Seq<ImageId>)
    ensures
        known_ids(images, ids).len() <= ids.len(),
        forall|id: ImageId|
            known_ids(images, ids).contains(id) <==> ids.contains(id) && images.dom().contains(id),
        (forall|i: int| 0 <= i < ids.len() ==> images.dom().contains(#[trigger] ids[i]))
            ==> known_ids(images, ids) == ids,
    decreases ids.len(),
{
    if ids.len() > 0 {
        let front = ids.drop_last();
        let before = known_ids(images, front);
        let all = known_ids(images, ids);
        law_get_returns_known(images, front);
        assert forall|id: ImageId| all.contains(id) <==> ids.contains(id) && images.dom().contains(
            id,
        ) by {
            if ids.contains(id) {
                let k = choose|k: int| 0 <= k < ids.len() && ids[k] == id;
                if k < front.len() {
                    assert(front[k] == id);
                }
            }
            if front.contains(id) {
                let k = choose|k: int| 0 <= k < front.len() && front[k] == id;
                assert(ids[k] == id);
            }
            if before.contains(id) {
                let k = choose|k: int| 0 <= k < before.len() && before[k] == id;
                assert(all[k] == id);
            }
            if all.contains(id) {
                let k = choose|k: int| 0 <= k < all.len() && all[k] == id;
                if k < before.len() {
                    assert(before[k] == id);
                }
            }
            if id == ids.last() {
                assert(ids[ids.len() - 1] == id);
                if images.dom().contains(id) {
                    assert(all[all.len() - 1] == id);
                }
            }
        }
        if forall|i: int| 0 <= i < ids.len() ==> images.dom().contains(#[trigger] ids[i]) {
            assert forall|i: int| 0 <= i < front.len() implies images.dom().contains(
                #[trigger] front[i],
            ) by {
                assert(front[i] == ids[i]);
            }
            assert(images.dom().contains(ids[ids.len() - 1]));
            assert(front.push(ids.last()) =~= ids);
        }
    }
}

proof fn lemma_missing_ids(have: Seq<ImageId>, ids: Seq<ImageId>)
    ensures
        missing_ids(have, ids).len() <= ids.len(),
        forall|id: ImageId|
            missing_ids(have, ids).contains(id) <==> ids.contains(id) && !have.contains(id),
        ids.no_duplicates() ==> missing_ids(have, ids).no_duplicates(),
    decreases ids.len(),
{
    if ids.len() > 0 {
        let front = ids.drop_last();
        let before = missing_ids(have, front);
        let all = missing_ids(have, ids);
        lemma_missing_ids(have, front);
        assert forall|id: ImageId| all.contains(id) <==> ids.contains(id) && !have.contains(id) by {
            if ids.contains(id) {
                let k = choose|k: int| 0 <= k < ids.len() && ids[k] == id;
                if k < front.len() {
                    assert(front[k] == id);
                }
            }
            if front.contains(id) {
                let k = choose|k: int| 0 <= k < front.len() && front[k] == id;
                assert(ids[k] == id);
            }
            if before.contains(id) {
                let k = choose|k: int| 0 <= k < before.len() && before[k] == id;
                assert(all[k] == id);
            }
            if all.contains(id) {
                let k = choose|k: int| 0 <= k < all.len() && all[k] == id;
                if k < before.len() {
                    assert(before[k] == id);
                }
            }
            if id == ids.last() {
                assert(ids[ids.len() - 1] == id);
                if !have.contains(id) {
                    assert(all[all.len() - 1] == id);
                }
            }
        }
        if ids.no_duplicates() {
            assert(front.no_duplicates());
            assert(!front.contains(ids.last()));
        }
    }
}

/// A client that sends a BATCH request with the images it has is sent exactly
/// the images it lacks, each once.
pub proof fn law_batch_sends_what_is_missing(
    session: Session,
    keep_alive: bool,
    have: Seq<ImageId>,
    images: Map<ImageId, ImageModel>,
    order: Seq<ImageId>,
    sizing: Sizing,
    watch_enabled: bool,
)
    requires
        session != Session::Watching,
        have.len() <= MAX_HAVE_COUNT,
        is_listing(images, order),
        order.len() <= u32::MAX,
    ensures
        ({
            let request = batch_request_bytes(keep_alive_flags(keep_alive), have);
            &&& reaction(session, request, images, order, sizing, watch_enabled) matches Some(
                (response, n),
            )
            &&& n == request.len()
            &&& response.bytes == RESPONSE_BATCH@ + varint_bytes(response.packets.len())
            &&& response.packets.no_duplicates()
            &&& forall|id: ImageId|
                response.packets.contains(id) <==> images.dom().contains(id) && !have.contains(id)
            &&& response.next == after(keep_alive)
        }),
{
    let request = batch_request_bytes(keep_alive_flags(keep_alive), have);
    law_batch_request_round_trip(keep_alive, have, Seq::empty());
    assert(request + Seq::<u8>::empty() =~= request);
    lemma_missing_ids(have, order);
    let missing = missing_ids(have, order);
    assert forall|id: ImageId| missing.contains(id) <==> images.dom().contains(id) && !have.contains(
        id,
    ) by {
        assert(order.contains(id) <==> images.dom().contains(id));
    }
}

/// A client that sends a LIST_AND_GET request is sent every image once.
pub proof fn law_list_and_get_sends_everything(
    session: Session,
    keep_alive: bool,
    images: Map<ImageId, ImageModel>,
    order: Seq<ImageId>,
    sizing: Sizing,
    watch_enabled: bool,
)
    requires
        session != Session::Watching,
        is_listing(images, order),
        order.len() <= u32::MAX,
    ensures
        ({
            let request = seq![REQUEST_LIST_AND_GET, keep_alive_flags(keep_alive)];
            &&& reaction(session, request, images, order, sizing, watch_enabled) matches Some(
                (response, n),
            )
            &&& n == 2
            &&& response.bytes == RESPONSE_LIST_AND_GET@ + varint_bytes(response.packets.len())
            &&& response.packets.no_duplicates()
            &&& forall|id: ImageId| response.packets.contains(id) <==> images.dom().contains(id)
            &&& response.next == after(keep_alive)
        }),
{
    let request = seq![REQUEST_LIST_AND_GET, keep_alive_flags(keep_alive)];
    law_short_request_round_trip(keep_alive, Seq::empty());
    assert(request + Seq::<u8>::empty() =~= request);
}

/// A client that requests images by their ImageIDs is sent those that the
/// server has, in the order of the request, and their number.
pub proof fn law_get_sends_what_is_known(
    session: Session,
    keep_alive: bool,
    ids: Seq<ImageId>,
    images: Map<ImageId, ImageModel>,
    order: Seq<ImageId>,
    sizing: Sizing,
    watch_enabled: bool,
)
    requires
        session != Session::Watching,
        ids.len() <= 255,
    ensures
        ({
            let request = get_request_bytes(keep_alive_flags(keep_alive), ids);
            let known = known_ids(images, ids);
            reaction(session, request, images, order, sizing, watch_enabled) == Some(
                (
                    ResponseModel {
                        bytes: RESPONSE_GET_BY_ID@ + seq![known.len() as u8],
                        packets: known,
                        next: after(keep_alive),
                    },
                    request.len(),
                ),
            ) && known.len() <= 255
        }),
{
    let request = get_request_bytes(keep_alive_flags(keep_alive), ids);
    law_get_request_round_trip(keep_alive, ids, Seq::empty());
    assert(request + Seq::<u8>::empty() =~= request);
    law_get_returns_known(images, ids);
}

/// A client that sends a LIST request is sent the catalog.
pub proof fn law_list_sends_catalog(
    session: Session,
    keep_alive: bool,
    images: Map<ImageId, ImageModel>,
    order: Seq<ImageId>,
    sizing: Sizing,
    watch_enabled: bool,
)
    requires
        session != Session::Watching,
    ensures
        reaction(
            session,
            seq![REQUEST_LIST, keep_alive_flags(keep_alive)],
            images,
            order,
            sizing,
            watch_enabled,
        ) == Some(
            (
                ResponseModel {
                    bytes: list_bytes(
                        images,
                        sizing,
                        sized_ids(images, sizing, countable(order)),
                    ),
                    packets: Seq::empty(),
                    next: after(keep_alive),
                },
                2nat,
            ),
        ),
{
    let request = seq![REQUEST_LIST, keep_alive_flags(keep_alive)];
    law_short_request_round_trip(keep_alive, Seq::empty());
    assert(request + Seq::<u8>::empty() =~= request);
}

/// Whether a server refuses what it received with this error code, and closes
/// the connection.
pub open spec fn refuses(r: Option<(ResponseModel, nat)>, code: ErrorCode) -> bool {
    r matches Some((response, _)) && exists|message: Seq<char>|
        response == #[trigger] refused(code, message)
}

/// Requests with reserved flags are refused as invalid, whatever their type
/// and before anything more of them is read.
pub proof fn law_reserved_flags_refused(
    session: Session,
    input: Seq<u8>,
    images: Map<ImageId, ImageModel>,
    order: Seq<ImageId>,
    sizing: Sizing,
    watch_enabled: bool,
)
    requires
        input.len() >= 2,
        input[1] != 0,
        input[1] != REQUEST_FLAG_KEEP_ALIVE,
    ensures
        refuses(
            reaction(session, input, images, order, sizing, watch_enabled),
            ErrorCode::InvalidRequest,
        ),
{
    let flags = input[1];
    assert((flags & 0b1111_1110u8) == 0 ==> flags == 0 || flags == 1) by (bit_vector);
    assert(request_flags_check(flags) is Err);
    let message = refusal(RequestError::ReservedFlags).1;
    assert(reaction(session, input, images, order, sizing, watch_enabled) == Some(
        (refused(ErrorCode::InvalidRequest, message), input.len()),
    ));
}

/// Requests of a type that is not assigned are refused as unsupported.
pub proof fn law_unknown_type_refused(
    session: Session,
    input: Seq<u8>,
    images: Map<ImageId, ImageModel>,
    order: Seq<ImageId>,
    sizing: Sizing,
    watch_enabled: bool,
)
    requires
        input.len() >= 2,
        input[0] > REQUEST_LIST_AND_GET,
        request_flags_check(input[1]) is Ok,
    ensures
        refuses(
            reaction(session, input, images, order, sizing, watch_enabled),
            ErrorCode::UnsupportedFeature,
        ),
{
    let message = refusal(RequestError::UnknownType).1;
    assert(reaction(session, input, images, order, sizing, watch_enabled) == Some(
        (refused(ErrorCode::UnsupportedFeature, message), input.len()),
    ));
}

/// BATCH requests with more than `MAX_HAVE_COUNT` ImageIDs are refused as
/// invalid, before any of them is read.
pub proof fn law_oversized_batch_refused(
    session: Session,
    keep_alive: bool,
    count: u32,
    rest: Seq<u8>,
    images: Map<ImageId, ImageModel>,
    order: Seq<ImageId>,
    sizing: Sizing,
    watch_enabled: bool,
)
    requires
        count > MAX_HAVE_COUNT,
    ensures
        refuses(
            reaction(
                session,
                seq![REQUEST_BATCH, keep_alive_flags(keep_alive)] + varint_bytes(count as nat)
                    + rest,
                images,
                order,
                sizing,
                watch_enabled,
            ),
            ErrorCode::InvalidRequest,
        ),
{
    let input = seq![REQUEST_BATCH, keep_alive_flags(keep_alive)] + varint_bytes(count as nat)
        + rest;
    law_large_batch_refused(keep_alive, count, rest);
    let message = refusal(RequestError::TooManyIds).1;
    assert(reaction(session, input, images, order, sizing, watch_enabled) == Some(
        (refused(ErrorCode::InvalidRequest, message), input.len()),
    ));
}

/// CANCEL is refused as invalid on a connection that was not kept alive. On
/// any other it is acknowledged, ends a subscription, and leaves the
/// connection open.
pub proof fn law_cancel(
    session: Session,
    images: Map<ImageId, ImageModel>,
    order: Seq<ImageId>,
    sizing: Sizing,
    watch_enabled: bool,
)
    ensures
        ({
            let r = reaction(
                session,
                seq![REQUEST_CANCEL, 0u8],
                images,
                order,
                sizing,
                watch_enabled,
            );
            if session == Session::Fresh {
                refuses(r, ErrorCode::InvalidRequest)
            } else {
                r == Some(
                    (
                        ResponseModel {
                            bytes: RESPONSE_CANCEL@,
                            packets: Seq::empty(),
                            next: Some(Session::KeptAlive),
                        },
                        2nat,
                    ),
                )
            }
        }),
{
    let request = seq![REQUEST_CANCEL, 0u8];
    law_short_request_round_trip(false, Seq::empty());
    assert(request + Seq::<u8>::empty() =~= request);
    let message = "CANCEL requires keep-alive"@;
    if session == Session::Fresh {
        assert(reaction(session, request, images, order, sizing, watch_enabled) == Some(
            (refused(ErrorCode::InvalidRequest, message), 2nat),
        ));
    }
}

/// WATCH is refused as unsupported by a server that does not announce new
/// images. Otherwise it subscribes the client without an answer, and the
/// connection stays open.
pub proof fn law_watch(
    session: Session,
    images: Map<ImageId, ImageModel>,
    order: Seq<ImageId>,
    sizing: Sizing,
    watch_enabled: bool,
)
    requires
        session != Session::Watching,
    ensures
        ({
            let r = reaction(
                session,
                seq![REQUEST_WATCH, 0u8],
                images,
                order,
                sizing,
                watch_enabled,
            );
            if !watch_enabled {
                refuses(r, ErrorCode::UnsupportedFeature)
            } else {
                r == Some(
                    (
                        ResponseModel {
                            bytes: Seq::empty(),
                            packets: Seq::empty(),
                            next: Some(Session::Watching),
                        },
                        2nat,
                    ),
                )
            }
        }),
{
    let request = seq![REQUEST_WATCH, 0u8];
    law_short_request_round_trip(false, Seq::empty());
    assert(request + Seq::<u8>::empty() =~= request);
    let message = "WATCH is not enabled"@;
    if !watch_enabled {
        assert(reaction(session, request, images, order, sizing, watch_enabled) == Some(
            (refused(ErrorCode::UnsupportedFeature, message), 2nat),
        ));
    }
}

/// A connection stays open after a response exactly if the request asked for
/// keep-alive, if it was a CANCEL on a connection kept open before, if it was
/// a WATCH that was not refused, or if the client is subscribed.
pub proof fn law_connection_stays_open(
    session: Session,
    input: Seq<u8>,
    images: Map<ImageId, ImageModel>,
    order: Seq<ImageId>,
    sizing: Sizing,
    watch_enabled: bool,
)
    ensures
        reaction(session, input, images, order, sizing, watch_enabled) matches Some(
            (response, _),
        ) ==> (response.next is Some <==> (request_at_front(input) matches Ok(
            ((request, keep_alive), _),
        ) && match request {
            RequestModel::Cancel => session != Session::Fresh,
            RequestModel::Watch => session == Session::Watching || watch_enabled,
            _ => session == Session::Watching || keep_alive,
        })),
{
}

/// No request but CANCEL ends a subscription: it is answered with an error for
/// an invalid request, and the subscription goes on.
pub proof fn law_subscription_lasts(
    input: Seq<u8>,
    images: Map<ImageId, ImageModel>,
    order: Seq<ImageId>,
    sizing: Sizing,
    watch_enabled: bool,
)
    requires
        request_at_front(input) is Ok,
        !(request_at_front(input) matches Ok(((RequestModel::Cancel, _), _))),
    ensures
        reaction(Session::Watching, input, images, order, sizing, watch_enabled) matches Some(
            (response, _),
        ) && response.next == Some(Session::Watching) && response.packets.len() == 0 && exists|
            message: Seq<char>,
        |
            response.bytes == #[trigger] error_bytes(ErrorCode::InvalidRequest, message),
{
    let message = "subscription is active"@;
    let r = reaction(Session::Watching, input, images, order, sizing, watch_enabled);
    assert(r.unwrap().0.bytes == error_bytes(ErrorCode::InvalidRequest, message));
}

/// Something that a connection has to react to. With bytes that are received
/// comes what the server holds at that time.
pub enum Happening {
    Received {
        input: Seq<u8>,
        images: Map<ImageId, ImageModel>,
        order: Seq<ImageId>,
        sizing: Sizing,
    },
    Announced(EventModel),
}

/// What a server does about it.
pub open spec fn outcome(session: Session, happening: Happening, watch_enabled: bool) -> Option<
    ResponseModel,
> {
    match happening {
        Happening::Received { input, images, order, sizing } => match reaction(
            session,
            input,
            images,
            order,
            sizing,
            watch_enabled,
        ) {
            Some((response, _)) => Some(response),
            None => None,
        },
        Happening::Announced(event) => Some(delivery(session, event)),
    }
}

/// All that a server sends on a connection about these happenings, each a
/// whole request or an event, until the connection is closed.
pub open spec fn conversation(
    session: Session,
    happenings: Seq<Happening>,
    watch_enabled: bool,
) -> ResponseModel
    decreases happenings.len(),
{
    let silence = ResponseModel {
        bytes: Seq::empty(),
        packets: Seq::empty(),
        next: Some(session),
    };
    if happenings.len() == 0 {
        silence
    } else {
        let response = match outcome(session, happenings[0], watch_enabled) {
            Some(response) => response,
            None => silence,
        };
        match response.next {
            None => response,
            Some(next) => {
                let rest = conversation(next, happenings.skip(1), watch_enabled);
                ResponseModel {
                    bytes: response.bytes + rest.bytes,
                    packets: response.packets + rest.packets,
                    next: rest.next,
                }
            },
        }
    }
}

proof fn lemma_events_delivered(events: Seq<EventModel>, tail: Seq<Happening>, watch_enabled: bool)
    ensures
        ({
            let rest = conversation(Session::Watching, tail, watch_enabled);
            conversation(
                Session::Watching,
                events.map_values(|e: EventModel| Happening::Announced(e)) + tail,
                watch_enabled,
            ) == (ResponseModel {
                bytes: events_bytes(events) + rest.bytes,
                packets: rest.packets,
                next: rest.next,
            })
        }),
    decreases events.len(),
{
    let rest = conversation(Session::Watching, tail, watch_enabled);
    let all = events.map_values(|e: EventModel| Happening::Announced(e)) + tail;
    if events.len() == 0 {
        assert(all =~= tail);
        assert(events_bytes(events) + rest.bytes =~= rest.bytes);
    } else {
        let later = events.skip(1);
        lemma_events_delivered(later, tail, watch_enabled);
        assert(all[0] == Happening::Announced(events[0]));
        assert(all.skip(1) =~= later.map_values(|e: EventModel| Happening::Announced(e)) + tail);
        assert(event_bytes(events[0]) + (events_bytes(later) + rest.bytes) =~= events_bytes(events)
            + rest.bytes);
        assert(Seq::<ImageId>::empty() + rest.packets =~= rest.packets);
    }
}

/// A client that subscribes, and cancels after some events, is sent the frames
/// of these events, in their order and each once, then the acknowledgement,
/// and nothing else, whatever images the server held when it subscribed. The
/// connection stays open.
pub proof fn law_subscription(
    session: Session,
    events: Seq<EventModel>,
    images: Map<ImageId, ImageModel>,
    order: Seq<ImageId>,
    sizing: Sizing,
    later_images: Map<ImageId, ImageModel>,
    later_order: Seq<ImageId>,
    later_sizing: Sizing,
)
    requires
        session != Session::Watching,
    ensures
        ({
            let subscribe = Happening::Received {
                input: seq![REQUEST_WATCH, 0u8],
                images,
                order,
                sizing,
            };
            let cancel = Happening::Received {
                input: seq![REQUEST_CANCEL, 0u8],
                images: later_images,
                order: later_order,
                sizing: later_sizing,
            };
            let announced = events.map_values(|e: EventModel| Happening::Announced(e));
            conversation(session, seq![subscribe] + announced + seq![cancel], true) == (
            ResponseModel {
                bytes: events_bytes(events) + RESPONSE_CANCEL@,
                packets: Seq::empty(),
                next: Some(Session::KeptAlive),
            })
        }),
{
    let subscribe = Happening::Received {
        input: seq![REQUEST_WATCH, 0u8],
        images,
        order,
        sizing,
    };
    let cancel = Happening::Received {
        input: seq![REQUEST_CANCEL, 0u8],
        images: later_images,
        order: later_order,
        sizing: later_sizing,
    };
    let announced = events.map_values(|e: EventModel| Happening::Announced(e));
    let all = seq![subscribe] + announced + seq![cancel];
    law_watch(session, images, order, sizing, true);
    law_cancel(Session::Watching, later_images, later_order, later_sizing, true);
    lemma_events_delivered(events, seq![cancel], true);
    let last = conversation(Session::Watching, seq![cancel], true);
    reveal_with_fuel(conversation, 2);
    assert(seq![cancel].skip(1) =~= Seq::<Happening>::empty());
    assert(last.bytes =~= RESPONSE_CANCEL@);
    assert(last.packets =~= Seq::<ImageId>::empty());
    assert(last.next == Some(Session::KeptAlive));
    assert(all[0] == subscribe);
    assert(all.skip(1) =~= announced + seq![cancel]);
    let whole = conversation(session, all, true);
    assert(whole.bytes =~= events_bytes(events) + RESPONSE_CANCEL@);
    assert(whole.packets =~= Seq::<ImageId>::empty());
}

/// Once a server reacts, it would not have reacted otherwise had more bytes
/// been there already.
pub proof fn law_reaction_settled(
    session: Session,
    input: Seq<u8>,
    more: Seq<u8>,
    images: Map<ImageId, ImageModel>,
    order: Seq<ImageId>,
    sizing: Sizing,
    watch_enabled: bool,
)
    ensures
        reaction(session, input, images, order, sizing, watch_enabled) matches Some(
            (response, _),
        ) ==> (reaction(
            session,
            input + more,
            images,
            order,
            sizing,
            watch_enabled,
        ) matches Some((other, _)) && other == response),
{
    if reaction(session, input, images, order, sizing, watch_enabled) is Some {
        law_request_settled(input, more);
    }
}

/// What is known of two lists one after the other is what is known of the
/// first, then what is known of the second; of one ImageID, it is that one if
/// the server has it. So the order of a request is kept.
pub proof fn law_known_ids_in_order(
    images: Map<ImageId, ImageModel>,
    a: Seq<ImageId>,
    b: Seq<ImageId>,
    id: ImageId,
)
    ensures
        known_ids(images, a + b) == known_ids(images, a) + known_ids(images, b),
        known_ids(images, seq![id]) == if images.dom().contains(id) {
            seq![id]
        } else {
            Seq::<ImageId>::empty()
        },
    decreases b.len(),
{
    reveal_with_fuel(known_ids, 2);
    assert(seq![id].drop_last() =~= Seq::<ImageId>::empty());
    assert(known_ids(images, seq![id]) =~= if images.dom().contains(id) {
        seq![id]
    } else {
        Seq::<ImageId>::empty()
    });
    if b.len() == 0 {
        assert(a + b =~= a);
        assert(known_ids(images, a) + known_ids(images, b) =~= known_ids(images, a));
    } else {
        law_known_ids_in_order(images, a, b.drop_last(), id);
        assert((a + b).drop_last() =~= a + b.drop_last());
        assert(known_ids(images, a + b) =~= known_ids(images, a) + known_ids(images, b));
    }
}

/// What is missing of two lists one after the other is what is missing of the
/// first, then what is missing of the second; of one ImageID, it is that one
/// if the client does not have it. So images are sent in their order.
pub proof fn law_missing_ids_in_order(
    have: Seq<ImageId>,
    a: Seq<ImageId>,
    b: Seq<ImageId>,
    id: ImageId,
)
    ensures
        missing_ids(have, a + b) == missing_ids(have, a) + missing_ids(have, b),
        missing_ids(have, seq![id]) == if have.contains(id) {
            Seq::<ImageId>::empty()
        } else {
            seq![id]
        },
    decreases b.len(),
{
    reveal_with_fuel(missing_ids, 2);
    assert(seq![id].drop_last() =~= Seq::<ImageId>::empty());
    assert(missing_ids(have, seq![id]) =~= if have.contains(id) {
        Seq::<ImageId>::empty()
    } else {
        seq![id]
    });
    if b.len() == 0 {
        assert(a + b =~= a);
        assert(missing_ids(have, a) + missing_ids(have, b) =~= missing_ids(have, a));
    } else {
        law_missing_ids_in_order(have, a, b.drop_last(), id);
        assert((a + b).drop_last() =~= a + b.drop_last());
        assert(missing_ids(have, a + b) =~= missing_ids(have, a) + missing_ids(have, b));
    }
}

/// The images of a BATCH or LIST_AND_GET response come in the server's order.
pub proof fn law_packets_in_the_server_order(
    session: Session,
    keep_alive: bool,
    have: Seq<ImageId>,
    images: Map<ImageId, ImageModel>,
    order: Seq<ImageId>,
    sizing: Sizing,
    watch_enabled: bool,
)
    requires
        session != Session::Watching,
        order.len() <= u32::MAX,
    ensures
        answer(
            session,
            RequestModel::ListAndGet,
            keep_alive,
            images,
            order,
            sizing,
            watch_enabled,
        ).packets == order,
        answer(
            session,
            RequestModel::Batch(have),
            keep_alive,
            images,
            order,
            sizing,
            watch_enabled,
        ).packets == missing_ids(have, order),
{
    lemma_missing_ids(have, order);
}

/// Between two packets a server stops exactly if the connection stays open and
/// the client has sent CANCEL, the bytes 3 and 0.
pub proof fn law_cancel_stops_a_response(next: Option<Session>, input: Seq<u8>)
    ensures
        goes_on(next, input) <==> !(next is Some && input.len() >= 2 && input[0] == 3 && input[1]
            == 0),
{
    law_request_reading(input);
}

/// Requests that cannot be read are refused with an error that closes the
/// connection: those of a type that is not assigned as unsupported, the others
/// as invalid. Nothing is sent while a request is incomplete, and nothing but
/// the error otherwise.
pub proof fn law_unreadable_requests_refused(
    session: Session,
    input: Seq<u8>,
    images: Map<ImageId, ImageModel>,
    order: Seq<ImageId>,
    sizing: Sizing,
    watch_enabled: bool,
)
    ensures
        request_at_front(input) matches Err(e) ==> {
            let r = reaction(session, input, images, order, sizing, watch_enabled);
            &&& e == RequestError::Incomplete <==> r is None
            &&& e == RequestError::UnknownType ==> refuses(r, ErrorCode::UnsupportedFeature)
            &&& e != RequestError::UnknownType && e != RequestError::Incomplete ==> refuses(
                r,
                ErrorCode::InvalidRequest,
            )
        },
{
    if let Err(e) = request_at_front(input) {
        if e != RequestError::Incomplete {
            let r = reaction(session, input, images, order, sizing, watch_enabled);
            assert(r == Some((refused(refusal(e).0, refusal(e).1), input.len())));
        }
    }
}

/// A refusal is the frame of the error and nothing else, and closes the
/// connection.
pub proof fn law_refusal(code: ErrorCode, message: Seq<char>)
    ensures
        refused(code, message).bytes == error_bytes(code, message),
        refused(code, message).packets.len() == 0,
        refused(code, message).next is None,
{
}

/// A new image is announced to subscribers only, by the frame of the event,
/// and the session goes on as it was.
pub proof fn law_delivery(session: Session, event: EventModel)
    ensures
        session == Session::Watching ==> delivery(session, event).bytes == event_bytes(event),
        session != Session::Watching ==> delivery(session, event).bytes.len() == 0,
        delivery(session, event).packets.len() == 0,
        delivery(session, event).next == Some(session),
{
}

/// A request that is read is used up exactly, and one that is refused with all
/// that came with it.
pub proof fn law_input_is_used_up(
    session: Session,
    input: Seq<u8>,
    images: Map<ImageId, ImageModel>,
    order: Seq<ImageId>,
    sizing: Sizing,
    watch_enabled: bool,
)
    ensures
        request_at_front(input) matches Ok((_, n)) ==> (reaction(
            session,
            input,
            images,
            order,
            sizing,
            watch_enabled,
        ) matches Some((_, used)) && used == n),
        request_at_front(input) is Err ==> (reaction(
            session,
            input,
            images,
            order,
            sizing,
            watch_enabled,
        ) matches Some((_, used)) ==> used == input.len()),
{
}

/// The model of a response says all that it holds.
pub proof fn law_response_model(r: Response)
    ensures
        r@.bytes == r.bytes@,
        r@.packets == r.packets@,
        r@.next == r.next,
{
}

/// A connection that stays open after a response is kept alive, and is not
/// taken for a subscription.
pub proof fn law_keep_alive(keep_alive: bool)
    ensures
        keep_alive ==> after(keep_alive) == Some(Session::KeptAlive),
        !keep_alive ==> after(keep_alive) is None,
{
}

} // verus!
