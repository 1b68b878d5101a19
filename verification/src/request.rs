//! Requests, as clients write and servers read them.

use crate::bytes::{
    law_u64_round_trip, read_u64, skip_front, u64_at_front, u64_bytes, write_u64,
};
use crate::error::ProtocolError;
use crate::flags::{request_flags_check, validate_request_flags, REQUEST_FLAG_KEEP_ALIVE};
use crate::image_id::ImageId;
use crate::varint::{
    law_varint_canonical, law_varint_round_trip, law_varint_settled, read_varint_u32,
    varint_at_front, varint_bytes, write_varint_u32,
};
use vstd::prelude::*;

verus! {

/// Retrieve images by their ImageIDs.
pub const REQUEST_GET_BY_ID: u8 = 0;

/// Retrieve the catalog.
pub const REQUEST_LIST: u8 = 1;

/// Retrieve the images that the client does not have.
pub const REQUEST_BATCH: u8 = 2;

/// Abort the response in progress, or a subscription.
pub const REQUEST_CANCEL: u8 = 3;

/// Subscribe to new images.
pub const REQUEST_WATCH: u8 = 4;

/// Retrieve all images.
pub const REQUEST_LIST_AND_GET: u8 = 5;

/// Stands for an error; no request has this type.
pub const REQUEST_ERROR: u8 = 0xFE;

/// The most ImageIDs that a BATCH request may hold.
pub const MAX_HAVE_COUNT: u32 = 1_000_000;

/// ImageIDs on the wire, one after the other.
pub open spec fn ids_bytes(ids: Seq<ImageId>) -> Seq<u8>
    decreases ids.len(),
{
    if ids.len() == 0 {
        Seq::empty()
    } else {
        ids_bytes(ids.drop_last()) + u64_bytes(ids.last())
    }
}

/// The `count` ImageIDs at the start of `s`, eight bytes each.
pub open spec fn ids_at_front(s: Seq<u8>, count: nat) -> Result<Seq<ImageId>, ProtocolError> {
    if s.len() < 8 * count {
        Err(ProtocolError::UnexpectedEof)
    } else {
        Ok(Seq::new(count, |i: int| id_at(s, i)))
    }
}

/// The ImageID number `i` in `s`.
pub open spec fn id_at(s: Seq<u8>, i: int) -> ImageId {
    u64_at_front(s.skip(8 * i))->Ok_0
}

proof fn lemma_ids_len(ids: Seq<ImageId>)
    ensures
        ids_bytes(ids).len() == 8 * ids.len(),
    decreases ids.len(),
{
    if ids.len() > 0 {
        lemma_ids_len(ids.drop_last());
        law_u64_round_trip(ids.last(), Seq::empty());
    }
}

/// ImageIDs read back as they were written.
pub proof fn law_ids_round_trip(ids: Seq<ImageId>, rest: Seq<u8>)
    ensures
        ids_bytes(ids).len() == 8 * ids.len(),
        ids_at_front(ids_bytes(ids) + rest, ids.len()) == Ok::<Seq<ImageId>, ProtocolError>(ids),
    decreases ids.len(),
{
    lemma_ids_len(ids);
    let s = ids_bytes(ids) + rest;
    let read = ids_at_front(s, ids.len())->Ok_0;
    if ids.len() > 0 {
        let front = ids.drop_last();
        let a = ids_bytes(front);
        let b = u64_bytes(ids.last());
        lemma_ids_len(front);
        law_ids_round_trip(front, b + rest);
        assert(s =~= a + (b + rest));
        let before = ids_at_front(s, front.len())->Ok_0;
        assert(before == front);
        assert(s.skip(8 * front.len() as int) =~= b + rest);
        law_u64_round_trip(ids.last(), rest);
        assert(read =~= before.push(ids.last()));
        assert(front.push(ids.last()) =~= ids);
    } else {
        assert(read =~= ids);
    }
}

fn write_ids(out: &mut Vec<u8>, ids: &[ImageId], n: usize)
    requires
        n <= ids@.len(),
    ensures
        final(out)@ == old(out)@ + ids_bytes(ids@.take(n as int)),
{
    let ghost head = out@;
    let mut i: usize = 0;
    proof {
        assert(ids@.take(0) =~= Seq::<ImageId>::empty());
        assert(out@ =~= head + Seq::<u8>::empty());
    }
    while i < n
        invariant
            i <= n <= ids@.len(),
            out@ == head + ids_bytes(ids@.take(i as int)),
        decreases n - i,
    {
        write_u64(out, ids[i]);
        i = i + 1;
        proof {
            assert(ids@.take(i as int).drop_last() =~= ids@.take(i - 1));
            assert(out@ =~= head + ids_bytes(ids@.take(i as int)));
        }
    }
}

/// Reads the `count` ImageIDs at the start of `input`.
pub fn read_image_ids(input: &[u8], count: usize) -> (r: Result<Vec<ImageId>, ProtocolError>)
    ensures
        match ids_at_front(input@, count as nat) {
            Ok(ids) => r matches Ok(v) && v@ == ids,
            Err(e) => r == Err::<Vec<ImageId>, ProtocolError>(e),
        },
{
    if input.len() / 8 < count {
        return Err(ProtocolError::UnexpectedEof);
    }
    let mut ids: Vec<ImageId> = Vec::new();
    let mut i: usize = 0;
    let total: usize = input.len();
    while i < count
        invariant
            i <= count,
            8 * count <= input@.len() == total,
            ids@.len() == i,
            forall|k: int| 0 <= k < i ==> ids@[k] == id_at(input@, k),
        decreases count - i,
    {
        match read_u64(skip_front(input, i * 8)) {
            Ok(id) => ids.push(id),
            Err(e) => return Err(e),
        }
        i = i + 1;
    }
    proof {
        assert(ids@ =~= ids_at_front(input@, count as nat)->Ok_0);
    }
    Ok(ids)
}

/// A GET_BY_ID request; it holds the first 255 of `ids`.
pub open spec fn get_request_bytes(flags: u8, ids: Seq<ImageId>) -> Seq<u8> {
    let sent = if ids.len() <= 255 {
        ids
    } else {
        ids.take(255)
    };
    seq![REQUEST_GET_BY_ID, flags, sent.len() as u8] + ids_bytes(sent)
}

/// Appends a GET_BY_ID request for the first 255 of `ids`.
pub fn write_get_request_buffered(out: &mut Vec<u8>, flags: u8, ids: &[ImageId])
    ensures
        final(out)@ == old(out)@ + get_request_bytes(flags, ids@),
{
    let n: usize = if ids.len() <= 255 {
        ids.len()
    } else {
        255
    };
    out.push(REQUEST_GET_BY_ID);
    out.push(flags);
    out.push(n as u8);
    write_ids(out, ids, n);
    proof {
        assert(ids@.len() <= 255 ==> ids@.take(n as int) =~= ids@);
        assert(out@ =~= old(out)@ + get_request_bytes(flags, ids@));
    }
}

/// A BATCH request; it holds as many of `have_ids` as it can count.
pub open spec fn batch_request_bytes(flags: u8, have_ids: Seq<ImageId>) -> Seq<u8> {
    let sent = if have_ids.len() <= u32::MAX {
        have_ids
    } else {
        have_ids.take(u32::MAX as int)
    };
    seq![REQUEST_BATCH, flags] + varint_bytes(sent.len()) + ids_bytes(sent)
}

/// Appends a BATCH request.
pub fn write_batch_request_buffered(out: &mut Vec<u8>, flags: u8, have_ids: &[ImageId])
    ensures
        final(out)@ == old(out)@ + batch_request_bytes(flags, have_ids@),
{
    let n: usize = if have_ids.len() as u64 <= 0xFFFF_FFFF {
        have_ids.len()
    } else {
        0xFFFF_FFFF
    };
    out.push(REQUEST_BATCH);
    out.push(flags);
    write_varint_u32(out, n as u32);
    write_ids(out, have_ids, n);
    proof {
        assert(have_ids@.len() <= u32::MAX ==> have_ids@.take(n as int) =~= have_ids@);
        assert(out@ =~= old(out)@ + batch_request_bytes(flags, have_ids@));
    }
}

fn write_pair(out: &mut Vec<u8>, req_type: u8, flags: u8)
    ensures
        final(out)@ == old(out)@ + seq![req_type, flags],
{
    out.push(req_type);
    out.push(flags);
    proof {
        assert(out@ =~= old(out)@ + seq![req_type, flags]);
    }
}

/// Appends a LIST request.
pub fn write_list_request_buffered(out: &mut Vec<u8>, flags: u8)
    ensures
        final(out)@ == old(out)@ + seq![REQUEST_LIST, flags],
{
    write_pair(out, REQUEST_LIST, flags);
}

/// Appends a LIST_AND_GET request.
pub fn write_list_and_get_request_buffered(out: &mut Vec<u8>, flags: u8)
    ensures
        final(out)@ == old(out)@ + seq![REQUEST_LIST_AND_GET, flags],
{
    write_pair(out, REQUEST_LIST_AND_GET, flags);
}

/// Appends a CANCEL request. Its flags are zero.
pub fn write_cancel_request_buffered(out: &mut Vec<u8>)
    ensures
        final(out)@ == old(out)@ + seq![REQUEST_CANCEL, 0u8],
{
    write_pair(out, REQUEST_CANCEL, 0);
}

/// Appends a WATCH request. Its flags are zero: keep-alive is implied.
pub fn write_watch_request_buffered(out: &mut Vec<u8>)
    ensures
        final(out)@ == old(out)@ + seq![REQUEST_WATCH, 0u8],
{
    write_pair(out, REQUEST_WATCH, 0);
}

/// What a client asks for.
pub enum Request {
    GetById(Vec<ImageId>),
    List,
    Batch(Vec<ImageId>),
    ListAndGet,
    Cancel,
    Watch,
}

/// What a client asks for, as a mathematical value.
#[verifier::ext_equal]
pub enum RequestModel {
    GetById(Seq<ImageId>),
    List,
    Batch(Seq<ImageId>),
    ListAndGet,
    Cancel,
    Watch,
}

impl View for Request {
    type V = RequestModel;

    open spec fn view(&self) -> RequestModel {
        match *self {
            Request::GetById(ids) => RequestModel::GetById(ids@),
            Request::List => RequestModel::List,
            Request::Batch(ids) => RequestModel::Batch(ids@),
            Request::ListAndGet => RequestModel::ListAndGet,
            Request::Cancel => RequestModel::Cancel,
            Request::Watch => RequestModel::Watch,
        }
    }
}

/// Why bytes are no request.
#[derive(Debug, Clone, Copy, PartialEq, Eq, Structural)]
pub enum RequestError {
    /// More bytes are needed to tell.
    Incomplete,
    /// Reserved flags are set.
    ReservedFlags,
    /// The request type is not assigned.
    UnknownType,
    /// A CANCEL or WATCH request has flags.
    FlagsNotZero,
    /// The count of a BATCH request is no valid varint.
    MalformedCount,
    /// The count of a BATCH request exceeds `MAX_HAVE_COUNT`.
    TooManyIds,
}

/// The request at the start of `s`, whether it asks for keep-alive, and the
/// number of bytes it takes. Flags are judged before anything that follows
/// them, and a count before the ImageIDs that it announces.
pub open spec fn request_at_front(s: Seq<u8>) -> Result<((RequestModel, bool), nat), RequestError> {
    if s.len() < 2 {
        Err(RequestError::Incomplete)
    } else if request_flags_check(s[1]) is Err {
        Err(RequestError::ReservedFlags)
    } else {
        let keep_alive = s[1] == REQUEST_FLAG_KEEP_ALIVE;
        if s[0] == REQUEST_GET_BY_ID {
            if s.len() < 3 {
                Err(RequestError::Incomplete)
            } else {
                match ids_at_front(s.skip(3), s[2] as nat) {
                    Ok(ids) => Ok(((RequestModel::GetById(ids), keep_alive), 3 + 8 * s[2] as nat)),
                    Err(_) => Err(RequestError::Incomplete),
                }
            }
        } else if s[0] == REQUEST_LIST {
            Ok(((RequestModel::List, keep_alive), 2))
        } else if s[0] == REQUEST_BATCH {
            match varint_at_front(s.skip(2)) {
                Err(ProtocolError::UnexpectedEof) => Err(RequestError::Incomplete),
                Err(_) => Err(RequestError::MalformedCount),
                Ok((count, n)) => if count > MAX_HAVE_COUNT {
                    Err(RequestError::TooManyIds)
                } else {
                    match ids_at_front(s.skip(2 + n as int), count as nat) {
                        Ok(ids) => Ok(
                            ((RequestModel::Batch(ids), keep_alive), 2 + n + 8 * count as nat),
                        ),
                        Err(_) => Err(RequestError::Incomplete),
                    }
                },
            }
        } else if s[0] == REQUEST_LIST_AND_GET {
            Ok(((RequestModel::ListAndGet, keep_alive), 2))
        } else if s[0] == REQUEST_CANCEL || s[0] == REQUEST_WATCH {
            if s[1] != 0 {
                Err(RequestError::FlagsNotZero)
            } else if s[0] == REQUEST_CANCEL {
                Ok(((RequestModel::Cancel, false), 2))
            } else {
                Ok(((RequestModel::Watch, false), 2))
            }
        } else {
            Err(RequestError::UnknownType)
        }
    }
}

/// Reads the request at the start of `input`, whether it asks for keep-alive,
/// and the number of bytes it takes.
pub fn read_request(input: &[u8]) -> (r: Result<((Request, bool), usize), RequestError>)
    ensures
        match request_at_front(input@) {
            Ok(((request, keep), n)) => r matches Ok(((rr, rk), rn)) && rr@ == request && rk == keep
                && rn == n && n <= input@.len(),
            Err(e) => r == Err::<((Request, bool), usize), RequestError>(e),
        },
{
    if input.len() < 2 {
        return Err(RequestError::Incomplete);
    }
    let req_type: u8 = input[0];
    let flags: u8 = input[1];
    if validate_request_flags(flags).is_err() {
        return Err(RequestError::ReservedFlags);
    }
    let keep_alive = flags == REQUEST_FLAG_KEEP_ALIVE;
    if req_type == REQUEST_GET_BY_ID {
        if input.len() < 3 {
            return Err(RequestError::Incomplete);
        }
        let count: usize = input[2] as usize;
        match read_image_ids(skip_front(input, 3), count) {
            Ok(ids) => Ok(((Request::GetById(ids), keep_alive), 3 + 8 * count)),
            Err(_) => Err(RequestError::Incomplete),
        }
    } else if req_type == REQUEST_LIST {
        Ok(((Request::List, keep_alive), 2))
    } else if req_type == REQUEST_BATCH {
        let body = skip_front(input, 2);
        let (count, n) = match read_varint_u32(body) {
            Ok(p) => p,
            Err(ProtocolError::UnexpectedEof) => return Err(RequestError::Incomplete),
            Err(_) => return Err(RequestError::MalformedCount),
        };
        if count > MAX_HAVE_COUNT {
            return Err(RequestError::TooManyIds);
        }
        proof {
            law_varint_canonical(body@);
            law_varint_round_trip(count, Seq::empty());
        }
        match read_image_ids(skip_front(input, 2 + n), count as usize) {
            Ok(ids) => Ok(((Request::Batch(ids), keep_alive), 2 + n + 8 * (count as usize))),
            Err(_) => Err(RequestError::Incomplete),
        }
    } else if req_type == REQUEST_LIST_AND_GET {
        Ok(((Request::ListAndGet, keep_alive), 2))
    } else if req_type == REQUEST_CANCEL || req_type == REQUEST_WATCH {
        if flags != 0 {
            Err(RequestError::FlagsNotZero)
        } else if req_type == REQUEST_CANCEL {
            Ok(((Request::Cancel, false), 2))
        } else {
            Ok(((Request::Watch, false), 2))
        }
    } else {
        Err(RequestError::UnknownType)
    }
}

/// The flags of a request that does or does not ask for keep-alive.
pub open spec fn keep_alive_flags(keep_alive: bool) -> u8 {
    if keep_alive {
        REQUEST_FLAG_KEEP_ALIVE
    } else {
        0
    }
}

proof fn lemma_keep_alive_flags(keep_alive: bool)
    ensures
        request_flags_check(keep_alive_flags(keep_alive)) is Ok,
        (keep_alive_flags(keep_alive) == REQUEST_FLAG_KEEP_ALIVE) == keep_alive,
{
    assert(0u8 & 0b1111_1110u8 == 0 && 1u8 & 0b1111_1110u8 == 0) by (bit_vector);
}

/// A server reads a GET_BY_ID request as the client wrote it: keep-alive as
/// asked, and the first 255 of the ImageIDs.
pub proof fn law_get_request_round_trip(keep_alive: bool, ids: Seq<ImageId>, rest: Seq<u8>)
    ensures
        ({
            let bytes = get_request_bytes(keep_alive_flags(keep_alive), ids);
            let sent = if ids.len() <= 255 {
                ids
            } else {
                ids.take(255)
            };
            request_at_front(bytes + rest) == Ok::<((RequestModel, bool), nat), RequestError>(
                ((RequestModel::GetById(sent), keep_alive), bytes.len()),
            )
        }),
{
    let bytes = get_request_bytes(keep_alive_flags(keep_alive), ids);
    let sent = if ids.len() <= 255 {
        ids
    } else {
        ids.take(255)
    };
    lemma_keep_alive_flags(keep_alive);
    law_ids_round_trip(sent, rest);
    assert((bytes + rest).skip(3) =~= ids_bytes(sent) + rest);
}

/// A server reads a BATCH request of at most `MAX_HAVE_COUNT` ImageIDs as the
/// client wrote it.
pub proof fn law_batch_request_round_trip(keep_alive: bool, have: Seq<ImageId>, rest: Seq<u8>)
    requires
        have.len() <= MAX_HAVE_COUNT,
    ensures
        ({
            let bytes = batch_request_bytes(keep_alive_flags(keep_alive), have);
            request_at_front(bytes + rest) == Ok::<((RequestModel, bool), nat), RequestError>(
                ((RequestModel::Batch(have), keep_alive), bytes.len()),
            )
        }),
{
    let flags = keep_alive_flags(keep_alive);
    let v = varint_bytes(have.len());
    let b = ids_bytes(have);
    let s = batch_request_bytes(flags, have) + rest;
    lemma_keep_alive_flags(keep_alive);
    law_ids_round_trip(have, rest);
    law_varint_round_trip(have.len() as u32, b + rest);
    assert(s.skip(2) =~= v + (b + rest));
    assert(s.skip(2 + v.len() as int) =~= b + rest);
    assert(s[0] == REQUEST_BATCH && s[1] == flags);
}

/// A BATCH request of more than `MAX_HAVE_COUNT` ImageIDs is refused, before
/// any of them is read.
pub proof fn law_large_batch_refused(keep_alive: bool, count: u32, rest: Seq<u8>)
    requires
        count > MAX_HAVE_COUNT,
    ensures
        request_at_front(
            seq![REQUEST_BATCH, keep_alive_flags(keep_alive)] + varint_bytes(count as nat) + rest,
        ) == Err::<((RequestModel, bool), nat), RequestError>(RequestError::TooManyIds),
{
    let v = varint_bytes(count as nat);
    let s = seq![REQUEST_BATCH, keep_alive_flags(keep_alive)] + v + rest;
    lemma_keep_alive_flags(keep_alive);
    law_varint_round_trip(count, rest);
    assert(s.skip(2) =~= v + rest);
}

/// A server reads the requests that have no payload as the client wrote them.
pub proof fn law_short_request_round_trip(keep_alive: bool, rest: Seq<u8>)
    ensures
        request_at_front(seq![REQUEST_LIST, keep_alive_flags(keep_alive)] + rest) == Ok::<
            ((RequestModel, bool), nat),
            RequestError,
        >(((RequestModel::List, keep_alive), 2)),
        request_at_front(seq![REQUEST_LIST_AND_GET, keep_alive_flags(keep_alive)] + rest) == Ok::<
            ((RequestModel, bool), nat),
            RequestError,
        >(((RequestModel::ListAndGet, keep_alive), 2)),
        request_at_front(seq![REQUEST_CANCEL, 0u8] + rest) == Ok::<
            ((RequestModel, bool), nat),
            RequestError,
        >(((RequestModel::Cancel, false), 2)),
        request_at_front(seq![REQUEST_WATCH, 0u8] + rest) == Ok::<
            ((RequestModel, bool), nat),
            RequestError,
        >(((RequestModel::Watch, false), 2)),
{
    lemma_keep_alive_flags(keep_alive);
    lemma_keep_alive_flags(false);
}

/// What a request reads as is settled once it is complete, or refused: bytes
/// that follow change nothing.
pub proof fn law_request_settled(s: Seq<u8>, more: Seq<u8>)
    requires
        request_at_front(s) != Err::<((RequestModel, bool), nat), RequestError>(
            RequestError::Incomplete,
        ),
    ensures
        request_at_front(s + more) == request_at_front(s),
{
    let t = s + more;
    if request_flags_check(s[1]) is Ok {
        if s[0] == REQUEST_GET_BY_ID {
            assert(t.skip(3) =~= s.skip(3) + more);
            lemma_ids_settled(s.skip(3), more, s[2] as nat);
        } else if s[0] == REQUEST_BATCH {
            assert(t.skip(2) =~= s.skip(2) + more);
            law_varint_settled(s.skip(2), more);
            law_varint_canonical(s.skip(2));
            if let Ok((count, n)) = varint_at_front(s.skip(2)) {
                let body = s.skip(2 + n as int);
                assert(t.skip(2 + n as int) =~= body + more);
                if count <= MAX_HAVE_COUNT {
                    lemma_ids_settled(body, more, count as nat);
                }
            }
        }
    }
}

proof fn lemma_ids_settled(s: Seq<u8>, more: Seq<u8>, count: nat)
    requires
        ids_at_front(s, count) is Ok,
    ensures
        ids_at_front(s + more, count) == ids_at_front(s, count),
{
    let a = ids_at_front(s, count)->Ok_0;
    let b = ids_at_front(s + more, count)->Ok_0;
    assert forall|i: int| 0 <= i < count implies a[i] == b[i] by {
        assert((s + more).skip(8 * i).take(8) =~= s.skip(8 * i).take(8));
    }
    assert(a =~= b);
}

/// Requests are laid out as their type, their flags, and what else they hold:
/// GET_BY_ID a number of one byte and that many ImageIDs, BATCH a varint and
/// that many ImageIDs. ImageIDs stand one after the other, eight bytes each.
pub proof fn law_request_layout(flags: u8, a: Seq<ImageId>, b: Seq<ImageId>, id: ImageId)
    ensures
        a.len() <= 255 ==> get_request_bytes(flags, a) == seq![0u8, flags, a.len() as u8] + ids_bytes(
            a,
        ),
        a.len() > 255 ==> get_request_bytes(flags, a) == seq![0u8, flags, 255u8] + ids_bytes(
            a.take(255),
        ),
        a.len() <= u32::MAX ==> batch_request_bytes(flags, a) == seq![2u8, flags] + varint_bytes(
            a.len(),
        ) + ids_bytes(a),
        ids_bytes(a + b) == ids_bytes(a) + ids_bytes(b),
        ids_bytes(seq![id]) == u64_bytes(id),
    decreases b.len(),
{
    reveal_with_fuel(ids_bytes, 2);
    assert(seq![id].drop_last() =~= Seq::<ImageId>::empty());
    assert(ids_bytes(seq![id]) =~= u64_bytes(id));
    if b.len() == 0 {
        assert(a + b =~= a);
        assert(ids_bytes(a) + ids_bytes(b) =~= ids_bytes(a));
    } else {
        law_request_layout(flags, a, b.drop_last(), id);
        assert((a + b).drop_last() =~= a + b.drop_last());
        assert(ids_bytes(a + b) =~= ids_bytes(a) + ids_bytes(b));
    }
}

/// ImageIDs are read if all of them are there.
pub proof fn law_ids_wait(s: Seq<u8>, count: nat)
    ensures
        s.len() < 8 * count <==> ids_at_front(s, count) == Err::<Seq<ImageId>, ProtocolError>(
            ProtocolError::UnexpectedEof,
        ),
        ids_at_front(s, count) matches Ok(ids) ==> ids.len() == count && s.take(8 * count as int)
            == ids_bytes(ids),
    decreases count,
{
    if count == 0 {
        assert(s.take(0) =~= Seq::<u8>::empty());
    } else if let Ok(ids) = ids_at_front(s, count) {
        let front = ids.drop_last();
        let less = (count - 1) as nat;
        law_ids_wait(s, less);
        assert(ids_at_front(s, less)->Ok_0 =~= front);
        let t = s.skip(8 * less as int);
        let last = t.take(8);
        law_u64_round_trip(ids.last(), Seq::empty());
        assert(last.take(8) =~= last);
        assert(u64_at_front(last) == Ok::<u64, ProtocolError>(ids.last()));
        assert(s.take(8 * count as int) =~= s.take(8 * less as int) + last);
    }
}

/// What bytes are read as: two are needed; flags above 1 are refused; then
/// types above 5 are, and CANCEL and WATCH with flags. LIST and LIST_AND_GET
/// are complete then, the others wait for what they announce. A BATCH whose
/// number is no varint, or above one million, is refused.
pub proof fn law_request_reading(s: Seq<u8>)
    ensures
        s.len() < 2 ==> refused_as(s, RequestError::Incomplete),
        s.len() >= 2 && s[1] > 1 ==> refused_as(s, RequestError::ReservedFlags),
        s.len() >= 2 && s[1] <= 1 ==> {
            let keep = s[1] == 1;
            &&& s[0] > 5 ==> refused_as(s, RequestError::UnknownType)
            &&& (s[0] == 3 || s[0] == 4) && s[1] == 1 ==> refused_as(s, RequestError::FlagsNotZero)
            &&& s[0] == 3 && s[1] == 0 ==> read_as(s, RequestModel::Cancel, false, 2)
            &&& s[0] == 4 && s[1] == 0 ==> read_as(s, RequestModel::Watch, false, 2)
            &&& s[0] == 1 ==> read_as(s, RequestModel::List, keep, 2)
            &&& s[0] == 5 ==> read_as(s, RequestModel::ListAndGet, keep, 2)
            &&& s[0] == 0 && (s.len() < 3 || s.len() < 3 + 8 * s[2]) ==> refused_as(
                s,
                RequestError::Incomplete,
            )
            &&& s[0] == 0 && s.len() >= 3 && s.len() >= 3 + 8 * s[2] ==> read_as(
                s,
                RequestModel::GetById(ids_at_front(s.skip(3), s[2] as nat)->Ok_0),
                keep,
                (3 + 8 * s[2]) as nat,
            )
            &&& s[0] == 2 ==> match varint_at_front(s.skip(2)) {
                Err(e) => refused_as(
                    s,
                    if e == ProtocolError::UnexpectedEof {
                        RequestError::Incomplete
                    } else {
                        RequestError::MalformedCount
                    },
                ),
                Ok((count, n)) => if count > 1_000_000 {
                    refused_as(s, RequestError::TooManyIds)
                } else if s.len() < 2 + n + 8 * count {
                    refused_as(s, RequestError::Incomplete)
                } else {
                    read_as(
                        s,
                        RequestModel::Batch(ids_at_front(s.skip(2 + n as int), count as nat)->Ok_0),
                        keep,
                        (2 + n + 8 * count) as nat,
                    )
                },
            }
        },
{
    if s.len() >= 2 {
        let flags = s[1];
        assert((flags & 0b1111_1110u8 != 0) == (flags > 1)) by (bit_vector);
        if s[0] == 2 {
            law_varint_canonical(s.skip(2));
        }
    }
}

/// `s` is refused with this error.
pub open spec fn refused_as(s: Seq<u8>, e: RequestError) -> bool {
    request_at_front(s) == Err::<((RequestModel, bool), nat), RequestError>(e)
}

/// `s` is read as this request, which takes `n` bytes.
pub open spec fn read_as(s: Seq<u8>, request: RequestModel, keep_alive: bool, n: nat) -> bool {
    request_at_front(s) == Ok::<((RequestModel, bool), nat), RequestError>(
        ((request, keep_alive), n),
    )
}

/// The model of a request says all that it holds.
pub proof fn law_request_models(request: Request)
    ensures
        request matches Request::GetById(ids) ==> request@ == RequestModel::GetById(ids@),
        request matches Request::Batch(ids) ==> request@ == RequestModel::Batch(ids@),
        request is List ==> request@ is List,
        request is ListAndGet ==> request@ is ListAndGet,
        request is Cancel ==> request@ is Cancel,
        request is Watch ==> request@ is Watch,
{
}

} // verus!
