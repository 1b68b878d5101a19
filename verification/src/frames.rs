//! The frames that every response is made of: magic headers, catalog fields,
//! ERROR responses and CANCEL acknowledgements.

use crate::bytes::{
    append_bytes, copy_front, law_u16_round_trip, law_u64_round_trip, read_u16, read_u64,
    skip_front, starts_with_magic, u16_at_front, u16_bytes, u64_at_front, u64_bytes, write_u16,
    write_u64,
};
use crate::error::ProtocolError;
use crate::flags::{image_flags_check, validate_image_flags};
use crate::image_id::ImageId;
use crate::text::{from_utf8_lossy, nfc, nfc_form, text_in};
use crate::varint::{
    law_varint_canonical, law_varint_round_trip, law_varint_settled, read_varint_u32,
    varint_at_front, varint_bytes, write_varint_u32,
};
use vstd::prelude::*;
use vstd::utf8::{encode_utf8, encode_utf8_decode_utf8, encode_utf8_valid_utf8};

verus! {

/// `JTPL`: a LIST response.
pub const RESPONSE_LIST: [u8; 4] = [0x4A, 0x54, 0x50, 0x4C];

/// `JTPD`: a GET_BY_ID response.
pub const RESPONSE_GET_BY_ID: [u8; 4] = [0x4A, 0x54, 0x50, 0x44];

/// `JTPB`: a BATCH response.
pub const RESPONSE_BATCH: [u8; 4] = [0x4A, 0x54, 0x50, 0x42];

/// `JTPG`: a LIST_AND_GET response.
pub const RESPONSE_LIST_AND_GET: [u8; 4] = [0x4A, 0x54, 0x50, 0x47];

/// `JTPC`: a CANCEL acknowledgement.
pub const RESPONSE_CANCEL: [u8; 4] = [0x4A, 0x54, 0x50, 0x43];

/// `JTPW`: a WATCH event.
pub const RESPONSE_WATCH: [u8; 4] = [0x4A, 0x54, 0x50, 0x57];

/// `JTPE`: an ERROR response.
pub const RESPONSE_ERROR: [u8; 4] = [0x4A, 0x54, 0x50, 0x45];

/// Whether `s` starts with this magic header; `UnexpectedEof` where it is too
/// short to tell.
pub open spec fn magic_check(s: Seq<u8>, magic: [u8; 4]) -> Result<(), ProtocolError> {
    if s.len() < 4 {
        Err(ProtocolError::UnexpectedEof)
    } else if s.take(4) != magic@ {
        Err(ProtocolError::UnexpectedHeader)
    } else {
        Ok(())
    }
}

/// Checks the magic header at the start of `input`.
pub fn expect_magic(input: &[u8], magic: [u8; 4]) -> (r: Result<(), ProtocolError>)
    ensures
        r == magic_check(input@, magic),
{
    if input.len() < 4 {
        Err(ProtocolError::UnexpectedEof)
    } else if starts_with_magic(input, magic) {
        Ok(())
    } else {
        Err(ProtocolError::UnexpectedHeader)
    }
}

/// As much of `b` as a 16-bit length can announce.
pub open spec fn at_most_u16(b: Seq<u8>) -> Seq<u8> {
    if b.len() <= u16::MAX {
        b
    } else {
        b.take(u16::MAX as int)
    }
}

/// A text on the wire: its UTF-8 bytes after their 16-bit length. Longer text
/// is cut.
pub open spec fn text_bytes(text: Seq<char>) -> Seq<u8> {
    let b = at_most_u16(encode_utf8(text));
    u16_bytes(b.len() as u16) + b
}

/// The bytes behind a 16-bit length at the start of `s`.
pub open spec fn counted_at_front(s: Seq<u8>) -> Result<Seq<u8>, ProtocolError> {
    match u16_at_front(s) {
        Err(e) => Err(e),
        Ok(len) => if s.len() < 2 + len {
            Err(ProtocolError::UnexpectedEof)
        } else {
            Ok(s.subrange(2, 2 + len))
        },
    }
}

/// Appends `text` after its 16-bit length.
pub fn write_text(out: &mut Vec<u8>, text: &str)
    ensures
        final(out)@ == old(out)@ + text_bytes(text@),
{
    let b = text.as_bytes();
    let len: u16 = if b.len() <= 65535 {
        b.len() as u16
    } else {
        65535
    };
    write_u16(out, len);
    append_bytes(out, &b[0..len as usize]);
    proof {
        assert(b@.subrange(0, len as int) =~= at_most_u16(b@));
        assert(out@ =~= old(out)@ + text_bytes(text@));
    }
}

/// Reads the bytes behind a 16-bit length at the start of `input`.
pub fn read_counted(input: &[u8]) -> (r: Result<Vec<u8>, ProtocolError>)
    ensures
        match counted_at_front(input@) {
            Ok(b) => r matches Ok(v) && v@ == b && b.len() + 2 <= input@.len() && b.len()
                <= u16::MAX,
            Err(e) => r == Err::<Vec<u8>, ProtocolError>(e),
        },
{
    let len: u16 = match read_u16(input) {
        Ok(len) => len,
        Err(e) => return Err(e),
    };
    let len: usize = len as usize;
    if input.len() - 2 < len {
        return Err(ProtocolError::UnexpectedEof);
    }
    let part = &input[2..2 + len];
    let v = copy_front(part, len);
    proof {
        assert(v@ =~= part@);
    }
    Ok(v)
}

/// A text of at most 65535 bytes reads back as it was written.
pub proof fn law_text_round_trip(text: Seq<char>, rest: Seq<u8>)
    requires
        encode_utf8(text).len() <= u16::MAX,
    ensures
        text_bytes(text).len() == 2 + encode_utf8(text).len(),
        counted_at_front(text_bytes(text) + rest) == Ok::<Seq<u8>, ProtocolError>(
            encode_utf8(text),
        ),
        text_in(encode_utf8(text)) == text,
{
    let b = encode_utf8(text);
    let s = text_bytes(text) + rest;
    law_u16_round_trip(b.len() as u16, b + rest);
    assert(s =~= u16_bytes(b.len() as u16) + (b + rest));
    assert(s.subrange(2, 2 + b.len() as int) =~= b);
    encode_utf8_decode_utf8(text);
    encode_utf8_valid_utf8(text);
}

proof fn lemma_counted_settled(s: Seq<u8>, more: Seq<u8>)
    requires
        counted_at_front(s) is Ok,
    ensures
        counted_at_front(s + more) == counted_at_front(s),
{
    assert((s + more).take(2) =~= s.take(2));
    let len = u16_at_front(s)->Ok_0 as int;
    assert((s + more).subrange(2, 2 + len) =~= s.subrange(2, 2 + len));
}

/// An image as LIST entries and WATCH events describe it, with the bytes of
/// its file name.
pub struct RawEntry {
    pub id: ImageId,
    pub flags: u8,
    pub name: Vec<u8>,
    pub size: u32,
}

/// A `RawEntry` as a mathematical value.
#[verifier::ext_equal]
pub struct RawModel {
    pub id: ImageId,
    pub flags: u8,
    pub name: Seq<u8>,
    pub size: u32,
}

impl View for RawEntry {
    type V = RawModel;

    open spec fn view(&self) -> RawModel {
        RawModel { id: self.id, flags: self.flags, name: self.name@, size: self.size }
    }
}

/// The description of an image on the wire: ImageID, flags, file name, size.
pub open spec fn entry_bytes(id: ImageId, flags: u8, name: Seq<char>, size: u32) -> Seq<u8> {
    u64_bytes(id) + seq![flags] + text_bytes(name) + varint_bytes(size as nat)
}

/// The description of an image at the start of `s`, and the number of bytes
/// it takes. One with a reserved flag bit is refused.
pub open spec fn entry_at_front(s: Seq<u8>) -> Result<(RawModel, nat), ProtocolError> {
    match u64_at_front(s) {
        Err(e) => Err(e),
        Ok(id) => if s.len() < 9 {
            Err(ProtocolError::UnexpectedEof)
        } else {
            match counted_at_front(s.skip(9)) {
                Err(e) => Err(e),
                Ok(name) => match varint_at_front(s.skip(11 + name.len() as int)) {
                    Err(e) => Err(e),
                    Ok((size, n)) => match image_flags_check(s[8]) {
                        Err(e) => Err(e),
                        Ok(_) => Ok((RawModel { id, flags: s[8], name, size }, 11 + name.len() + n)),
                    },
                },
            }
        },
    }
}

/// Appends the description of an image; its name is brought to NFC first.
pub fn write_entry(out: &mut Vec<u8>, id: ImageId, flags: u8, name: &str, size: u32)
    ensures
        final(out)@ == old(out)@ + entry_bytes(id, flags, nfc_form(name@), size),
        nfc_form(nfc_form(name@)) == nfc_form(name@),
{
    let name = nfc(name);
    write_u64(out, id);
    out.push(flags);
    write_text(out, &name);
    write_varint_u32(out, size);
    proof {
        assert(out@ =~= old(out)@ + entry_bytes(id, flags, name@, size));
    }
}

/// Reads the description of an image at the start of `input`; with it comes
/// the number of bytes it takes.
pub fn read_entry(input: &[u8]) -> (r: Result<(RawEntry, usize), ProtocolError>)
    ensures
        match entry_at_front(input@) {
            Ok((e, n)) => r matches Ok((re, rn)) && re@ == e && rn == n && n <= input@.len(),
            Err(e) => r == Err::<(RawEntry, usize), ProtocolError>(e),
        },
{
    let id: u64 = match read_u64(input) {
        Ok(id) => id,
        Err(e) => return Err(e),
    };
    if input.len() < 9 {
        return Err(ProtocolError::UnexpectedEof);
    }
    let flags: u8 = input[8];
    let name = match read_counted(skip_front(input, 9)) {
        Ok(name) => name,
        Err(e) => return Err(e),
    };
    let at: usize = 11 + name.len();
    let rest = skip_front(input, at);
    let (size, n) = match read_varint_u32(rest) {
        Ok(p) => p,
        Err(e) => return Err(e),
    };
    proof {
        law_varint_canonical(rest@);
    }
    match validate_image_flags(flags) {
        Ok(_) => Ok((RawEntry { id, flags, name, size }, at + n)),
        Err(e) => Err(e),
    }
}

/// A description with a name of at most 65535 bytes reads back as it was
/// written.
pub proof fn law_entry_round_trip(
    id: ImageId,
    flags: u8,
    name: Seq<char>,
    size: u32,
    rest: Seq<u8>,
)
    requires
        image_flags_check(flags) is Ok,
        encode_utf8(name).len() <= u16::MAX,
    ensures
        entry_at_front(entry_bytes(id, flags, name, size) + rest) == Ok::<
            (RawModel, nat),
            ProtocolError,
        >(
            (
                RawModel { id, flags, name: encode_utf8(name), size },
                entry_bytes(id, flags, name, size).len(),
            ),
        ),
{
    let s = entry_bytes(id, flags, name, size) + rest;
    let v = varint_bytes(size as nat);
    let t = text_bytes(name);
    law_u64_round_trip(id, seq![flags] + t + v + rest);
    law_text_round_trip(name, v + rest);
    law_varint_round_trip(size, rest);
    lemma_entry_parts(u64_bytes(id), flags, t, v, rest);
    assert(entry_bytes(id, flags, name, size).len() == 9 + t.len() + v.len());
}

proof fn lemma_entry_parts(a: Seq<u8>, flags: u8, t: Seq<u8>, v: Seq<u8>, rest: Seq<u8>)
    requires
        a.len() == 8,
    ensures
        ({
            let s = a + seq![flags] + t + v + rest;
            &&& s == a + (seq![flags] + t + v + rest)
            &&& s[8] == flags
            &&& s.len() == 9 + t.len() + v.len() + rest.len()
            &&& s.skip(9) == t + (v + rest)
            &&& s.skip(9 + t.len() as int) == v + rest
        }),
{
    let s = a + seq![flags] + t + v + rest;
    assert(s =~= a + (seq![flags] + t + v + rest));
    assert(s.skip(9) =~= t + (v + rest));
    assert(s.skip(9 + t.len() as int) =~= v + rest);
}

/// What a description reads as is settled once it is complete: bytes that
/// follow it change nothing.
pub proof fn law_entry_settled(s: Seq<u8>, more: Seq<u8>)
    requires
        entry_at_front(s) != Err::<(RawModel, nat), ProtocolError>(ProtocolError::UnexpectedEof),
    ensures
        entry_at_front(s + more) == entry_at_front(s),
{
    let t = s + more;
    assert(t.take(8) =~= s.take(8));
    assert(t.skip(9) =~= s.skip(9) + more);
    lemma_counted_settled(s.skip(9), more);
    let at = 11 + counted_at_front(s.skip(9))->Ok_0.len() as int;
    assert(t.skip(at) =~= s.skip(at) + more);
    law_varint_settled(s.skip(at), more);
}

/// What went wrong with a request.
#[derive(Debug, Clone, Copy, PartialEq, Eq, Structural)]
pub enum ErrorCode {
    NotFound,
    InvalidRequest,
    ServerError,
    UnsupportedFeature,
    RateLimited,
}

/// The number of an error code on the wire.
pub open spec fn code_number(code: ErrorCode) -> u8 {
    match code {
        ErrorCode::NotFound => 1,
        ErrorCode::InvalidRequest => 2,
        ErrorCode::ServerError => 3,
        ErrorCode::UnsupportedFeature => 4,
        ErrorCode::RateLimited => 5,
    }
}

impl ErrorCode {
    /// The error code with this number.
    pub fn from_u8(value: u8) -> (r: Option<Self>)
        ensures
            match r {
                Some(code) => code_number(code) == value,
                None => value == 0 || value > 5,
            },
    {
        match value {
            1 => Some(ErrorCode::NotFound),
            2 => Some(ErrorCode::InvalidRequest),
            3 => Some(ErrorCode::ServerError),
            4 => Some(ErrorCode::UnsupportedFeature),
            5 => Some(ErrorCode::RateLimited),
            _ => None,
        }
    }

    /// The number of this error code.
    pub fn to_u8(self) -> (value: u8)
        ensures
            value == code_number(self),
    {
        match self {
            ErrorCode::NotFound => 1,
            ErrorCode::InvalidRequest => 2,
            ErrorCode::ServerError => 3,
            ErrorCode::UnsupportedFeature => 4,
            ErrorCode::RateLimited => 5,
        }
    }
}

/// An ERROR response.
pub open spec fn error_bytes(code: ErrorCode, message: Seq<char>) -> Seq<u8> {
    RESPONSE_ERROR@ + seq![code_number(code)] + text_bytes(message)
}

/// The error code, the message and their length in bytes at the start of
/// `s`, which is what follows the header of an ERROR response.
pub open spec fn error_at_front(s: Seq<u8>) -> Result<((ErrorCode, Seq<char>), nat), ProtocolError> {
    if s.len() < 1 {
        Err(ProtocolError::UnexpectedEof)
    } else if s[0] == 0 || s[0] > 5 {
        Err(ProtocolError::UnknownErrorCode)
    } else {
        match counted_at_front(s.skip(1)) {
            Err(e) => Err(e),
            Ok(message) => Ok(((code_numbered(s[0]), text_in(message)), 3 + message.len())),
        }
    }
}

/// The error code with number `n`, for `n` from 1 to 5.
pub open spec fn code_numbered(n: u8) -> ErrorCode {
    if n == 1 {
        ErrorCode::NotFound
    } else if n == 2 {
        ErrorCode::InvalidRequest
    } else if n == 3 {
        ErrorCode::ServerError
    } else if n == 4 {
        ErrorCode::UnsupportedFeature
    } else {
        ErrorCode::RateLimited
    }
}

/// Appends an ERROR response.
pub fn send_error(out: &mut Vec<u8>, code: ErrorCode, message: &str)
    ensures
        final(out)@ == old(out)@ + error_bytes(code, message@),
{
    append_bytes(out, &RESPONSE_ERROR);
    out.push(code.to_u8());
    write_text(out, message);
    proof {
        assert(out@ =~= old(out)@ + error_bytes(code, message@));
    }
}

/// Reads what follows the header of an ERROR response at the start of
/// `input`; with it comes the number of bytes it takes.
pub fn read_error(input: &[u8]) -> (r: Result<((ErrorCode, String), usize), ProtocolError>)
    ensures
        match error_at_front(input@) {
            Ok(((code, message), n)) => r matches Ok(((rc, rm), rn)) && rc == code && rm@ == message
                && rn == n,
            Err(e) => r == Err::<((ErrorCode, String), usize), ProtocolError>(e),
        },
{
    if input.len() < 1 {
        return Err(ProtocolError::UnexpectedEof);
    }
    let code = match ErrorCode::from_u8(input[0]) {
        Some(code) => code,
        None => return Err(ProtocolError::UnknownErrorCode),
    };
    let message = match read_counted(skip_front(input, 1)) {
        Ok(message) => message,
        Err(e) => return Err(e),
    };
    Ok(((code, from_utf8_lossy(&message)), 3 + message.len()))
}

/// An ERROR response with a message of at most 65535 bytes reads back as it
/// was written.
pub proof fn law_error_round_trip(code: ErrorCode, message: Seq<char>, rest: Seq<u8>)
    requires
        encode_utf8(message).len() <= u16::MAX,
    ensures
        magic_check(error_bytes(code, message) + rest, RESPONSE_ERROR) is Ok,
        error_at_front((error_bytes(code, message) + rest).skip(4)) == Ok::<
            ((ErrorCode, Seq<char>), nat),
            ProtocolError,
        >(((code, message), (error_bytes(code, message).len() - 4) as nat)),
{
    let s = error_bytes(code, message) + rest;
    law_text_round_trip(message, rest);
    assert(s.take(4) =~= RESPONSE_ERROR@);
    assert(s.skip(4)[0] == code_number(code));
    assert(s.skip(4).skip(1) =~= text_bytes(message) + rest);
}

/// Appends a CANCEL acknowledgement.
pub fn send_cancel_ack(out: &mut Vec<u8>)
    ensures
        final(out)@ == old(out)@ + RESPONSE_CANCEL@,
{
    append_bytes(out, &RESPONSE_CANCEL);
}

/// The magic headers of different responses differ.
pub proof fn law_magic_headers_differ()
    ensures
        seq![
            RESPONSE_LIST@,
            RESPONSE_GET_BY_ID@,
            RESPONSE_BATCH@,
            RESPONSE_LIST_AND_GET@,
            RESPONSE_CANCEL@,
            RESPONSE_WATCH@,
            RESPONSE_ERROR@,
        ].no_duplicates(),
{
    assert(RESPONSE_LIST@[3] == 0x4C);
    assert(RESPONSE_GET_BY_ID@[3] == 0x44);
    assert(RESPONSE_BATCH@[3] == 0x42);
    assert(RESPONSE_LIST_AND_GET@[3] == 0x47);
    assert(RESPONSE_CANCEL@[3] == 0x43);
    assert(RESPONSE_WATCH@[3] == 0x57);
    assert(RESPONSE_ERROR@[3] == 0x45);
}

/// A text is laid out as the 16-bit number of its UTF-8 bytes and these bytes,
/// of which at most 65535 are sent.
pub proof fn law_text_layout(text: Seq<char>)
    ensures
        encode_utf8(text).len() <= 65535 ==> text_bytes(text) == u16_bytes(
            encode_utf8(text).len() as u16,
        ) + encode_utf8(text),
        encode_utf8(text).len() > 65535 ==> text_bytes(text) == u16_bytes(65535) + encode_utf8(
            text,
        ).take(65535),
{
}

/// The bytes behind a 16-bit length are read if all of them are there, and
/// then exactly these.
pub proof fn law_counted(bytes: Seq<u8>, s: Seq<u8>, rest: Seq<u8>)
    ensures
        bytes.len() <= 65535 ==> counted_at_front(u16_bytes(bytes.len() as u16) + bytes + rest)
            == Ok::<Seq<u8>, ProtocolError>(bytes),
        counted_at_front(s) matches Ok(b) ==> b.len() <= 65535 && 2 + b.len() <= s.len() && s.take(
            2 + b.len() as int,
        ) == u16_bytes(b.len() as u16) + b,
        counted_at_front(s) matches Err(e) ==> e == ProtocolError::UnexpectedEof,
{
    if bytes.len() <= 65535 {
        let t = u16_bytes(bytes.len() as u16) + bytes + rest;
        law_u16_round_trip(bytes.len() as u16, bytes + rest);
        assert(t =~= u16_bytes(bytes.len() as u16) + (bytes + rest));
        assert(t.subrange(2, 2 + bytes.len() as int) =~= bytes);
    }
    if let Ok(b) = counted_at_front(s) {
        let len = u16_at_front(s)->Ok_0;
        law_u16_round_trip(len, Seq::empty());
        assert(s.take(2).take(2) =~= s.take(2));
        assert(u16_at_front(s.take(2)) == Ok::<u16, ProtocolError>(len));
        assert(s.take(2 + b.len() as int) =~= s.take(2) + b);
    }
}

/// The description of an image is laid out as its ImageID, its flags, its name
/// behind a 16-bit length, and its size as a varint. Any bytes can be a name:
/// what is laid out so is read, and what is read was laid out so.
pub proof fn law_entry_layout(
    id: ImageId,
    flags: u8,
    name: Seq<u8>,
    size: u32,
    text: Seq<char>,
    s: Seq<u8>,
    rest: Seq<u8>,
)
    ensures
        entry_bytes(id, flags, text, size) == u64_bytes(id) + seq![flags] + text_bytes(text)
            + varint_bytes(size as nat),
        image_flags_check(flags) is Ok && name.len() <= 65535 ==> {
            let laid_out = raw_entry_bytes(RawModel { id, flags, name, size });
            entry_at_front(laid_out + rest) == Ok::<(RawModel, nat), ProtocolError>(
                (RawModel { id, flags, name, size }, laid_out.len()),
            )
        },
        entry_at_front(s) matches Ok((e, n)) ==> {
            &&& n <= s.len()
            &&& s.take(n as int) == raw_entry_bytes(e)
            &&& image_flags_check(e.flags) is Ok
            &&& e.name.len() <= 65535
        },
{
    if image_flags_check(flags) is Ok && name.len() <= 65535 {
        lemma_raw_entry_is_read(RawModel { id, flags, name, size }, rest);
    }
    lemma_entry_was_laid_out(s);
}

proof fn lemma_raw_entry_is_read(e: RawModel, rest: Seq<u8>)
    requires
        image_flags_check(e.flags) is Ok,
        e.name.len() <= 65535,
    ensures
        entry_at_front(raw_entry_bytes(e) + rest) == Ok::<(RawModel, nat), ProtocolError>(
            (e, raw_entry_bytes(e).len()),
        ),
{
    let t = u16_bytes(e.name.len() as u16) + e.name;
    let v = varint_bytes(e.size as nat);
    law_u16_round_trip(e.name.len() as u16, Seq::empty());
    law_u64_round_trip(e.id, seq![e.flags] + t + v + rest);
    law_counted(e.name, Seq::empty(), v + rest);
    law_varint_round_trip(e.size, rest);
    lemma_entry_parts(u64_bytes(e.id), e.flags, t, v, rest);
    assert(raw_entry_bytes(e).len() == 9 + t.len() + v.len());
}

proof fn lemma_entry_was_laid_out(s: Seq<u8>)
    ensures
        entry_at_front(s) matches Ok((e, n)) ==> {
            &&& n <= s.len()
            &&& s.take(n as int) == raw_entry_bytes(e)
            &&& image_flags_check(e.flags) is Ok
            &&& e.name.len() <= 65535
        },
{
    if let Ok((e, n)) = entry_at_front(s) {
        let a = s.take(8);
        law_u64_round_trip(e.id, Seq::empty());
        assert(a.take(8) =~= a);
        assert(u64_at_front(a) == Ok::<u64, ProtocolError>(e.id));
        law_counted(Seq::empty(), s.skip(9), Seq::empty());
        let len = e.name.len() as int;
        law_varint_canonical(s.skip(11 + len));
        lemma_entry_cut(s, len, n as int);
    }
}

proof fn lemma_entry_cut(s: Seq<u8>, len: int, n: int)
    requires
        0 <= len,
        11 + len <= n <= s.len(),
    ensures
        s.take(n) == s.take(8) + seq![s[8]] + s.skip(9).take(2 + len) + s.skip(11 + len).take(
            n - 11 - len,
        ),
{
    assert(s.take(n) =~= s.take(8) + seq![s[8]] + s.skip(9).take(2 + len) + s.skip(11 + len).take(
        n - 11 - len,
    ));
}

/// The description of an image with these bytes for a name, on the wire.
pub open spec fn raw_entry_bytes(e: RawModel) -> Seq<u8> {
    u64_bytes(e.id) + seq![e.flags] + (u16_bytes(e.name.len() as u16) + e.name) + varint_bytes(
        e.size as nat,
    )
}

/// An ERROR response is laid out as its header, the number of its code, and
/// its message behind a 16-bit length. It is read if its code is assigned and
/// all of it is there, with the code that has this number.
pub proof fn law_error_layout(code: ErrorCode, message: Seq<char>, s: Seq<u8>)
    ensures
        error_bytes(code, message) == seq![0x4Au8, 0x54, 0x50, 0x45, code_number(code)] + text_bytes(
            message,
        ),
        code_number(ErrorCode::NotFound) == 1,
        code_number(ErrorCode::InvalidRequest) == 2,
        code_number(ErrorCode::ServerError) == 3,
        code_number(ErrorCode::UnsupportedFeature) == 4,
        code_number(ErrorCode::RateLimited) == 5,
        s.len() == 0 ==> error_at_front(s) == Err::<((ErrorCode, Seq<char>), nat), ProtocolError>(
            ProtocolError::UnexpectedEof,
        ),
        s.len() > 0 && !(1 <= s[0] <= 5) ==> error_at_front(s) == Err::<
            ((ErrorCode, Seq<char>), nat),
            ProtocolError,
        >(ProtocolError::UnknownErrorCode),
        s.len() > 0 && 1 <= s[0] <= 5 ==> match counted_at_front(s.skip(1)) {
            Err(_) => error_at_front(s) == Err::<((ErrorCode, Seq<char>), nat), ProtocolError>(
                ProtocolError::UnexpectedEof,
            ),
            Ok(b) => error_at_front(s) matches Ok(((c, m), n)) && code_number(c) == s[0] && m
                == text_in(b) && n == 3 + b.len(),
        },
{
    assert(error_bytes(code, message) =~= seq![0x4Au8, 0x54, 0x50, 0x45, code_number(code)]
        + text_bytes(message));
    if s.len() > 0 {
        law_counted(Seq::empty(), s.skip(1), Seq::empty());
    }
}

/// The magic headers are the four ASCII characters that the protocol gives
/// them.
pub proof fn law_magic_headers()
    ensures
        RESPONSE_LIST@ == seq![0x4Au8, 0x54, 0x50, 0x4C],
        RESPONSE_GET_BY_ID@ == seq![0x4Au8, 0x54, 0x50, 0x44],
        RESPONSE_BATCH@ == seq![0x4Au8, 0x54, 0x50, 0x42],
        RESPONSE_LIST_AND_GET@ == seq![0x4Au8, 0x54, 0x50, 0x47],
        RESPONSE_CANCEL@ == seq![0x4Au8, 0x54, 0x50, 0x43],
        RESPONSE_WATCH@ == seq![0x4Au8, 0x54, 0x50, 0x57],
        RESPONSE_ERROR@ == seq![0x4Au8, 0x54, 0x50, 0x45],
{
    assert(RESPONSE_LIST@ =~= seq![0x4Au8, 0x54, 0x50, 0x4C]);
    assert(RESPONSE_GET_BY_ID@ =~= seq![0x4Au8, 0x54, 0x50, 0x44]);
    assert(RESPONSE_BATCH@ =~= seq![0x4Au8, 0x54, 0x50, 0x42]);
    assert(RESPONSE_LIST_AND_GET@ =~= seq![0x4Au8, 0x54, 0x50, 0x47]);
    assert(RESPONSE_CANCEL@ =~= seq![0x4Au8, 0x54, 0x50, 0x43]);
    assert(RESPONSE_WATCH@ =~= seq![0x4Au8, 0x54, 0x50, 0x57]);
    assert(RESPONSE_ERROR@ =~= seq![0x4Au8, 0x54, 0x50, 0x45]);
}

/// The model of a description says all that it holds.
pub proof fn law_entry_model(e: RawEntry)
    ensures
        e@.id == e.id,
        e@.flags == e.flags,
        e@.name == e.name@,
        e@.size == e.size,
{
}

/// Bytes start with a magic header or are too short to tell, or are refused.
pub proof fn law_magic_check(s: Seq<u8>, magic: [u8; 4])
    ensures
        s.len() < 4 ==> magic_check(s, magic) == Err::<(), ProtocolError>(
            ProtocolError::UnexpectedEof,
        ),
        s.len() >= 4 && s.take(4) == magic@ ==> magic_check(s, magic) is Ok,
        s.len() >= 4 && s.take(4) != magic@ ==> magic_check(s, magic) == Err::<(), ProtocolError>(
            ProtocolError::UnexpectedHeader,
        ),
{
}

/// A description is refused for a part that is not complete, in the order of
/// its parts, for a malformed size, and then for its flags.
pub proof fn law_entry_refusals(s: Seq<u8>)
    ensures
        s.len() < 9 ==> entry_refused(s, ProtocolError::UnexpectedEof),
        s.len() >= 9 ==> match counted_at_front(s.skip(9)) {
            Err(_) => entry_refused(s, ProtocolError::UnexpectedEof),
            Ok(name) => match varint_at_front(s.skip(11 + name.len() as int)) {
                Err(e) => entry_refused(s, e),
                Ok((size, n)) => match image_flags_check(s[8]) {
                    Err(e) => entry_refused(s, e),
                    Ok(_) => entry_at_front(s) matches Ok((got, m)) && got.flags == s[8] && got.name
                        == name && got.size == size && m == 11 + name.len() + n,
                },
            },
        },
{
    if s.len() >= 9 {
        law_counted(Seq::empty(), s.skip(9), Seq::empty());
    }
}

/// `s` is refused as a description with this error.
pub open spec fn entry_refused(s: Seq<u8>, e: ProtocolError) -> bool {
    entry_at_front(s) == Err::<(RawModel, nat), ProtocolError>(e)
}

} // verus!
