//! Image packets: header, data, and what a receiver makes of them.

use crate::bytes::{
    append_bytes, copy_front, law_u64_round_trip, read_u64, skip_front, u64_at_front, u64_bytes,
    write_u64,
};
use crate::catalog::ImageMetadata;
use crate::compression::{
    compression_level, decisive, decompress, judgement, kept_frame, stats_for, try_compress,
    zstd_content, zstd_frame, CompressionStats,
};
use crate::error::ProtocolError;
use crate::flags::{
    extension_or, file_type_from_flags, image_flags_check, is_compressed, type_extension,
    validate_image_flags, FLAG_COMPRESSED,
};
use crate::image_id::{
    compute_image_id, hex_ascii, hex_text, id_of, image_id_text, law_image_id_is_xxhash64,
    xxh64_value, ImageId,
};
use crate::listing::ListedImage;
use crate::text::{chars_of, file_name, name_of, nfc, nfc_form, text_of, trim, trimmed};
use crate::varint::{
    law_varint_canonical, law_varint_round_trip, law_varint_settled, read_varint_u32,
    varint_at_front, varint_bytes, write_varint_u32,
};
use std::collections::HashMap;
use vstd::prelude::*;

verus! {

/// What precedes the data of an image packet.
#[derive(Debug, Clone, Copy, PartialEq, Eq, Structural)]
pub struct ImageHeader {
    pub flags: u8,
    pub length: u32,
    pub id: ImageId,
}

/// A packet header on the wire: flags, varint length, ImageID.
pub open spec fn header_bytes(h: ImageHeader) -> Seq<u8> {
    seq![h.flags] + varint_bytes(h.length as nat) + u64_bytes(h.id)
}

/// The packet header at the start of `s` and the number of bytes it takes.
/// A header with a reserved flag bit is refused.
pub open spec fn header_at_front(s: Seq<u8>) -> Result<(ImageHeader, nat), ProtocolError> {
    if s.len() < 1 {
        Err(ProtocolError::UnexpectedEof)
    } else {
        match varint_at_front(s.skip(1)) {
            Err(e) => Err(e),
            Ok((length, n)) => match u64_at_front(s.skip(1 + n as int)) {
                Err(e) => Err(e),
                Ok(id) => match image_flags_check(s[0]) {
                    Err(e) => Err(e),
                    Ok(_) => Ok((ImageHeader { flags: s[0], length, id }, 9 + n)),
                },
            },
        }
    }
}

/// Appends a packet header.
pub fn write_image_header_buffered(out: &mut Vec<u8>, flags: u8, length: u32, id: ImageId)
    ensures
        final(out)@ == old(out)@ + header_bytes(ImageHeader { flags, length, id }),
{
    out.push(flags);
    write_varint_u32(out, length);
    write_u64(out, id);
    proof {
        assert(out@ =~= old(out)@ + header_bytes(ImageHeader { flags, length, id }));
    }
}

/// Reads the packet header at the start of `input`; with it comes the number
/// of bytes it takes.
pub fn read_image_header(input: &[u8]) -> (r: Result<(ImageHeader, usize), ProtocolError>)
    ensures
        match header_at_front(input@) {
            Ok((h, n)) => r matches Ok((rh, rn)) && rh == h && rn == n && n <= input@.len(),
            Err(e) => r == Err::<(ImageHeader, usize), ProtocolError>(e),
        },
{
    if input.len() < 1 {
        return Err(ProtocolError::UnexpectedEof);
    }
    let flags: u8 = input[0];
    let after_flags = skip_front(input, 1);
    let (length, n) = match read_varint_u32(after_flags) {
        Ok(p) => p,
        Err(e) => return Err(e),
    };
    proof {
        law_varint_canonical(after_flags@);
    }
    let after_length = skip_front(after_flags, n);
    proof {
        assert(after_length@ =~= input@.skip(1 + n as int));
    }
    let id: u64 = match read_u64(after_length) {
        Ok(id) => id,
        Err(e) => return Err(e),
    };
    match validate_image_flags(flags) {
        Ok(_) => Ok((ImageHeader { flags, length, id }, n + 9)),
        Err(e) => Err(e),
    }
}

/// The length that a packet header gives for data of `len` bytes: the
/// framing carries at most `u32::MAX`.
pub open spec fn framed_length(len: int) -> u32 {
    if len < u32::MAX {
        len as u32
    } else {
        u32::MAX
    }
}

/// A whole packet: the header, then as many bytes as the header says.
pub open spec fn packet_bytes(flags: u8, id: ImageId, data: Seq<u8>) -> Seq<u8> {
    let length = framed_length(data.len() as int);
    header_bytes(ImageHeader { flags, length, id }) + data.take(length as int)
}

/// The packet at the start of `s`, as header and raw data, and the number of
/// bytes it takes.
pub open spec fn packet_at_front(s: Seq<u8>) -> Result<
    ((ImageHeader, Seq<u8>), nat),
    ProtocolError,
> {
    match header_at_front(s) {
        Err(e) => Err(e),
        Ok((h, n)) => if s.len() < n + h.length {
            Err(ProtocolError::UnexpectedEof)
        } else {
            Ok(((h, s.subrange(n as int, n + h.length)), n + h.length as nat))
        },
    }
}

/// Computes `framed_length`.
pub fn length_for(len: u64) -> (length: u32)
    ensures
        length == framed_length(len as int),
{
    if len < 0xFFFF_FFFF {
        len as u32
    } else {
        0xFFFF_FFFF
    }
}

fn write_packet(out: &mut Vec<u8>, flags: u8, id: ImageId, data: &[u8])
    ensures
        final(out)@ == old(out)@ + packet_bytes(flags, id, data@),
{
    let length: u32 = length_for(data.len() as u64);
    write_image_header_buffered(out, flags, length, id);
    append_bytes(out, &data[0..length as usize]);
    proof {
        assert(data@.subrange(0, length as int) =~= data@.take(length as int));
        assert(out@ =~= old(out)@ + packet_bytes(flags, id, data@));
    }
}

/// How an image was sent.
#[derive(Debug, Clone, Copy, PartialEq, Eq, Structural)]
pub enum SentImage {
    /// Only the header was written: `length` bytes of the file must follow.
    File { length: u32 },
    /// The data was written as it is.
    Plain,
    /// The data was written as it is, since compressing it saves too little.
    Incompressible(CompressionStats),
    /// The data was written compressed.
    Compressed(CompressionStats),
}

/// Whether images with these flags are worth trying to compress: BMP and
/// unknown types are, the other formats are compressed already.
pub open spec fn compressible(flags: u8) -> bool {
    flags % 8 == 3 || flags % 8 == 7
}

/// The flags and the data with which an image that is held in memory is sent:
/// compressed, where its type allows it and that is worth it.
pub open spec fn sent_form(
    flags: u8,
    data: Seq<u8>,
    keep: spec_fn(usize, usize) -> bool,
) -> (u8, Seq<u8>) {
    if compressible(flags) && kept_frame(data, keep) is Some {
        (flags | FLAG_COMPRESSED, kept_frame(data, keep)->0)
    } else {
        (flags, data)
    }
}

/// The packet of an image that is held in memory.
pub open spec fn image_packet(
    flags: u8,
    id: ImageId,
    data: Seq<u8>,
    keep: spec_fn(usize, usize) -> bool,
) -> Seq<u8> {
    packet_bytes(sent_form(flags, data, keep).0, id, sent_form(flags, data, keep).1)
}

/// Appends the packet of an image.
///
/// Of an image that is not held in memory only the header is written;
/// `file_len` is the length of its file. Of one that is, the data follows,
/// compressed where its type allows it and `worth_it`, called with the
/// compressed and the original size, says so.
pub fn send_image_with_options<F: Fn(usize, usize) -> bool>(
    out: &mut Vec<u8>,
    metadata: &ImageMetadata,
    file_len: u64,
    worth_it: &F,
) -> (r: Result<SentImage, ProtocolError>)
    requires
        decisive(*worth_it),
    ensures
        match metadata@.cached_data {
            None => {
                let length = framed_length(file_len as int);
                &&& r == Ok::<SentImage, ProtocolError>(SentImage::File { length })
                &&& final(out)@ == old(out)@ + header_bytes(
                    ImageHeader { flags: metadata.flags, length, id: metadata.id },
                )
            },
            Some(data) => {
                let keep = judgement(*worth_it);
                let frame = zstd_frame(data, compression_level(data.len() as int));
                if compressible(metadata.flags) && frame is None {
                    &&& r == Err::<SentImage, ProtocolError>(ProtocolError::CompressionFailed)
                    &&& final(out)@ == old(out)@
                } else {
                    &&& final(out)@ == old(out)@ + image_packet(
                        metadata.flags,
                        metadata.id,
                        data,
                        keep,
                    )
                    &&& compressible(metadata.flags) ==> zstd_content(frame->0) == Some(data)
                    &&& r == Ok::<SentImage, ProtocolError>(
                        if !compressible(metadata.flags) {
                            SentImage::Plain
                        } else if kept_frame(data, keep) is Some {
                            SentImage::Compressed(stats_for(data, keep))
                        } else {
                            SentImage::Incompressible(stats_for(data, keep))
                        },
                    )
                }
            },
        },
{
    let flags: u8 = metadata.flags;
    let data: &Vec<u8> = match &metadata.cached_data {
        None => {
            let length: u32 = length_for(file_len);
            write_image_header_buffered(out, flags, length, metadata.id);
            return Ok(SentImage::File { length });
        },
        Some(data) => data,
    };
    let file_type: u8 = file_type_from_flags(flags);
    if file_type == 3 || file_type == 7 {
        match try_compress(data, worth_it) {
            Ok((Some(frame), stats)) => {
                write_packet(out, flags | FLAG_COMPRESSED, metadata.id, &frame);
                Ok(SentImage::Compressed(stats))
            },
            Ok((None, stats)) => {
                write_packet(out, flags, metadata.id, data);
                Ok(SentImage::Incompressible(stats))
            },
            Err(e) => Err(e),
        }
    } else {
        write_packet(out, flags, metadata.id, data);
        Ok(SentImage::Plain)
    }
}

/// The length of the data with which an image that is held in memory is sent,
/// as its packet gives it.
pub fn sent_length<F: Fn(usize, usize) -> bool>(flags: u8, data: &[u8], worth_it: &F) -> (length: u32)
    requires
        decisive(*worth_it),
    ensures
        length == framed_length(sent_form(flags, data@, judgement(*worth_it)).1.len() as int),
{
    let file_type: u8 = file_type_from_flags(flags);
    if file_type == 3 || file_type == 7 {
        if let Ok((Some(frame), _)) = try_compress(data, worth_it) {
            return length_for(frame.len() as u64);
        }
    }
    length_for(data.len() as u64)
}

/// An image that a client has received and verified.
pub struct ReceivedImage {
    /// The name to store it under.
    pub name: String,
    pub data: Vec<u8>,
}

/// `s` without its slashes and backslashes.
pub open spec fn without_separators(s: Seq<char>) -> Seq<char>
    decreases s.len(),
{
    if s.len() == 0 {
        s
    } else {
        let front = without_separators(s.drop_last());
        if s.last() == '/' || s.last() == '\\' {
            front
        } else {
            front.push(s.last())
        }
    }
}

/// `s` without its `..` sequences, taken out from left to right.
pub open spec fn without_parents(s: Seq<char>) -> Seq<char>
    decreases s.len(),
{
    if s.len() < 2 {
        s
    } else if s[0] == '.' && s[1] == '.' {
        without_parents(s.skip(2))
    } else {
        seq![s[0]] + without_parents(s.skip(1))
    }
}

/// What is left of a catalog file name once nothing in it can lead out of the
/// directory it is stored in.
pub open spec fn safe_name(filename: Seq<char>) -> Seq<char> {
    without_parents(without_separators(trimmed(nfc_form(name_of(filename)))))
}

/// The name to store a received image under. The catalog's file name is
/// taken where it is usable; it gets the extension of the image's type if it
/// holds no dot. Otherwise the name is made of the ImageID.
pub open spec fn output_name(h: ImageHeader, listed: Map<ImageId, ListedImage>) -> Seq<char> {
    let known = listed.dom().contains(h.id);
    let flags = if known {
        listed[h.id].flags
    } else {
        h.flags
    };
    let ext = match type_extension(flags % 8) {
        Some(ext) => ext,
        None => "bin"@,
    };
    let name = safe_name(listed[h.id].filename@);
    if !known || name.len() == 0 || name == seq!['.'] {
        "output_"@ + hex_text(u64_bytes(h.id)) + seq!['.'] + ext
    } else if name.contains('.') {
        name
    } else {
        name + seq!['.'] + ext
    }
}

fn drop_separators(s: &[char]) -> (r: Vec<char>)
    ensures
        r@ == without_separators(s@),
{
    let mut r: Vec<char> = Vec::new();
    let mut i: usize = 0;
    while i < s.len()
        invariant
            i <= s@.len(),
            r@ == without_separators(s@.take(i as int)),
        decreases s@.len() - i,
    {
        if s[i] != '/' && s[i] != '\\' {
            r.push(s[i]);
        }
        proof {
            assert(s@.take(i + 1).drop_last() =~= s@.take(i as int));
        }
        i = i + 1;
    }
    proof {
        assert(s@.take(i as int) =~= s@);
    }
    r
}

fn drop_parents(s: &[char]) -> (r: Vec<char>)
    ensures
        r@ == without_parents(s@),
{
    let n: usize = s.len();
    let mut r: Vec<char> = Vec::new();
    let mut i: usize = 0;
    proof {
        assert(s@.skip(0) =~= s@);
    }
    while i < n
        invariant
            i <= n == s@.len(),
            without_parents(s@) =~= r@ + without_parents(s@.skip(i as int)),
        decreases n - i,
    {
        let ghost rest = s@.skip(i as int);
        if n - i >= 2 && s[i] == '.' && s[i + 1] == '.' {
            proof {
                assert(rest.skip(2) =~= s@.skip(i + 2));
            }
            i = i + 2;
        } else {
            proof {
                assert(rest.skip(1) =~= s@.skip(i + 1));
                if rest.len() == 1 {
                    assert(s@.skip(i + 1) =~= Seq::<char>::empty());
                    assert(rest =~= seq![s@[i as int]] + without_parents(s@.skip(i + 1)));
                }
            }
            r.push(s[i]);
            i = i + 1;
        }
    }
    r
}

fn has_dot(s: &[char]) -> (r: bool)
    ensures
        r == s@.contains('.'),
{
    let mut i: usize = 0;
    while i < s.len()
        invariant
            i <= s@.len(),
            forall|j: int| 0 <= j < i ==> s@[j] != '.',
        decreases s@.len() - i,
    {
        if s[i] == '.' {
            return true;
        }
        i = i + 1;
    }
    false
}

/// Chooses the name to store a received image under.
pub fn choose_output_name(h: &ImageHeader, listed: &HashMap<ImageId, ListedImage>) -> (name: String)
    ensures
        name@ == output_name(*h, listed@),
{
    broadcast use vstd::std_specs::hash::group_hash_axioms;

    match listed.get(&h.id) {
        Some(entry) => {
            let ext = extension_or(file_type_from_flags(entry.flags), "bin");
            let path = chars_of(&entry.filename);
            let normal = chars_of(&nfc(&text_of(file_name(&path))));
            let name = drop_parents(&drop_separators(trim(&normal)));
            if name.len() == 0 || (name.len() == 1 && name[0] == '.') {
                proof {
                    assert(name@.len() == 1 ==> name@ =~= seq!['.']);
                }
                return fallback_name(h.id, ext);
            }
            proof {
                assert(name@ == safe_name(entry.filename@));
                assert(name@ != seq!['.']) by {
                    assert(name@.len() != 1 || name@[0] != '.');
                }
            }
            let mut result: String = text_of(&name);
            if !has_dot(&name) {
                result.push('.');
                result.append(ext);
            }
            result
        },
        None => fallback_name(h.id, extension_or(file_type_from_flags(h.flags), "bin")),
    }
}

fn fallback_name(id: ImageId, ext: &str) -> (name: String)
    ensures
        name@ == "output_"@ + hex_text(u64_bytes(id)) + seq!['.'] + ext@,
{
    let mut name: String = "output_".to_owned();
    name.append(&image_id_text(id));
    name.push('.');
    name.append(ext);
    proof {
        assert(name@ =~= "output_"@ + hex_text(u64_bytes(id)) + seq!['.'] + ext@);
    }
    name
}

/// Takes an image's data once it is decompressed: it is refused if its hash
/// is not the ImageID of its packet.
pub fn accept_image(h: &ImageHeader, data: Vec<u8>, listed: &HashMap<ImageId, ListedImage>) -> (r:
    Result<ReceivedImage, ProtocolError>)
    ensures
        accepted(*h, data@, listed@, r),
{
    let computed: u64 = compute_image_id(&data);
    if computed != h.id {
        return Err(ProtocolError::ImageIdMismatch { expected: h.id, computed });
    }
    let name = choose_output_name(h, listed);
    Ok(ReceivedImage { name, data })
}

/// What `accept_image` returns for data `data` under header `h`.
pub open spec fn accepted(
    h: ImageHeader,
    data: Seq<u8>,
    listed: Map<ImageId, ListedImage>,
    r: Result<ReceivedImage, ProtocolError>,
) -> bool {
    if id_of(data) == h.id {
        r matches Ok(image) && image.data@ == data && image.name@ == output_name(h, listed)
    } else {
        r == Err::<ReceivedImage, ProtocolError>(
            ProtocolError::ImageIdMismatch { expected: h.id, computed: id_of(data) },
        )
    }
}

/// What `receive_image` returns for input `s`.
pub open spec fn received(
    s: Seq<u8>,
    listed: Map<ImageId, ListedImage>,
    r: Result<(ReceivedImage, usize), ProtocolError>,
) -> bool {
    match packet_at_front(s) {
        Err(e) => r == Err::<(ReceivedImage, usize), ProtocolError>(e),
        Ok(((h, raw), n)) => {
            let image = match r {
                Ok((image, rn)) => Ok(image),
                Err(e) => Err(e),
            };
            &&& r matches Ok((_, rn)) ==> rn == n
            &&& if h.flags & FLAG_COMPRESSED == 0 {
                accepted(h, raw, listed, image)
            } else {
                match zstd_content(raw) {
                    Some(data) => accepted(h, data, listed, image),
                    None => image == Err::<ReceivedImage, ProtocolError>(
                        ProtocolError::DecompressionFailed,
                    ),
                }
            }
        },
    }
}

/// Receives the image packet at the start of `input`: decompresses it where
/// its flags say so, verifies its ImageID, and chooses the name to store it
/// under. With the image comes the number of bytes its packet takes.
pub fn receive_image(input: &[u8], listed: &HashMap<ImageId, ListedImage>) -> (r: Result<
    (ReceivedImage, usize),
    ProtocolError,
>)
    ensures
        received(input@, listed@, r),
{
    let (h, n) = match read_image_header(input) {
        Ok(p) => p,
        Err(e) => return Err(e),
    };
    let length: usize = h.length as usize;
    if input.len() - n < length {
        return Err(ProtocolError::UnexpectedEof);
    }
    let raw = &input[n..n + length];
    let data: Vec<u8> = if is_compressed(h.flags) {
        match decompress(raw) {
            Ok(data) => data,
            Err(e) => return Err(e),
        }
    } else {
        let data = copy_front(raw, length);
        proof {
            assert(data@ =~= raw@);
        }
        data
    };
    match accept_image(&h, data, listed) {
        Ok(image) => Ok((image, n + length)),
        Err(e) => Err(e),
    }
}

/// A packet header reads back as it was written and takes 10 to 14 bytes.
pub proof fn law_header_round_trip(h: ImageHeader, rest: Seq<u8>)
    requires
        image_flags_check(h.flags) is Ok,
    ensures
        10 <= header_bytes(h).len() <= 14,
        header_at_front(header_bytes(h) + rest) == Ok::<(ImageHeader, nat), ProtocolError>(
            (h, header_bytes(h).len()),
        ),
{
    let s = header_bytes(h) + rest;
    let v = varint_bytes(h.length as nat);
    let i = u64_bytes(h.id);
    law_u64_round_trip(h.id, rest);
    law_varint_round_trip(h.length, i + rest);
    assert(s.skip(1) =~= v + (i + rest));
    assert(s.skip(1 + v.len() as int) =~= i + rest);
}

/// A header that was read is the one that these bytes are written for.
pub proof fn law_header_canonical(s: Seq<u8>)
    ensures
        header_at_front(s) matches Ok((h, n)) ==> n <= s.len() && s.take(n as int) == header_bytes(h),
{
    if let Ok((h, n)) = header_at_front(s) {
        let m = (n - 9) as int;
        law_varint_canonical(s.skip(1));
        let v = s.skip(1).take(m);
        let i = s.skip(1 + m).take(8);
        law_u64_round_trip(h.id, Seq::empty());
        assert(i.take(8) =~= i);
        assert(u64_at_front(i) == Ok::<u64, ProtocolError>(h.id));
        assert(s.take(n as int) =~= seq![s[0]] + v + i);
    }
}

/// A packet reads back as it was written, up to the largest length that the
/// framing carries.
pub proof fn law_packet_round_trip(flags: u8, id: ImageId, data: Seq<u8>, rest: Seq<u8>)
    requires
        image_flags_check(flags) is Ok,
        data.len() <= u32::MAX,
    ensures
        packet_at_front(packet_bytes(flags, id, data) + rest) == Ok::<
            ((ImageHeader, Seq<u8>), nat),
            ProtocolError,
        >(
            (
                (ImageHeader { flags, length: data.len() as u32, id }, data),
                packet_bytes(flags, id, data).len(),
            ),
        ),
{
    let h = ImageHeader { flags, length: data.len() as u32, id };
    let p = packet_bytes(flags, id, data);
    assert(data.take(data.len() as int) =~= data);
    law_header_round_trip(h, data + rest);
    let n = header_bytes(h).len() as int;
    assert(p + rest =~= header_bytes(h) + (data + rest));
    assert((p + rest).subrange(n, n + data.len()) =~= data);
}

/// What a packet reads as is settled once it is complete: bytes that follow
/// it change nothing.
pub proof fn law_packet_settled(s: Seq<u8>, more: Seq<u8>)
    ensures
        header_at_front(s) != Err::<(ImageHeader, nat), ProtocolError>(ProtocolError::UnexpectedEof)
            ==> header_at_front(s + more) == header_at_front(s),
        packet_at_front(s) != Err::<((ImageHeader, Seq<u8>), nat), ProtocolError>(
            ProtocolError::UnexpectedEof,
        ) ==> packet_at_front(s + more) == packet_at_front(s),
{
    let t = s + more;
    if s.len() > 0 {
        assert(t.skip(1) =~= s.skip(1) + more);
        if varint_at_front(s.skip(1)) != Err::<(u32, nat), ProtocolError>(
            ProtocolError::UnexpectedEof,
        ) {
            law_varint_settled(s.skip(1), more);
            law_varint_canonical(s.skip(1));
            if let Ok((length, n)) = varint_at_front(s.skip(1)) {
                let a = s.skip(1 + n as int);
                let b = t.skip(1 + n as int);
                if a.len() >= 8 {
                    assert(b.take(8) =~= a.take(8));
                }
            }
        }
    }
    if let Ok((h, n)) = header_at_front(s) {
        if s.len() >= n + h.length {
            assert(t.subrange(n as int, n + h.length) =~= s.subrange(n as int, n + h.length));
        }
    }
}

/// An image that is sent as it is arrives as it was sent, whatever follows
/// its packet.
pub proof fn law_plain_image_arrives(
    flags: u8,
    data: Seq<u8>,
    rest: Seq<u8>,
    listed: Map<ImageId, ListedImage>,
    r: Result<(ReceivedImage, usize), ProtocolError>,
)
    requires
        flags < 8,
        data.len() <= u32::MAX,
        received(packet_bytes(flags, id_of(data), data) + rest, listed, r),
    ensures
        r matches Ok((image, n)) && image.data@ == data && n == packet_bytes(
            flags,
            id_of(data),
            data,
        ).len(),
{
    assert(flags < 8 ==> flags & 8 == 0 && flags & 16 == 0 && flags & 0b1110_0000 == 0)
        by (bit_vector);
    law_packet_round_trip(flags, id_of(data), data, rest);
}

/// An image that is sent compressed arrives as it was before compression.
pub proof fn law_compressed_image_arrives(
    flags: u8,
    data: Seq<u8>,
    frame: Seq<u8>,
    rest: Seq<u8>,
    listed: Map<ImageId, ListedImage>,
    r: Result<(ReceivedImage, usize), ProtocolError>,
)
    requires
        flags < 8,
        frame.len() <= u32::MAX,
        zstd_content(frame) == Some(data),
        received(packet_bytes(flags | FLAG_COMPRESSED, id_of(data), frame) + rest, listed, r),
    ensures
        r matches Ok((image, n)) && image.data@ == data && n == packet_bytes(
            flags | FLAG_COMPRESSED,
            id_of(data),
            frame,
        ).len(),
{
    assert(flags < 8 ==> (flags | 8) & 8 != 0 && (flags | 8) & 16 == 0 && (flags | 8) & 0b1110_0000
        == 0) by (bit_vector);
    law_packet_round_trip(flags | FLAG_COMPRESSED, id_of(data), frame, rest);
}

/// What `send_image_with_options` writes for an image that is held in memory
/// arrives as that image, compressed or not, if the packet can carry it.
pub proof fn law_sent_image_arrives(
    flags: u8,
    data: Seq<u8>,
    keep: spec_fn(usize, usize) -> bool,
    rest: Seq<u8>,
    listed: Map<ImageId, ListedImage>,
    r: Result<(ReceivedImage, usize), ProtocolError>,
)
    requires
        flags < 8,
        sent_form(flags, data, keep).1.len() <= u32::MAX,
        kept_frame(data, keep) matches Some(frame) ==> zstd_content(frame) == Some(data),
        received(image_packet(flags, id_of(data), data, keep) + rest, listed, r),
    ensures
        r matches Ok((image, n)) && image.data@ == data && n == image_packet(
            flags,
            id_of(data),
            data,
            keep,
        ).len(),
{
    if compressible(flags) && kept_frame(data, keep) is Some {
        law_compressed_image_arrives(flags, data, kept_frame(data, keep)->0, rest, listed, r);
    } else {
        law_plain_image_arrives(flags, data, rest, listed, r);
    }
}

/// No image is accepted under an ImageID that is not the hash of its data,
/// nor with a reserved flag bit set.
pub proof fn law_received_image_is_verified(
    s: Seq<u8>,
    listed: Map<ImageId, ListedImage>,
    r: Result<(ReceivedImage, usize), ProtocolError>,
)
    requires
        received(s, listed, r),
    ensures
        r matches Ok((image, n)) ==> {
            &&& packet_at_front(s) matches Ok(((h, raw), m)) && m == n && h.id == id_of(image.data@)
            &&& image_flags_check(s[0]) is Ok
        },
{
}

/// A name that leads nowhere but into the directory it is used in.
pub open spec fn stays_inside(name: Seq<char>) -> bool {
    &&& name.len() > 0
    &&& name != seq!['.']
    &&& forall|i: int|
        0 <= i < name.len() ==> #[trigger] name[i] != '/' && name[i] != '\\'
    &&& forall|i: int|
        0 <= i < name.len() - 1 ==> !(#[trigger] name[i] == '.' && name[i + 1] == '.')
}

proof fn lemma_no_separators(s: Seq<char>)
    ensures
        forall|i: int|
            0 <= i < without_separators(s).len() ==> #[trigger] without_separators(s)[i] != '/'
                && without_separators(s)[i] != '\\',
    decreases s.len(),
{
    if s.len() > 0 {
        let front = without_separators(s.drop_last());
        lemma_no_separators(s.drop_last());
        assert forall|i: int| 0 <= i < without_separators(s).len() implies #[trigger]
        without_separators(s)[i] != '/' && without_separators(s)[i] != '\\' by {
            if i < front.len() {
                assert(without_separators(s)[i] == front[i]);
            }
        }
    }
}

proof fn lemma_no_parents(s: Seq<char>)
    ensures
        ({
            let t = without_parents(s);
            &&& t.len() <= s.len()
            &&& forall|i: int| 0 <= i < t.len() ==> s.contains(#[trigger] t[i])
            &&& forall|i: int|
                0 <= i < t.len() - 1 ==> !(#[trigger] t[i] == '.' && t[i + 1] == '.')
            &&& s.len() > 0 && s[0] != '.' ==> t.len() > 0 && t[0] == s[0]
        }),
    decreases s.len(),
{
    let t = without_parents(s);
    if s.len() < 2 {
        assert forall|i: int| 0 <= i < t.len() implies s.contains(#[trigger] t[i]) by {
            assert(s[i] == t[i]);
        }
    } else if s[0] == '.' && s[1] == '.' {
        lemma_no_parents(s.skip(2));
        assert forall|i: int| 0 <= i < t.len() implies s.contains(#[trigger] t[i]) by {
            let j = choose|j: int| 0 <= j < s.skip(2).len() && s.skip(2)[j] == t[i];
            assert(s[j + 2] == t[i]);
        }
    } else {
        let u = without_parents(s.skip(1));
        lemma_no_parents(s.skip(1));
        assert forall|i: int| 0 <= i < t.len() implies s.contains(#[trigger] t[i]) by {
            if i == 0 {
                assert(s[0] == t[0]);
            } else {
                assert(t[i] == u[i - 1]);
                let j = choose|j: int| 0 <= j < s.skip(1).len() && s.skip(1)[j] == u[i - 1];
                assert(s[j + 1] == t[i]);
            }
        }
        assert forall|i: int| 0 <= i < t.len() - 1 implies !(#[trigger] t[i] == '.' && t[i + 1]
            == '.') by {
            if i == 0 {
                if s[0] == '.' {
                    assert(s.skip(1)[0] == s[1]);
                    assert(u[0] == s[1]);
                }
            } else {
                assert(t[i] == u[i - 1] && t[i + 1] == u[i]);
            }
        }
    }
}

proof fn lemma_hex_is_plain(bytes: Seq<u8>)
    ensures
        forall|i: int|
            0 <= i < hex_text(bytes).len() ==> #[trigger] hex_text(bytes)[i] != '/'
                && hex_text(bytes)[i] != '\\' && hex_text(bytes)[i] != '.',
{
    assert forall|i: int| 0 <= i < hex_text(bytes).len() implies #[trigger] hex_text(bytes)[i] != '/'
        && hex_text(bytes)[i] != '\\' && hex_text(bytes)[i] != '.' by {
        let digit = hex_ascii(bytes)[i];
        assert(48 <= digit <= 57 || 97 <= digit <= 102);
        assert(hex_text(bytes)[i] == digit as char);
    }
}

/// The name that a received image is stored under is no path: it has no
/// separator and no `..`, and it is neither empty nor `.`, whatever file name
/// the catalog gave.
pub proof fn law_output_name_stays_inside(h: ImageHeader, listed: Map<ImageId, ListedImage>)
    ensures
        stays_inside(output_name(h, listed)),
{
    reveal_strlit("png");
    reveal_strlit("jpg");
    reveal_strlit("webp");
    reveal_strlit("bmp");
    reveal_strlit("gif");
    reveal_strlit("pdf");
    reveal_strlit("bin");
    reveal_strlit("output_");
    let known = listed.dom().contains(h.id);
    let flags = if known {
        listed[h.id].flags
    } else {
        h.flags
    };
    let ext = match type_extension(flags % 8) {
        Some(ext) => ext,
        None => "bin"@,
    };
    assert(ext.len() >= 3);
    assert forall|i: int| 0 <= i < ext.len() implies #[trigger] ext[i] != '/' && ext[i] != '\\'
        && ext[i] != '.' by {}
    let filename = listed[h.id].filename@;
    let joined = without_separators(trimmed(nfc_form(name_of(filename))));
    let name = safe_name(filename);
    lemma_no_separators(trimmed(nfc_form(name_of(filename))));
    lemma_no_parents(joined);
    lemma_hex_is_plain(u64_bytes(h.id));
    let r = output_name(h, listed);
    assert forall|i: int| 0 <= i < name.len() implies #[trigger] name[i] != '/' && name[i] != '\\' by {
        let j = choose|j: int| 0 <= j < joined.len() && joined[j] == name[i];
        assert(joined[j] != '/');
    }
    if !known || name.len() == 0 || name == seq!['.'] {
        let hex = hex_text(u64_bytes(h.id));
        assert(r =~= "output_"@ + hex + seq!['.'] + ext);
        assert(r[0] == 'o');
    } else if !name.contains('.') {
        assert forall|i: int| 0 <= i < name.len() implies name[i] != '.' by {}
        assert(r =~= name + seq!['.'] + ext);
    }
}

/// A packet header is laid out as the flags, the length as a varint, and the
/// eight bytes of the ImageID. A packet is its header and then its data.
pub proof fn law_packet_layout(flags: u8, id: ImageId, data: Seq<u8>, length: u32)
    ensures
        header_bytes(ImageHeader { flags, length, id }) == seq![flags] + varint_bytes(length as nat)
            + u64_bytes(id),
        data.len() <= u32::MAX ==> packet_bytes(flags, id, data) == seq![flags] + varint_bytes(
            data.len(),
        ) + u64_bytes(id) + data,
        data.len() <= u32::MAX ==> framed_length(data.len() as int) == data.len(),
        data.len() > u32::MAX ==> framed_length(data.len() as int) == u32::MAX,
{
    if data.len() <= u32::MAX {
        assert(data.take(data.len() as int) =~= data);
    }
}

/// PNG, JPEG, WebP, GIF and reserved types are sent as they are. BMP and
/// unknown ones are sent as the frame that was kept of them, with bit 3 of the
/// flags set, or as they are if none was.
pub proof fn law_sent_form(
    flags: u8,
    id: ImageId,
    data: Seq<u8>,
    keep: spec_fn(usize, usize) -> bool,
)
    ensures
        flags % 8 != 3 && flags % 8 != 7 ==> sent_form(flags, data, keep) == (flags, data),
        flags % 8 == 3 || flags % 8 == 7 ==> sent_form(flags, data, keep) == (match kept_frame(
            data,
            keep,
        ) {
            Some(frame) => (flags | 0b0000_1000, frame),
            None => (flags, data),
        }),
        image_packet(flags, id, data, keep) == packet_bytes(
            sent_form(flags, data, keep).0,
            id,
            sent_form(flags, data, keep).1,
        ),
{
}

/// A packet whose data does not hash to its ImageID is refused, and the error
/// says what was expected and what came.
pub proof fn law_corrupt_packet_refused(
    s: Seq<u8>,
    listed: Map<ImageId, ListedImage>,
    r: Result<(ReceivedImage, usize), ProtocolError>,
)
    requires
        received(s, listed, r),
    ensures
        packet_at_front(s) matches Ok(((h, raw), n)) ==> {
            let data = if h.flags / 8 % 2 == 1 {
                zstd_content(raw)
            } else {
                Some(raw)
            };
            match data {
                None => r == Err::<(ReceivedImage, usize), ProtocolError>(
                    ProtocolError::DecompressionFailed,
                ),
                Some(d) => if xxh64_value(d, 0) == h.id {
                    r matches Ok((image, used)) && used == n && image.data@ == d && image.name@
                        == output_name(h, listed)
                } else {
                    r == Err::<(ReceivedImage, usize), ProtocolError>(
                        ProtocolError::ImageIdMismatch {
                            expected: h.id,
                            computed: xxh64_value(d, 0),
                        },
                    )
                },
            }
        },
        packet_at_front(s) matches Err(e) ==> r == Err::<(ReceivedImage, usize), ProtocolError>(e),
{
    if let Ok(((h, raw), n)) = packet_at_front(s) {
        let flags = h.flags;
        assert((flags & 8u8 == 0) == (flags / 8 % 2 == 0)) by (bit_vector);
        law_image_id_is_xxhash64(raw);
        if let Some(d) = zstd_content(raw) {
            law_image_id_is_xxhash64(d);
        }
    }
}

/// A header is read if and only if its bytes are there and its flags are
/// allowed; the error otherwise is that of its length, or of its flags.
pub proof fn law_header_refusals(s: Seq<u8>)
    ensures
        s.len() == 0 ==> header_at_front(s) == Err::<(ImageHeader, nat), ProtocolError>(
            ProtocolError::UnexpectedEof,
        ),
        s.len() > 0 ==> match varint_at_front(s.skip(1)) {
            Err(e) => header_at_front(s) == Err::<(ImageHeader, nat), ProtocolError>(e),
            Ok((length, n)) => if s.len() < 9 + n {
                header_at_front(s) == Err::<(ImageHeader, nat), ProtocolError>(
                    ProtocolError::UnexpectedEof,
                )
            } else {
                match image_flags_check(s[0]) {
                    Err(e) => header_at_front(s) == Err::<(ImageHeader, nat), ProtocolError>(e),
                    Ok(_) => header_at_front(s) matches Ok((h, m)) && h.flags == s[0] && h.length
                        == length && m == 9 + n,
                }
            },
        },
        header_at_front(s) matches Ok((h, n)) ==> (packet_at_front(s) is Ok <==> s.len() >= n
            + h.length),
        header_at_front(s) matches Err(e) ==> packet_at_front(s) == Err::<
            ((ImageHeader, Seq<u8>), nat),
            ProtocolError,
        >(e),
        packet_at_front(s) matches Ok(((h, raw), m)) ==> {
            &&& header_at_front(s) matches Ok((g, n)) && g == h && m == n + h.length
            &&& raw == s.subrange(m - h.length, m as int)
        },
{
    if s.len() > 0 {
        law_varint_canonical(s.skip(1));
    }
}

/// Whether a name can be used as it is: it holds no separator and no `..`.
pub open spec fn is_plain_name(name: Seq<char>) -> bool {
    &&& !name.contains('/')
    &&& !name.contains('\\')
    &&& forall|i: int| 0 <= i < name.len() - 1 ==> !(#[trigger] name[i] == '.' && name[i + 1]
        == '.')
}

proof fn lemma_separators_kept(s: Seq<char>)
    requires
        !s.contains('/'),
        !s.contains('\\'),
    ensures
        without_separators(s) == s,
    decreases s.len(),
{
    if s.len() > 0 {
        let front = s.drop_last();
        assert(s.contains(s[s.len() - 1]));
        assert(!front.contains('/')) by {
            if front.contains('/') {
                let i = choose|i: int| 0 <= i < front.len() && front[i] == '/';
                assert(s[i] == '/');
            }
        }
        assert(!front.contains('\\')) by {
            if front.contains('\\') {
                let i = choose|i: int| 0 <= i < front.len() && front[i] == '\\';
                assert(s[i] == '\\');
            }
        }
        lemma_separators_kept(front);
        assert(front.push(s.last()) =~= s);
    }
}

proof fn lemma_parents_kept(s: Seq<char>)
    requires
        forall|i: int| 0 <= i < s.len() - 1 ==> !(#[trigger] s[i] == '.' && s[i + 1] == '.'),
    ensures
        without_parents(s) == s,
    decreases s.len(),
{
    if s.len() >= 2 {
        let t = s.skip(1);
        assert(!(s[0] == '.' && s[1] == '.'));
        assert forall|i: int| 0 <= i < t.len() - 1 implies !(#[trigger] t[i] == '.' && t[i + 1]
            == '.') by {
            assert(t[i] == s[i + 1] && t[i + 1] == s[i + 2]);
        }
        lemma_parents_kept(t);
        assert(seq![s[0]] + t =~= s);
    }
}

/// Cleaning a name takes out each separator and each `..`, and nothing else: a
/// name without any stays as it is, and what surrounds them is kept.
pub proof fn law_cleaning_takes_out_no_more(a: Seq<char>, b: Seq<char>)
    ensures
        is_plain_name(a) ==> without_separators(a) == a && without_parents(a) == a,
        without_separators(a + b) == without_separators(a) + without_separators(b),
        without_separators(seq!['/']) == Seq::<char>::empty(),
        without_separators(seq!['\\']) == Seq::<char>::empty(),
        is_plain_name(a) && (a.len() == 0 || a.last() != '.') ==> without_parents(
            a + seq!['.', '.'] + b,
        ) == a + without_parents(b),
    decreases a.len() + b.len(),
{
    if is_plain_name(a) {
        lemma_separators_kept(a);
        lemma_parents_kept(a);
        if a.len() == 0 || a.last() != '.' {
            lemma_parent_cut(a, b);
        }
    }
    reveal_with_fuel(without_separators, 2);
    assert(seq!['/'].drop_last() =~= Seq::<char>::empty());
    assert(seq!['\\'].drop_last() =~= Seq::<char>::empty());
    if b.len() == 0 {
        assert(a + b =~= a);
        assert(without_separators(a) + without_separators(b) =~= without_separators(a));
    } else {
        lemma_separators_concat(a, b);
    }
}

proof fn lemma_separators_concat(a: Seq<char>, b: Seq<char>)
    ensures
        without_separators(a + b) == without_separators(a) + without_separators(b),
    decreases b.len(),
{
    if b.len() == 0 {
        assert(a + b =~= a);
        assert(without_separators(a) + without_separators(b) =~= without_separators(a));
    } else {
        lemma_separators_concat(a, b.drop_last());
        assert((a + b).drop_last() =~= a + b.drop_last());
        assert(without_separators(a + b) =~= without_separators(a) + without_separators(b));
    }
}

proof fn lemma_parent_cut(a: Seq<char>, b: Seq<char>)
    requires
        is_plain_name(a),
        a.len() == 0 || a.last() != '.',
    ensures
        without_parents(a + seq!['.', '.'] + b) == a + without_parents(b),
    decreases a.len(),
{
    let s = a + seq!['.', '.'] + b;
    if a.len() == 0 {
        assert(s.skip(2) =~= b);
        assert(a + without_parents(b) =~= without_parents(b));
    } else {
        let t = a.skip(1);
        assert(is_plain_name(t)) by {
            assert forall|i: int| 0 <= i < t.len() implies t[i] != '/' && t[i] != '\\' by {
                assert(t[i] == a[i + 1]);
                assert(a.contains(a[i + 1]));
            }
            assert forall|i: int| 0 <= i < t.len() - 1 implies !(#[trigger] t[i] == '.' && t[i + 1]
                == '.') by {
                assert(t[i] == a[i + 1] && t[i + 1] == a[i + 2]);
            }
        }
        if t.len() > 0 {
            assert(t.last() == a.last());
            assert(!(a[0] == '.' && a[1] == '.'));
            assert(s[1] == a[1]);
        }
        assert(s[0] == a[0]);
        assert(s.skip(1) =~= t + seq!['.', '.'] + b);
        lemma_parent_cut(t, b);
        assert(seq![a[0]] + (t + without_parents(b)) =~= a + without_parents(b));
    }
}

/// The extension for a file type: that of its format, or `bin`.
pub open spec fn stored_extension(file_type: u8) -> Seq<char> {
    if file_type == 0 {
        seq!['p', 'n', 'g']
    } else if file_type == 1 {
        seq!['j', 'p', 'g']
    } else if file_type == 2 {
        seq!['w', 'e', 'b', 'p']
    } else if file_type == 3 {
        seq!['b', 'm', 'p']
    } else if file_type == 4 {
        seq!['g', 'i', 'f']
    } else if file_type == 5 {
        seq!['p', 'd', 'f']
    } else {
        seq!['b', 'i', 'n']
    }
}

proof fn lemma_stored_extension(file_type: u8)
    ensures
        stored_extension(file_type) == (match type_extension(file_type) {
            Some(ext) => ext,
            None => "bin"@,
        }),
{
    reveal_strlit("png");
    reveal_strlit("jpg");
    reveal_strlit("webp");
    reveal_strlit("bmp");
    reveal_strlit("gif");
    reveal_strlit("pdf");
    reveal_strlit("bin");
    assert("png"@ =~= seq!['p', 'n', 'g']);
    assert("jpg"@ =~= seq!['j', 'p', 'g']);
    assert("webp"@ =~= seq!['w', 'e', 'b', 'p']);
    assert("bmp"@ =~= seq!['b', 'm', 'p']);
    assert("gif"@ =~= seq!['g', 'i', 'f']);
    assert("pdf"@ =~= seq!['p', 'd', 'f']);
    assert("bin"@ =~= seq!['b', 'i', 'n']);
}

/// A received image that is listed is stored under the trimmed NFC base name
/// of its entry, unchanged, if that name is not empty, not `.`, and holds
/// neither a separator nor `..`; one without a dot gets the extension of its
/// listed type.
pub proof fn law_output_name_is_the_listed_name(h: ImageHeader, listed: Map<ImageId, ListedImage>)
    requires
        listed.dom().contains(h.id),
        ({
            let name = trimmed(nfc_form(name_of(listed[h.id].filename@)));
            name.len() > 0 && name != seq!['.'] && is_plain_name(name)
        }),
    ensures
        ({
            let name = trimmed(nfc_form(name_of(listed[h.id].filename@)));
            &&& name.contains('.') ==> output_name(h, listed) == name
            &&& !name.contains('.') ==> output_name(h, listed) == name + seq!['.']
                + stored_extension(listed[h.id].flags % 8)
        }),
{
    let name = trimmed(nfc_form(name_of(listed[h.id].filename@)));
    lemma_separators_kept(name);
    lemma_parents_kept(name);
    lemma_stored_extension(listed[h.id].flags % 8);
}

/// A received image is stored under a name made of its ImageID exactly if it is
/// not listed, or nothing is left of its listed name once separators and `..`
/// are taken out, or just a dot. Otherwise it is stored under what is left, to
/// which only the extension of its type may be added.
pub proof fn law_output_name_from_the_id(h: ImageHeader, listed: Map<ImageId, ListedImage>)
    ensures
        ({
            let known = listed.dom().contains(h.id);
            let left = without_parents(
                without_separators(trimmed(nfc_form(name_of(listed[h.id].filename@)))),
            );
            let flags = if known {
                listed[h.id].flags
            } else {
                h.flags
            };
            let ext = stored_extension(flags % 8);
            let made = seq!['o', 'u', 't', 'p', 'u', 't', '_'] + hex_text(u64_bytes(h.id)) + seq!['.']
                + ext;
            &&& !known || left.len() == 0 || left == seq!['.'] ==> output_name(h, listed) == made
            &&& known && left.len() > 0 && left != seq!['.'] ==> output_name(h, listed) == if left.contains(
                '.',
            ) {
                left
            } else {
                left + seq!['.'] + ext
            }
        }),
{
    let flags = if listed.dom().contains(h.id) {
        listed[h.id].flags
    } else {
        h.flags
    };
    lemma_stored_extension(flags % 8);
    reveal_strlit("output_");
    assert("output_"@ =~= seq!['o', 'u', 't', 'p', 'u', 't', '_']);
}

} // verus!
