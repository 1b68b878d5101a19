//! ImageIDs: the xxHash64 of an image's bytes, and their text form.

use crate::bytes::{law_u64_round_trip, u64_bytes, write_u64};
use vstd::prelude::*;

verus! {

/// Identifies an image by its content.
pub type ImageId = u64;

/// Bytes that an ImageID takes on the wire.
pub const IMAGE_ID_LEN_BYTES: usize = 8;

/// The hash seed of every ImageID.
pub const IMAGE_ID_SEED: u64 = 0;

/// Characters that an ImageID takes as text.
pub const IMAGE_ID_HEX_LEN: usize = 16;

/// The value that `xxhash_rust::xxh64::xxh64` returns for these bytes and
/// this seed.
pub uninterp spec fn xxh64_value(bytes: Seq<u8>, seed: u64) -> u64;

/// `xxhash_rust::xxh64::xxh64`, a hash that depends on the bytes and the seed
/// alone.
#[verifier::external_body]
fn xxh64(bytes: &[u8], seed: u64) -> (h: u64)
    ensures
        h == xxh64_value(bytes@, seed),
{
    xxhash_rust::xxh64::xxh64(bytes, seed)
}

/// The ImageID of an image with this content.
pub open spec fn id_of(bytes: Seq<u8>) -> ImageId {
    xxh64_value(bytes, IMAGE_ID_SEED)
}

/// Computes the ImageID of an image.
pub fn compute_image_id(bytes: &[u8]) -> (id: ImageId)
    ensures
        id == id_of(bytes@),
{
    xxh64(bytes, IMAGE_ID_SEED)
}

/// The lowercase hexadecimal digit of `n`, as an ASCII code.
pub open spec fn hex_digit(n: int) -> u8 {
    if n < 10 {
        (48 + n) as u8
    } else {
        (87 + n) as u8
    }
}

/// Two lowercase hexadecimal digits for each byte, high half first.
pub open spec fn hex_ascii(bytes: Seq<u8>) -> Seq<u8> {
    Seq::new(
        2 * bytes.len(),
        |i: int|
            if i % 2 == 0 {
                hex_digit(bytes[i / 2] as int / 16)
            } else {
                hex_digit(bytes[i / 2] as int % 16)
            },
    )
}

/// `hex_ascii` as characters.
pub open spec fn hex_text(bytes: Seq<u8>) -> Seq<char> {
    hex_ascii(bytes).map_values(|b: u8| b as char)
}

/// `hex::encode`: a string of two lowercase hexadecimal digits for each byte
/// of `bytes`.
#[verifier::external_body]
fn hex_encode(bytes: &[u8]) -> (text: String)
    ensures
        text@ == hex_text(bytes@),
{
    hex::encode(bytes)
}

/// The text form of an ImageID: its big-endian bytes in hexadecimal.
pub fn image_id_text(id: ImageId) -> (text: String)
    ensures
        text@ == hex_text(u64_bytes(id)),
{
    let mut raw: Vec<u8> = Vec::new();
    write_u64(&mut raw, id);
    proof {
        assert(raw@ =~= u64_bytes(id));
    }
    hex_encode(&raw)
}

/// The length of what `image_id_hex` returns.
pub fn image_id_hex_len() -> (n: usize)
    ensures
        n == IMAGE_ID_HEX_LEN,
{
    IMAGE_ID_HEX_LEN
}

fn hex_digit_of(n: u8) -> (d: u8)
    requires
        n < 16,
    ensures
        d == hex_digit(n as int),
{
    if n < 10 {
        48 + n
    } else {
        87 + n
    }
}

/// Writes the hexadecimal digits of `bytes`, at most eight of them, to the
/// front of `out`. The rest of `out` stays as it was.
pub fn hex_encode_8(bytes: &[u8], out: &mut [u8; 16])
    requires
        bytes@.len() <= 8,
    ensures
        final(out)@ == hex_ascii(bytes@) + old(out)@.skip(2 * bytes@.len() as int),
{
    let mut i: usize = 0;
    while i < bytes.len()
        invariant
            i <= bytes@.len() <= 8,
            out@ =~= hex_ascii(bytes@.take(i as int)) + old(out)@.skip(2 * i),
        decreases bytes@.len() - i,
    {
        let b: u8 = bytes[i];
        out[i * 2] = hex_digit_of(b / 16);
        out[i * 2 + 1] = hex_digit_of(b % 16);
        proof {
            let done = hex_ascii(bytes@.take(i + 1));
            let whole = done + old(out)@.skip(2 * i + 2);
            assert forall|j: int| 0 <= j < 16 implies out@[j] == whole[j] by {
                if j < 2 * i {
                    assert(done[j] == hex_ascii(bytes@.take(i as int))[j]);
                }
            }
        }
        i = i + 1;
    }
    proof {
        assert(bytes@.take(bytes@.len() as int) =~= bytes@);
    }
}

/// The ImageID of `input` as sixteen ASCII characters.
pub fn image_id_hex(input: &[u8]) -> (out: [u8; 16])
    ensures
        out@ == hex_ascii(u64_bytes(id_of(input@))),
{
    let id: u64 = xxh64(input, IMAGE_ID_SEED);
    let mut raw: Vec<u8> = Vec::new();
    write_u64(&mut raw, id);
    let mut out: [u8; 16] = [0u8; 16];
    proof {
        assert(raw@ =~= u64_bytes(id));
        law_u64_round_trip(id, Seq::empty());
    }
    hex_encode_8(&raw, &mut out);
    proof {
        assert(out@ =~= hex_ascii(u64_bytes(id)));
    }
    out
}

proof fn lemma_hex_injective(a: Seq<u8>, b: Seq<u8>)
    requires
        hex_ascii(a) == hex_ascii(b),
    ensures
        a == b,
{
    assert(hex_ascii(a).len() == 2 * a.len());
    assert(hex_ascii(b).len() == 2 * b.len());
    assert forall|i: int| 0 <= i < a.len() implies a[i] == b[i] by {
        assert((2 * i) / 2 == i && (2 * i) % 2 == 0 && (2 * i + 1) / 2 == i && (2 * i + 1) % 2 == 1);
        assert(hex_ascii(a)[2 * i] == hex_digit(a[i] as int / 16));
        assert(hex_ascii(b)[2 * i] == hex_digit(b[i] as int / 16));
        assert(hex_ascii(a)[2 * i + 1] == hex_digit(a[i] as int % 16));
        assert(hex_ascii(b)[2 * i + 1] == hex_digit(b[i] as int % 16));
    }
    assert(a =~= b);
}

/// An ImageID's text form is sixteen characters long and differs for
/// different ImageIDs.
pub proof fn law_id_text(a: ImageId, b: ImageId)
    ensures
        hex_text(u64_bytes(a)).len() == IMAGE_ID_HEX_LEN,
        hex_text(u64_bytes(a)) == hex_text(u64_bytes(b)) ==> a == b,
{
    law_u64_round_trip(a, Seq::empty());
    law_u64_round_trip(b, Seq::empty());
    if hex_text(u64_bytes(a)) == hex_text(u64_bytes(b)) {
        let x = hex_ascii(u64_bytes(a));
        let y = hex_ascii(u64_bytes(b));
        assert forall|i: int| 0 <= i < x.len() implies x[i] == y[i] by {
            assert(hex_text(u64_bytes(a))[i] == hex_text(u64_bytes(b))[i]);
        }
        assert(x =~= y);
        lemma_hex_injective(u64_bytes(a), u64_bytes(b));
        assert(u64_bytes(a) + Seq::<u8>::empty() =~= u64_bytes(b) + Seq::<u8>::empty());
    }
}

/// The ImageID of an image is the xxHash64 of all of its bytes, with seed 0.
pub proof fn law_image_id_is_xxhash64(bytes: Seq<u8>)
    ensures
        id_of(bytes) == xxh64_value(bytes, 0),
{
}

/// The value of a lowercase hexadecimal digit.
pub open spec fn hex_value(c: char) -> int {
    if '0' <= c <= '9' {
        c as u32 - '0' as u32
    } else {
        c as u32 - 'a' as u32 + 10
    }
}

/// Hexadecimal text has two characters for each byte, from `0` to `9` and `a`
/// to `f`, and read in base sixteen, high half first, they give the byte.
pub proof fn law_hex_text(bytes: Seq<u8>)
    ensures
        hex_text(bytes).len() == 2 * bytes.len(),
        hex_ascii(bytes).len() == 2 * bytes.len(),
        forall|i: int|
            0 <= i < 2 * bytes.len() ==> {
                let c = #[trigger] hex_text(bytes)[i];
                &&& '0' <= c <= '9' || 'a' <= c <= 'f'
                &&& hex_ascii(bytes)[i] as char == c
            },
        forall|i: int|
            0 <= i < bytes.len() ==> #[trigger] bytes[i] as int == 16 * hex_value(
                hex_text(bytes)[2 * i],
            ) + hex_value(hex_text(bytes)[2 * i + 1]),
{
    assert forall|i: int| 0 <= i < 2 * bytes.len() implies {
        let c = #[trigger] hex_text(bytes)[i];
        &&& '0' <= c <= '9' || 'a' <= c <= 'f'
        &&& hex_ascii(bytes)[i] as char == c
    } by {
        let d = hex_ascii(bytes)[i];
        assert(48 <= d <= 57 || 97 <= d <= 102);
        assert(hex_text(bytes)[i] == d as char);
    }
    assert forall|i: int| 0 <= i < bytes.len() implies #[trigger] bytes[i] as int == 16 * hex_value(
        hex_text(bytes)[2 * i],
    ) + hex_value(hex_text(bytes)[2 * i + 1]) by {
        assert((2 * i) / 2 == i && (2 * i) % 2 == 0 && (2 * i + 1) / 2 == i && (2 * i + 1) % 2 == 1);
        let hi = bytes[i] as int / 16;
        let lo = bytes[i] as int % 16;
        assert(hex_text(bytes)[2 * i] == hex_digit(hi) as char);
        assert(hex_text(bytes)[2 * i + 1] == hex_digit(lo) as char);
        assert(hex_value(hex_digit(hi) as char) == hi);
        assert(hex_value(hex_digit(lo) as char) == lo);
    }
}

} // verus!
