//! Byte sequences: appending to a buffer and fixed-width big-endian integers.

use crate::error::ProtocolError;
use vstd::prelude::*;

verus! {

/// The number that `s` denotes when read as big-endian digits of base 256.
pub open spec fn number_of(s: Seq<u8>) -> nat
    decreases s.len(),
{
    if s.len() == 0 {
        0
    } else {
        256 * number_of(s.drop_last()) + s.last() as nat
    }
}

/// The last `width` base-256 digits of `v`, most significant first.
pub open spec fn digits_of(v: nat, width: nat) -> Seq<u8>
    decreases width,
{
    if width == 0 {
        Seq::empty()
    } else {
        digits_of(v / 256, (width - 1) as nat).push((v % 256) as u8)
    }
}

/// `u16` on the wire: two bytes, big-endian.
pub open spec fn u16_bytes(v: u16) -> Seq<u8> {
    digits_of(v as nat, 2)
}

/// `u64` on the wire: eight bytes, big-endian.
pub open spec fn u64_bytes(v: u64) -> Seq<u8> {
    digits_of(v as nat, 8)
}

/// The `u16` at the start of `s`.
pub open spec fn u16_at_front(s: Seq<u8>) -> Result<u16, ProtocolError> {
    if s.len() < 2 {
        Err(ProtocolError::UnexpectedEof)
    } else {
        Ok(number_of(s.take(2)) as u16)
    }
}

/// The `u64` at the start of `s`.
pub open spec fn u64_at_front(s: Seq<u8>) -> Result<u64, ProtocolError> {
    if s.len() < 8 {
        Err(ProtocolError::UnexpectedEof)
    } else {
        Ok(number_of(s.take(8)) as u64)
    }
}

/// 256 to the power of `n`.
pub open spec fn radix_power(n: nat) -> nat
    decreases n,
{
    if n == 0 {
        1
    } else {
        256 * radix_power((n - 1) as nat)
    }
}

proof fn lemma_number_bound(s: Seq<u8>)
    ensures
        number_of(s) < radix_power(s.len()),
    decreases s.len(),
{
    if s.len() > 0 {
        lemma_number_bound(s.drop_last());
    }
}

proof fn lemma_powers()
    ensures
        radix_power(2) == 0x1_0000,
        radix_power(8) == 0x1_0000_0000_0000_0000,
{
    reveal_with_fuel(radix_power, 9);
}

proof fn lemma_digits_len(v: nat, width: nat)
    ensures
        digits_of(v, width).len() == width,
    decreases width,
{
    if width > 0 {
        lemma_digits_len(v / 256, (width - 1) as nat);
    }
}

proof fn lemma_number_of_digits(v: nat, width: nat)
    requires
        v < radix_power(width),
    ensures
        number_of(digits_of(v, width)) == v,
    decreases width,
{
    if width > 0 {
        let head = digits_of(v / 256, (width - 1) as nat);
        assert(v / 256 < radix_power((width - 1) as nat));
        lemma_number_of_digits(v / 256, (width - 1) as nat);
        assert(digits_of(v, width).drop_last() =~= head);
    }
}

proof fn lemma_digits_of_number(s: Seq<u8>)
    ensures
        digits_of(number_of(s), s.len()) == s,
    decreases s.len(),
{
    if s.len() > 0 {
        lemma_digits_of_number(s.drop_last());
        let n = number_of(s.drop_last());
        assert((256 * n + s.last() as nat) / 256 == n);
        assert((256 * n + s.last() as nat) % 256 == s.last() as nat);
        assert(s.drop_last().push(s.last()) =~= s);
    }
}

/// A `u16` read back from the bytes it was written as is the same number, and
/// no other two bytes are read as that number.
pub proof fn law_u16_round_trip(v: u16, rest: Seq<u8>)
    ensures
        u16_bytes(v).len() == 2,
        u16_at_front(u16_bytes(v) + rest) == Ok::<u16, ProtocolError>(v),
        forall|s: Seq<u8>| s.len() == 2 && u16_at_front(s) == Ok::<u16, ProtocolError>(v)
            ==> s == u16_bytes(v),
{
    lemma_digits_len(v as nat, 2);
    lemma_powers();
    lemma_number_of_digits(v as nat, 2);
    assert((u16_bytes(v) + rest).take(2) =~= u16_bytes(v));
    assert forall|s: Seq<u8>|
        s.len() == 2 && u16_at_front(s) == Ok::<u16, ProtocolError>(v) implies s == u16_bytes(v) by {
        assert(s.take(2) =~= s);
        lemma_number_bound(s);
        lemma_digits_of_number(s);
    }
}

/// A `u64` read back from the bytes it was written as is the same number, and
/// no other eight bytes are read as that number.
pub proof fn law_u64_round_trip(v: u64, rest: Seq<u8>)
    ensures
        u64_bytes(v).len() == 8,
        u64_at_front(u64_bytes(v) + rest) == Ok::<u64, ProtocolError>(v),
        forall|s: Seq<u8>| s.len() == 8 && u64_at_front(s) == Ok::<u64, ProtocolError>(v)
            ==> s == u64_bytes(v),
{
    lemma_digits_len(v as nat, 8);
    lemma_powers();
    lemma_number_of_digits(v as nat, 8);
    assert((u64_bytes(v) + rest).take(8) =~= u64_bytes(v));
    assert forall|s: Seq<u8>|
        s.len() == 8 && u64_at_front(s) == Ok::<u64, ProtocolError>(v) implies s == u64_bytes(v) by {
        assert(s.take(8) =~= s);
        lemma_number_bound(s);
        lemma_digits_of_number(s);
    }
}

/// Appends `tail` to `out`.
pub fn append_bytes(out: &mut Vec<u8>, tail: &[u8])
    ensures
        final(out)@ == old(out)@ + tail@,
{
    out.extend_from_slice(tail);
    proof {
        assert(out@ =~= old(out)@ + tail@);
    }
}

/// A copy of the first `n` bytes of `s`.
pub fn copy_front(s: &[u8], n: usize) -> (r: Vec<u8>)
    requires
        n <= s@.len(),
    ensures
        r@ == s@.take(n as int),
{
    let mut r: Vec<u8> = Vec::new();
    append_bytes(&mut r, &s[0..n]);
    proof {
        assert(r@ =~= s@.take(n as int));
    }
    r
}

/// `s` without its first `n` bytes.
pub fn skip_front(s: &[u8], n: usize) -> (r: &[u8])
    requires
        n <= s@.len(),
    ensures
        r@ == s@.skip(n as int),
{
    let r = &s[n..s.len()];
    proof {
        assert(r@ =~= s@.skip(n as int));
    }
    r
}

/// Whether `s` starts with the four bytes of `magic`.
pub fn starts_with_magic(s: &[u8], magic: [u8; 4]) -> (r: bool)
    requires
        s@.len() >= 4,
    ensures
        r == (s@.take(4) == magic@),
{
    let r = s[0] == magic[0] && s[1] == magic[1] && s[2] == magic[2] && s[3] == magic[3];
    proof {
        if r {
            assert(s@.take(4) =~= magic@);
        } else {
            assert(s@.take(4)[0] == s@[0] && s@.take(4)[1] == s@[1] && s@.take(4)[2] == s@[2]
                && s@.take(4)[3] == s@[3]);
        }
    }
    r
}

fn push_digits(out: &mut Vec<u8>, v: u64, width: usize)
    ensures
        final(out)@ == old(out)@ + digits_of(v as nat, width as nat),
    decreases width,
{
    if width > 0 {
        push_digits(out, v / 256, width - 1);
        out.push((v % 256) as u8);
    }
    proof {
        assert(out@ =~= old(out)@ + digits_of(v as nat, width as nat));
    }
}

/// Appends `v` as two big-endian bytes.
pub fn write_u16(out: &mut Vec<u8>, v: u16)
    ensures
        final(out)@ == old(out)@ + u16_bytes(v),
{
    push_digits(out, v as u64, 2);
}

/// Appends `v` as eight big-endian bytes.
pub fn write_u64(out: &mut Vec<u8>, v: u64)
    ensures
        final(out)@ == old(out)@ + u64_bytes(v),
{
    push_digits(out, v, 8);
}

/// Reads the `u16` at the start of `input`.
pub fn read_u16(input: &[u8]) -> (r: Result<u16, ProtocolError>)
    ensures
        r == u16_at_front(input@),
{
    if input.len() < 2 {
        return Err(ProtocolError::UnexpectedEof);
    }
    let v: u16 = input[0] as u16 * 256 + input[1] as u16;
    proof {
        let s = input@.take(2);
        reveal_with_fuel(number_of, 3);
        assert(s.drop_last().last() == input@[0]);
        assert(s.last() == input@[1]);
    }
    Ok(v)
}

/// Reads the `u64` at the start of `input`.
pub fn read_u64(input: &[u8]) -> (r: Result<u64, ProtocolError>)
    ensures
        r == u64_at_front(input@),
{
    if input.len() < 8 {
        return Err(ProtocolError::UnexpectedEof);
    }
    let mut v: u64 = 0;
    let mut i: usize = 0;
    while i < 8
        invariant
            i <= 8,
            input@.len() >= 8,
            v == number_of(input@.take(i as int)),
        decreases 8 - i,
    {
        proof {
            lemma_number_bound(input@.take(i + 1));
            assert(input@.take(i + 1).drop_last() =~= input@.take(i as int));
            lemma_radix_monotone((i + 1) as nat, 8);
            lemma_powers();
        }
        v = v * 256 + input[i] as u64;
        i = i + 1;
    }
    Ok(v)
}

proof fn lemma_radix_monotone(a: nat, b: nat)
    requires
        a <= b,
    ensures
        radix_power(a) <= radix_power(b),
    decreases b,
{
    if a < b {
        lemma_radix_monotone(a, (b - 1) as nat);
    }
}

/// Integers are written most significant byte first.
pub proof fn law_big_endian(a: u16, b: u64)
    ensures
        u16_bytes(a) == seq![(a / 256) as u8, (a % 256) as u8],
        u64_bytes(b) == seq![
            (b / 0x100_0000_0000_0000) as u8,
            (b / 0x1_0000_0000_0000 % 256) as u8,
            (b / 0x100_0000_0000 % 256) as u8,
            (b / 0x1_0000_0000 % 256) as u8,
            (b / 0x100_0000 % 256) as u8,
            (b / 0x1_0000 % 256) as u8,
            (b / 0x100 % 256) as u8,
            (b % 256) as u8,
        ],
{
    reveal_with_fuel(digits_of, 9);
    assert(u16_bytes(a) =~= seq![(a / 256) as u8, (a % 256) as u8]);
    assert(u64_bytes(b) =~= seq![
        (b / 0x100_0000_0000_0000) as u8,
        (b / 0x1_0000_0000_0000 % 256) as u8,
        (b / 0x100_0000_0000 % 256) as u8,
        (b / 0x1_0000_0000 % 256) as u8,
        (b / 0x100_0000 % 256) as u8,
        (b / 0x1_0000 % 256) as u8,
        (b / 0x100 % 256) as u8,
        (b % 256) as u8,
    ]);
}

/// Too few bytes are read as no integer, and enough always as one.
pub proof fn law_integers_wait(s: Seq<u8>)
    ensures
        s.len() < 2 <==> u16_at_front(s) == Err::<u16, ProtocolError>(ProtocolError::UnexpectedEof),
        s.len() >= 2 <==> u16_at_front(s) is Ok,
        s.len() < 8 <==> u64_at_front(s) == Err::<u64, ProtocolError>(ProtocolError::UnexpectedEof),
        s.len() >= 8 <==> u64_at_front(s) is Ok,
{
}

} // verus!
