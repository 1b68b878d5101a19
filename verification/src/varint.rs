//! `varint(u32)`: unsigned LEB128 in its canonical form, one to five bytes.

use crate::error::ProtocolError;
use vstd::prelude::*;

verus! {

/// The canonical encoding of `v`: seven bits per byte, least significant
/// group first, the high bit set on every byte but the last.
pub open spec fn varint_bytes(v: nat) -> Seq<u8>
    decreases v,
{
    if v < 128 {
        seq![v as u8]
    } else {
        seq![(128 + v % 128) as u8] + varint_bytes(v / 128)
    }
}

/// How many bytes at the start of `s`, at most `limit`, have the continuation
/// bit set.
pub open spec fn continued(s: Seq<u8>, limit: nat) -> nat
    decreases limit,
{
    if limit == 0 || s.len() == 0 || s[0] < 128 {
        0
    } else {
        1 + continued(s.skip(1), (limit - 1) as nat)
    }
}

/// The value of a run of seven-bit groups, least significant first.
pub open spec fn groups_value(s: Seq<u8>) -> nat
    decreases s.len(),
{
    if s.len() == 0 {
        0
    } else {
        s[0] as nat % 128 + 128 * groups_value(s.skip(1))
    }
}

/// The varint at the start of `s` and the number of bytes it takes.
///
/// Refused are encodings of more than five bytes, values above `u32::MAX`,
/// and encodings that end in a zero group although they have more than one.
pub open spec fn varint_at_front(s: Seq<u8>) -> Result<(u32, nat), ProtocolError> {
    let k = continued(s, 5) as int;
    if k == 5 {
        Err(ProtocolError::VarintTooLong)
    } else if s.len() == k {
        Err(ProtocolError::UnexpectedEof)
    } else if groups_value(s.take(k + 1)) > u32::MAX {
        Err(ProtocolError::VarintOverflow)
    } else if k > 0 && s[k] == 0 {
        Err(ProtocolError::VarintNotCanonical)
    } else {
        Ok((groups_value(s.take(k + 1)) as u32, (k + 1) as nat))
    }
}

/// 128 to the power of `n`.
spec fn group_power(n: nat) -> nat
    decreases n,
{
    if n == 0 {
        1
    } else {
        128 * group_power((n - 1) as nat)
    }
}

proof fn lemma_group_powers()
    ensures
        group_power(0) == 1,
        group_power(1) == 0x80,
        group_power(2) == 0x4000,
        group_power(3) == 0x20_0000,
        group_power(4) == 0x1000_0000,
        group_power(5) == 0x8_0000_0000,
{
    reveal_with_fuel(group_power, 6);
}

/// `s` is one varint: every byte but the last continues.
spec fn one_varint(s: Seq<u8>) -> bool {
    &&& s.len() > 0
    &&& s.last() < 128
    &&& forall|j: int| 0 <= j < s.len() - 1 ==> s[j] >= 128
}

proof fn lemma_continued_is(s: Seq<u8>, limit: nat, i: nat)
    requires
        i <= limit,
        i <= s.len(),
        forall|j: int| 0 <= j < i ==> s[j] >= 128,
        i == limit || i == s.len() || s[i as int] < 128,
    ensures
        continued(s, limit) == i,
    decreases i,
{
    if i > 0 {
        assert forall|j: int| 0 <= j < i - 1 implies s.skip(1)[j] >= 128 by {
            assert(s.skip(1)[j] == s[j + 1]);
        }
        lemma_continued_is(s.skip(1), (limit - 1) as nat, (i - 1) as nat);
    }
}

proof fn lemma_continued(s: Seq<u8>, limit: nat)
    ensures
        ({
            let k = continued(s, limit);
            &&& k <= limit
            &&& k <= s.len()
            &&& forall|j: int| 0 <= j < k ==> s[j] >= 128
            &&& k == limit || k == s.len() || s[k as int] < 128
        }),
    decreases limit,
{
    if limit == 0 || s.len() == 0 || s[0] < 128 {
    } else {
        lemma_continued(s.skip(1), (limit - 1) as nat);
        let k = continued(s, limit);
        assert forall|j: int| 0 <= j < k implies s[j] >= 128 by {
            if j > 0 {
                assert(s[j] == s.skip(1)[j - 1]);
            }
        }
    }
}

proof fn lemma_groups_append(s: Seq<u8>, b: u8)
    ensures
        groups_value(s.push(b)) == groups_value(s) + group_power(s.len()) * (b as nat % 128),
    decreases s.len(),
{
    reveal_with_fuel(groups_value, 2);
    if s.len() == 0 {
        assert(s.push(b).skip(1) =~= Seq::<u8>::empty());
        let one = group_power(s.len());
        assert(one * (b as nat % 128) == b as nat % 128) by (nonlinear_arith)
            requires
                one == 1,
        ;
    } else {
        lemma_groups_append(s.skip(1), b);
        assert(s.push(b).skip(1) =~= s.skip(1).push(b));
        let p = group_power((s.len() - 1) as nat);
        let c = b as nat % 128;
        assert(128 * (p * c) == (128 * p) * c) by (nonlinear_arith);
    }
}

proof fn lemma_groups_bound(s: Seq<u8>)
    ensures
        groups_value(s) < group_power(s.len()),
    decreases s.len(),
{
    if s.len() > 0 {
        lemma_groups_bound(s.skip(1));
    }
}

proof fn lemma_encoding(v: nat)
    ensures
        one_varint(varint_bytes(v)),
        groups_value(varint_bytes(v)) == v,
        varint_bytes(v).len() > 1 ==> varint_bytes(v).last() > 0,
        forall|n: nat| v < #[trigger] group_power(n) && n > 0 ==> varint_bytes(v).len() <= n,
    decreases v,
{
    reveal_with_fuel(groups_value, 2);
    let b = varint_bytes(v);
    if v < 128 {
        assert(b.skip(1) =~= Seq::<u8>::empty());
    } else {
        let tail = varint_bytes(v / 128);
        lemma_encoding(v / 128);
        assert(b.skip(1) =~= tail);
        assert forall|j: int| 0 <= j < b.len() - 1 implies b[j] >= 128 by {
            if j > 0 {
                assert(b[j] == tail[j - 1]);
            }
        }
        assert forall|n: nat| v < #[trigger] group_power(n) && n > 0 implies b.len() <= n by {
            let m = (n - 1) as nat;
            assert(v / 128 < group_power(m));
            assert(m > 0) by {
                lemma_group_powers();
            }
        }
    }
}

proof fn lemma_encoding_is_unique(s: Seq<u8>)
    requires
        one_varint(s),
        s.len() > 1 ==> s.last() > 0,
    ensures
        varint_bytes(groups_value(s)) == s,
        s.len() > 1 ==> groups_value(s) >= 128,
        s.last() > 0 ==> groups_value(s) > 0,
    decreases s.len(),
{
    reveal_with_fuel(groups_value, 2);
    let tail = s.skip(1);
    if s.len() == 1 {
        assert(tail =~= Seq::<u8>::empty());
        assert(s =~= seq![s[0]]);
    } else {
        assert(tail.last() == s.last());
        assert forall|j: int| 0 <= j < tail.len() - 1 implies tail[j] >= 128 by {
            assert(tail[j] == s[j + 1]);
        }
        lemma_encoding_is_unique(tail);
        let v = groups_value(s);
        assert(v / 128 == groups_value(tail));
        assert(v % 128 + 128 == s[0]);
        assert(s =~= seq![s[0]] + tail);
    }
}

/// Reading back a written varint gives the value that was written, takes
/// exactly the bytes that were written, and those are one to five.
pub proof fn law_varint_round_trip(v: u32, rest: Seq<u8>)
    ensures
        1 <= varint_bytes(v as nat).len() <= 5,
        varint_at_front(varint_bytes(v as nat) + rest) == Ok::<(u32, nat), ProtocolError>(
            (v, varint_bytes(v as nat).len()),
        ),
{
    let b = varint_bytes(v as nat);
    let s = b + rest;
    lemma_encoding(v as nat);
    lemma_group_powers();
    let k = (b.len() - 1) as nat;
    assert forall|j: int| 0 <= j < k implies s[j] >= 128 by {
        assert(s[j] == b[j]);
    }
    assert(s[k as int] == b.last());
    lemma_continued_is(s, 5, k);
    assert(s.take(k as int + 1) =~= b);
}

/// A varint takes one byte for each seven bits of its value, begun or full.
pub proof fn law_varint_length(v: u32)
    ensures
        varint_bytes(v as nat).len() == if v < 0x80 {
            1int
        } else if v < 0x4000 {
            2
        } else if v < 0x20_0000 {
            3
        } else if v < 0x1000_0000 {
            4
        } else {
            5
        },
{
    reveal_with_fuel(varint_bytes, 6);
}

/// A varint is accepted in one form only: the bytes that were read are the
/// canonical encoding of the value.
pub proof fn law_varint_canonical(s: Seq<u8>)
    ensures
        varint_at_front(s) matches Ok((v, n)) ==> n <= s.len() && s.take(n as int) == varint_bytes(
            v as nat,
        ),
{
    lemma_continued(s, 5);
    if let Ok((v, n)) = varint_at_front(s) {
        let t = s.take(n as int);
        assert(one_varint(t));
        lemma_encoding_is_unique(t);
    }
}

/// What a varint reads as is settled once it is complete: bytes that follow
/// it change nothing.
pub proof fn law_varint_settled(s: Seq<u8>, more: Seq<u8>)
    requires
        varint_at_front(s) != Err::<(u32, nat), ProtocolError>(ProtocolError::UnexpectedEof),
    ensures
        varint_at_front(s + more) == varint_at_front(s),
{
    lemma_continued(s, 5);
    let k = continued(s, 5);
    let t = s + more;
    assert forall|j: int| 0 <= j < k implies t[j] >= 128 by {
        assert(t[j] == s[j]);
    }
    lemma_continued_is(t, 5, k);
    if k < 5 {
        assert(t[k as int] == s[k as int]);
        assert(t.take(k as int + 1) =~= s.take(k as int + 1));
    }
}

/// Appends `value` as a varint.
pub fn write_varint_u32(out: &mut Vec<u8>, value: u32)
    ensures
        final(out)@ == old(out)@ + varint_bytes(value as nat),
{
    let mut value: u32 = value;
    let ghost whole = varint_bytes(value as nat);
    while value >= 128
        invariant
            old(out)@ + whole == out@ + varint_bytes(value as nat),
        decreases value,
    {
        let ghost before = out@;
        let ghost tail = varint_bytes(value as nat / 128);
        out.push((128 + value % 128) as u8);
        proof {
            assert(before + varint_bytes(value as nat) =~= out@ + tail);
        }
        value = value / 128;
    }
    let ghost before = out@;
    out.push(value as u8);
    proof {
        assert(out@ =~= before + varint_bytes(value as nat));
    }
}

/// Writes `value` as a varint to the front of `buf` and returns how many
/// bytes that took. The rest of `buf` stays as it was.
pub fn encode_varint_to_buf(value: u32, buf: &mut [u8]) -> (n: usize)
    requires
        varint_bytes(value as nat).len() <= old(buf)@.len(),
    ensures
        n == varint_bytes(value as nat).len(),
        final(buf)@ == varint_bytes(value as nat) + old(buf)@.skip(n as int),
{
    let mut value: u32 = value;
    let mut pos: usize = 0;
    let ghost whole = varint_bytes(value as nat);
    while value >= 128
        invariant
            buf@.len() == old(buf)@.len(),
            pos + varint_bytes(value as nat).len() == whole.len(),
            whole.len() <= buf@.len(),
            whole == buf@.take(pos as int) + varint_bytes(value as nat),
            forall|j: int| pos <= j < buf@.len() ==> buf@[j] == old(buf)@[j],
        decreases value,
    {
        let ghost before = buf@;
        let ghost tail = varint_bytes(value as nat / 128);
        proof {
            lemma_encoding(value as nat / 128);
        }
        buf[pos] = (128 + value % 128) as u8;
        proof {
            assert(varint_bytes(value as nat) =~= seq![buf@[pos as int]] + tail);
            assert(buf@.take(pos + 1) + tail =~= before.take(pos as int) + varint_bytes(
                value as nat,
            ));
        }
        pos = pos + 1;
        value = value / 128;
    }
    let ghost before = buf@;
    buf[pos] = value as u8;
    proof {
        assert(whole =~= buf@.take(pos + 1));
        assert(buf@ =~= whole + old(buf)@.skip(pos + 1));
    }
    pos + 1
}

/// Reads the varint at the start of `input`; with it comes the number of
/// bytes it takes.
pub fn read_varint_u32(input: &[u8]) -> (r: Result<(u32, usize), ProtocolError>)
    ensures
        match varint_at_front(input@) {
            Ok((v, n)) => r matches Ok((rv, rn)) && rv == v && rn == n,
            Err(e) => r == Err::<(u32, usize), ProtocolError>(e),
        },
{
    let mut value: u64 = 0;
    let mut scale: u64 = 1;
    let mut i: usize = 0;
    while i < 5
        invariant
            i <= 5,
            i <= input@.len(),
            scale == group_power(i as nat),
            value == groups_value(input@.take(i as int)),
            forall|j: int| 0 <= j < i ==> input@[j] >= 128,
        decreases 5 - i,
    {
        if i >= input.len() {
            proof {
                lemma_continued_is(input@, 5, i as nat);
            }
            return Err(ProtocolError::UnexpectedEof);
        }
        let byte: u8 = input[i];
        let low: u64 = (byte % 128) as u64;
        proof {
            lemma_group_powers();
            lemma_groups_bound(input@.take(i as int));
            assert(input@.take(i + 1) =~= input@.take(i as int).push(byte));
            lemma_groups_append(input@.take(i as int), byte);
            assert(scale * low <= scale * 127) by (nonlinear_arith)
                requires
                    low <= 127,
            ;
        }
        value = value + scale * low;
        if byte < 128 {
            proof {
                lemma_continued_is(input@, 5, i as nat);
            }
            if value > 0xFFFF_FFFF {
                return Err(ProtocolError::VarintOverflow);
            }
            if i > 0 && byte == 0 {
                return Err(ProtocolError::VarintNotCanonical);
            }
            return Ok((value as u32, i + 1));
        }
        scale = scale * 128;
        i = i + 1;
    }
    proof {
        lemma_continued_is(input@, 5, 5);
    }
    Err(ProtocolError::VarintTooLong)
}

/// A varint holds seven bits of the value in each byte, the least significant
/// ones first, and every byte but the last has its high bit set.
pub proof fn law_varint_groups(v: u32)
    ensures
        ({
            let b = varint_bytes(v as nat);
            let n = b.len() as int;
            &&& b[0] as int % 128 == v as int % 0x80
            &&& n > 1 ==> b[1] as int % 128 == v as int / 0x80 % 0x80
            &&& n > 2 ==> b[2] as int % 128 == v as int / 0x4000 % 0x80
            &&& n > 3 ==> b[3] as int % 128 == v as int / 0x20_0000 % 0x80
            &&& n > 4 ==> b[4] as int % 128 == v as int / 0x1000_0000
            &&& b[n - 1] < 128
            &&& forall|i: int| 0 <= i < n - 1 ==> b[i] >= 128
        }),
{
    reveal_with_fuel(varint_bytes, 6);
    lemma_encoding(v as nat);
    let x = v as int;
    assert(x / 0x80 / 0x80 == x / 0x4000 && x / 0x4000 / 0x80 == x / 0x20_0000 && x / 0x20_0000
        / 0x80 == x / 0x1000_0000);
}

/// When reading a varint fails: it is incomplete as long as fewer than five
/// bytes are there and all of them continue; it is too long if five continue.
/// Otherwise it is complete, and refused only if what it says does not fit, or
/// could be said in fewer bytes.
pub proof fn law_varint_refusals(s: Seq<u8>)
    ensures
        varint_at_front(s) == Err::<(u32, nat), ProtocolError>(ProtocolError::UnexpectedEof) <==>
            s.len() < 5 && (forall|j: int| 0 <= j < s.len() ==> s[j] >= 128),
        varint_at_front(s) == Err::<(u32, nat), ProtocolError>(ProtocolError::VarintTooLong) <==>
            s.len() >= 5 && (forall|j: int| 0 <= j < 5 ==> s[j] >= 128),
        varint_at_front(s) == Err::<(u32, nat), ProtocolError>(ProtocolError::VarintOverflow) ==>
            s.len() >= 5 && s[4] >= 16,
        varint_at_front(s) == Err::<(u32, nat), ProtocolError>(ProtocolError::VarintNotCanonical)
            ==> exists|k: int|
            0 < k < 5 && k < s.len() && #[trigger] s[k] == 0 && (forall|j: int|
                0 <= j < k ==> s[j] >= 128),
        varint_at_front(s) matches Err(e) ==> e == ProtocolError::UnexpectedEof || e
            == ProtocolError::VarintTooLong || e == ProtocolError::VarintOverflow || e
            == ProtocolError::VarintNotCanonical,
{
    lemma_continued(s, 5);
    lemma_group_powers();
    let k = continued(s, 5) as int;
    if k < 5 && k < s.len() {
        let t = s.take(k + 1);
        lemma_groups_bound(t);
        assert(t =~= s.take(k).push(s[k]));
        lemma_groups_append(s.take(k), s[k]);
        lemma_groups_bound(s.take(k));
        if k == 4 && s[4] < 16 {
            assert(group_power(4) * (s[4] as nat % 128) <= group_power(4) * 15) by (nonlinear_arith)
                requires
                    s[4] < 16,
            ;
        }
    } else if k < 5 {
        lemma_continued_is(s, 5, s.len());
    }
    if s.len() < 5 && (forall|j: int| 0 <= j < s.len() ==> s[j] >= 128) {
        lemma_continued_is(s, 5, s.len());
    }
    if s.len() >= 5 && (forall|j: int| 0 <= j < 5 ==> s[j] >= 128) {
        lemma_continued_is(s, 5, 5);
    }
}

} // verus!
