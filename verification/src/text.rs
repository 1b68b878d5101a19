//! Text as sequences of characters: comparison, trimming, file names,
//! Unicode normalization and decimal numbers.

use vstd::prelude::*;
use vstd::utf8::{
    decode_utf8, decode_utf8_encode_utf8, encode_utf8, encode_utf8_decode_utf8,
    encode_utf8_valid_utf8, valid_utf8,
};

verus! {

/// `String::push` appends one character.
pub assume_specification[ String::push ](s: &mut String, c: char)
    ensures
        final(s)@ == old(s)@.push(c),
;

/// The text that `unicode_normalization` gives for the NFC form of `text`.
pub uninterp spec fn nfc_form(text: Seq<char>) -> Seq<char>;

/// `UnicodeNormalization::nfc`, collected: the Normalization Form C of
/// `text`. Text that is in this form already stays as it is, so normalizing
/// twice is the same as normalizing once.
#[verifier::external_body]
pub(crate) fn nfc(text: &str) -> (r: String)
    ensures
        r@ == nfc_form(text@),
        nfc_form(r@) == r@,
{
    unicode_normalization::UnicodeNormalization::nfc(text).collect()
}

/// The text that `String::from_utf8_lossy` gives for malformed UTF-8.
pub uninterp spec fn lossy_text(bytes: Seq<u8>) -> Seq<char>;

/// The text in `bytes`, with replacement characters for malformed UTF-8.
pub open spec fn text_in(bytes: Seq<u8>) -> Seq<char> {
    if valid_utf8(bytes) {
        decode_utf8(bytes)
    } else {
        lossy_text(bytes)
    }
}

/// `String::from_utf8_lossy`: well-formed UTF-8 is decoded as it is. What
/// stands in place of malformed parts is left to the name.
#[verifier::external_body]
pub(crate) fn from_utf8_lossy(bytes: &[u8]) -> (r: String)
    ensures
        r@ == if valid_utf8(bytes@) {
            decode_utf8(bytes@)
        } else {
            lossy_text(bytes@)
        },
{
    String::from_utf8_lossy(bytes).to_string()
}

/// The views of these texts.
pub open spec fn text_models(texts: Seq<String>) -> Seq<Seq<char>> {
    texts.map_values(|t: String| t@)
}

/// The view of an optional text.
pub open spec fn text_given(s: Option<String>) -> Option<Seq<char>> {
    match s {
        Some(s) => Some(s@),
        None => None,
    }
}

/// The characters of `s`.
pub fn chars_of(s: &str) -> (r: Vec<char>)
    ensures
        r@ == s@,
{
    let mut r: Vec<char> = Vec::new();
    for c in it: s.chars()
        invariant
            it.seq() == s@,
            r@ == s@.take(it.index() as int),
    {
        r.push(c);
    }
    proof {
        assert(r@ =~= s@);
    }
    r
}

/// The string made of these characters.
pub fn text_of(chars: &[char]) -> (r: String)
    ensures
        r@ == chars@,
{
    let mut r: String = String::new();
    let mut i: usize = 0;
    while i < chars.len()
        invariant
            i <= chars@.len(),
            r@ == chars@.take(i as int),
        decreases chars@.len() - i,
    {
        r.push(chars[i]);
        i = i + 1;
        proof {
            assert(r@ =~= chars@.take(i as int));
        }
    }
    proof {
        assert(chars@.take(i as int) =~= chars@);
    }
    r
}

/// Whether two texts are the same.
pub fn same_text(a: &str, b: &str) -> (r: bool)
    ensures
        r == (a@ == b@),
{
    let x = a.as_bytes();
    let y = b.as_bytes();
    proof {
        encode_utf8_decode_utf8(a@);
        encode_utf8_decode_utf8(b@);
    }
    if x.len() != y.len() {
        return false;
    }
    let mut i: usize = 0;
    while i < x.len()
        invariant
            i <= x@.len(),
            x@.len() == y@.len(),
            x@ == encode_utf8(a@),
            y@ == encode_utf8(b@),
            x@.take(i as int) == y@.take(i as int),
        decreases x@.len() - i,
    {
        if x[i] != y[i] {
            return false;
        }
        i = i + 1;
        proof {
            assert(x@.take(i as int) =~= y@.take(i as int));
        }
    }
    proof {
        assert(x@.take(i as int) =~= x@);
        assert(y@.take(i as int) =~= y@);
    }
    true
}

/// The characters with Unicode's `White_Space` property.
pub open spec fn white_space(c: char) -> bool {
    let u = c as u32;
    ||| 0x09 <= u <= 0x0D
    ||| u == 0x20 || u == 0x85 || u == 0xA0 || u == 0x1680
    ||| 0x2000 <= u <= 0x200A
    ||| u == 0x2028 || u == 0x2029 || u == 0x202F || u == 0x205F || u == 0x3000
}

/// Decides `white_space`.
pub fn is_white_space(c: char) -> (r: bool)
    ensures
        r == white_space(c),
{
    let u: u32 = c as u32;
    (0x09 <= u && u <= 0x0D) || u == 0x20 || u == 0x85 || u == 0xA0 || u == 0x1680 || (0x2000 <= u
        && u <= 0x200A) || u == 0x2028 || u == 0x2029 || u == 0x202F || u == 0x205F || u == 0x3000
}

/// `s` without the white space at its start and at its end.
pub open spec fn trimmed(s: Seq<char>) -> Seq<char>
    decreases s.len(),
{
    if s.len() == 0 {
        s
    } else if white_space(s[0]) {
        trimmed(s.skip(1))
    } else if white_space(s.last()) {
        trimmed(s.drop_last())
    } else {
        s
    }
}

/// The part of `s` that trimming leaves.
pub fn trim(s: &[char]) -> (r: &[char])
    ensures
        r@ == trimmed(s@),
{
    let mut start: usize = 0;
    let mut end: usize = s.len();
    proof {
        assert(s@.subrange(0, s@.len() as int) =~= s@);
    }
    while start < end && is_white_space(s[start])
        invariant
            start <= end == s@.len(),
            trimmed(s@) == trimmed(s@.subrange(start as int, end as int)),
        decreases end - start,
    {
        proof {
            assert(s@.subrange(start as int, end as int).skip(1) =~= s@.subrange(
                start + 1,
                end as int,
            ));
        }
        start = start + 1;
    }
    while start < end && is_white_space(s[end - 1])
        invariant
            start <= end <= s@.len(),
            start < end ==> !white_space(s@[start as int]),
            trimmed(s@) == trimmed(s@.subrange(start as int, end as int)),
        decreases end - start,
    {
        proof {
            let part = s@.subrange(start as int, end as int);
            assert(part[0] == s@[start as int]);
            assert(part.drop_last() =~= s@.subrange(start as int, end - 1));
        }
        end = end - 1;
    }
    proof {
        let part = s@.subrange(start as int, end as int);
        assert(part.len() > 0 ==> part[0] == s@[start as int] && part.last() == s@[end - 1]);
    }
    &s[start..end]
}

/// The longest end of `s` that does not hold `sep`.
pub open spec fn tail_after(s: Seq<char>, sep: char) -> Seq<char>
    decreases s.len(),
{
    if s.len() == 0 || s.last() == sep {
        Seq::empty()
    } else {
        tail_after(s.drop_last(), sep).push(s.last())
    }
}

/// Where `tail_after` of the first `end` characters starts.
fn tail_start(s: &[char], end: usize, sep: char) -> (start: usize)
    requires
        end <= s@.len(),
    ensures
        start <= end,
        tail_after(s@.take(end as int), sep) == s@.subrange(start as int, end as int),
        start > 0 ==> s@[start - 1] == sep,
{
    let mut start: usize = end;
    proof {
        assert(tail_after(s@.take(end as int), sep) =~= tail_after(s@.take(end as int), sep)
            + s@.subrange(end as int, end as int));
    }
    while start > 0 && s[start - 1] != sep
        invariant
            start <= end <= s@.len(),
            tail_after(s@.take(end as int), sep) == tail_after(s@.take(start as int), sep)
                + s@.subrange(start as int, end as int),
        decreases start,
    {
        proof {
            let shorter = tail_after(s@.take(start - 1), sep);
            assert(s@.take(start as int).drop_last() =~= s@.take(start - 1));
            assert(shorter.push(s@[start - 1]) + s@.subrange(start as int, end as int) =~= shorter
                + s@.subrange(start - 1, end as int));
        }
        start = start - 1;
    }
    proof {
        assert(Seq::<char>::empty() + s@.subrange(start as int, end as int) =~= s@.subrange(
            start as int,
            end as int,
        ));
    }
    start
}

/// The last component of a `/`-separated path. Empty components and `.` are
/// passed over; a path that ends in `..`, or has no component, has no name.
pub open spec fn base_name(path: Seq<char>) -> Option<Seq<char>>
    decreases path.len(),
{
    let last = tail_after(path, '/');
    let cut = path.len() - last.len();
    if last == seq!['.', '.'] {
        None
    } else if last != Seq::<char>::empty() && last != seq!['.'] {
        Some(last)
    } else if 0 < cut <= path.len() {
        base_name(path.take(cut - 1))
    } else {
        None
    }
}

/// The name of the file at `path`, empty if it has none.
pub open spec fn name_of(path: Seq<char>) -> Seq<char> {
    match base_name(path) {
        Some(name) => name,
        None => Seq::empty(),
    }
}

/// Computes `name_of`.
pub fn file_name(path: &[char]) -> (name: &[char])
    ensures
        name@ == name_of(path@),
{
    let mut end: usize = path.len();
    proof {
        assert(path@.take(end as int) =~= path@);
    }
    loop
        invariant
            end <= path@.len(),
            base_name(path@) == base_name(path@.take(end as int)),
        decreases end,
    {
        let start: usize = tail_start(path, end, '/');
        let last = &path[start..end];
        proof {
            assert(last@ == tail_after(path@.take(end as int), '/'));
            assert(path@.take(end as int).len() - last@.len() == start);
        }
        if last.len() == 2 && last[0] == '.' && last[1] == '.' {
            proof {
                assert(last@ =~= seq!['.', '.']);
            }
            return &path[0..0];
        }
        proof {
            assert(last@ != seq!['.', '.']);
        }
        if last.len() > 1 || (last.len() == 1 && last[0] != '.') {
            proof {
                assert(last@ != seq!['.']) by {
                    assert(last@.len() != 1 || last@[0] != '.');
                }
            }
            return last;
        }
        proof {
            assert(last@ =~= Seq::<char>::empty() || last@ =~= seq!['.']);
        }
        if start == 0 {
            return &path[0..0];
        }
        proof {
            assert(path@.take(end as int).take(start - 1) =~= path@.take(start - 1));
        }
        end = start - 1;
    }
}

/// The extension of a file name: what follows its last dot, if that dot is
/// not the name's first character.
pub open spec fn extension_of(name: Seq<char>) -> Option<Seq<char>> {
    let ext = tail_after(name, '.');
    if name.len() - ext.len() >= 2 {
        Some(ext)
    } else {
        None
    }
}

/// Computes `extension_of`; a name without extension gives the empty text.
pub fn extension(name: &[char]) -> (ext: &[char])
    ensures
        ext@ == (match extension_of(name@) {
            Some(e) => e,
            None => Seq::empty(),
        }),
{
    let start: usize = tail_start(name, name.len(), '.');
    proof {
        assert(name@.take(name@.len() as int) =~= name@);
    }
    if start >= 2 {
        &name[start..name.len()]
    } else {
        &name[0..0]
    }
}

/// `c` with ASCII capitals made small.
pub open spec fn ascii_lower(c: char) -> char {
    if 'A' <= c <= 'Z' {
        (c as u8 + 32) as u8 as char
    } else {
        c
    }
}

/// `s` with ASCII capitals made small.
pub open spec fn lowered(s: Seq<char>) -> Seq<char> {
    s.map_values(|c: char| ascii_lower(c))
}

fn to_ascii_lower(c: char) -> (r: char)
    ensures
        r == ascii_lower(c),
{
    if 'A' <= c && c <= 'Z' {
        (c as u8 + 32) as char
    } else {
        c
    }
}

/// Computes `lowered`.
pub fn to_lowered(s: &[char]) -> (r: Vec<char>)
    ensures
        r@ == lowered(s@),
{
    let mut r: Vec<char> = Vec::new();
    let mut i: usize = 0;
    while i < s.len()
        invariant
            i <= s@.len(),
            r@ =~= lowered(s@.take(i as int)),
        decreases s@.len() - i,
    {
        r.push(to_ascii_lower(s[i]));
        i = i + 1;
    }
    proof {
        assert(s@.take(i as int) =~= s@);
    }
    r
}

/// Whether two character sequences are the same.
pub fn same_chars(a: &[char], b: &[char]) -> (r: bool)
    ensures
        r == (a@ == b@),
{
    if a.len() != b.len() {
        return false;
    }
    let mut i: usize = 0;
    while i < a.len()
        invariant
            i <= a@.len(),
            a@.len() == b@.len(),
            a@.take(i as int) =~= b@.take(i as int),
        decreases a@.len() - i,
    {
        if a[i] != b[i] {
            return false;
        }
        i = i + 1;
    }
    proof {
        assert(a@.take(i as int) =~= a@);
        assert(b@.take(i as int) =~= b@);
    }
    true
}

/// Whether `s`, with ASCII capitals made small, is `word`.
pub fn is_word(s: &[char], word: &str) -> (r: bool)
    ensures
        r == (lowered(s@) == word@),
{
    same_chars(&to_lowered(s), &chars_of(word))
}

/// Whether `part` occurs somewhere in `s`.
pub open spec fn occurs_in(part: Seq<char>, s: Seq<char>) -> bool {
    exists|i: int| 0 <= i <= s.len() - part.len() && #[trigger] s.subrange(i, i + part.len()) == part
}

/// Decides `occurs_in`.
pub fn contains(s: &[char], part: &[char]) -> (r: bool)
    ensures
        r == occurs_in(part@, s@),
{
    if part.len() > s.len() {
        return false;
    }
    let n: usize = s.len();
    let last: usize = n - part.len();
    let mut i: usize = 0;
    loop
        invariant
            n == s@.len(),
            i <= last == n - part@.len(),
            forall|j: int| 0 <= j < i ==> #[trigger] s@.subrange(j, j + part@.len()) != part@,
        decreases last - i,
    {
        if same_chars(&s[i..i + part.len()], part) {
            return true;
        }
        if i == last {
            return false;
        }
        i = i + 1;
    }
}

/// The longest start of `s` that does not hold `sep`.
pub open spec fn head_before(s: Seq<char>, sep: char) -> Seq<char>
    decreases s.len(),
{
    if s.len() == 0 || s[0] == sep {
        Seq::empty()
    } else {
        seq![s[0]] + head_before(s.skip(1), sep)
    }
}

/// Where `head_before` of `s` from `start` on ends.
pub fn head_end(s: &[char], start: usize, sep: char) -> (end: usize)
    requires
        start <= s@.len(),
    ensures
        start <= end <= s@.len(),
        head_before(s@.skip(start as int), sep) == s@.subrange(start as int, end as int),
        end < s@.len() ==> s@[end as int] == sep,
        forall|j: int| start <= j < end ==> s@[j] != sep,
{
    let mut end: usize = start;
    proof {
        assert(head_before(s@.skip(start as int), sep) =~= s@.subrange(start as int, start as int)
            + head_before(s@.skip(start as int), sep));
    }
    while end < s.len() && s[end] != sep
        invariant
            start <= end <= s@.len(),
            head_before(s@.skip(start as int), sep) == s@.subrange(start as int, end as int)
                + head_before(s@.skip(end as int), sep),
            forall|j: int| start <= j < end ==> s@[j] != sep,
        decreases s@.len() - end,
    {
        proof {
            let rest = head_before(s@.skip(end + 1), sep);
            assert(s@.skip(end as int).skip(1) =~= s@.skip(end + 1));
            assert(s@.subrange(start as int, end as int) + (seq![s@[end as int]] + rest)
                =~= s@.subrange(start as int, end + 1) + rest);
        }
        end = end + 1;
    }
    proof {
        assert(s@.subrange(start as int, end as int) + Seq::<char>::empty() =~= s@.subrange(
            start as int,
            end as int,
        ));
    }
    end
}

/// The pieces of `s` between occurrences of `sep`: one more than there are
/// occurrences.
pub open spec fn pieces(s: Seq<char>, sep: char) -> Seq<Seq<char>>
    decreases s.len(),
{
    let first = head_before(s, sep);
    if first.len() < s.len() {
        seq![first] + pieces(s.skip(first.len() as int + 1), sep)
    } else {
        seq![first]
    }
}

/// Whether every character of `s` is an ASCII digit.
pub open spec fn all_digits(s: Seq<char>) -> bool {
    forall|i: int| 0 <= i < s.len() ==> '0' <= #[trigger] s[i] <= '9'
}

/// The number that decimal digits denote.
pub open spec fn decimal_value(s: Seq<char>) -> nat
    decreases s.len(),
{
    if s.len() == 0 {
        0
    } else {
        (10 * decimal_value(s.drop_last()) + (s.last() as u32 - '0' as u32)) as nat
    }
}

/// The unsigned number written in `s`, if there is one and it is at most
/// `max`: digits, at least one, that a single `+` may precede.
pub open spec fn number_in(s: Seq<char>, max: nat) -> Option<nat> {
    let digits = if s.len() > 0 && s[0] == '+' {
        s.skip(1)
    } else {
        s
    };
    if digits.len() == 0 || !all_digits(digits) || decimal_value(digits) > max {
        None
    } else {
        Some(decimal_value(digits))
    }
}

proof fn lemma_decimal_grows(s: Seq<char>, i: int)
    requires
        0 <= i <= s.len(),
        all_digits(s),
    ensures
        decimal_value(s.take(i)) <= decimal_value(s),
    decreases s.len(),
{
    if i == s.len() {
        assert(s.take(i) =~= s);
    } else {
        lemma_decimal_grows(s.drop_last(), i);
        assert(s.drop_last().take(i) =~= s.take(i));
        assert('0' <= s[s.len() - 1] <= '9');
    }
}

/// Computes `number_in`.
pub fn parse_number(s: &[char], max: u64) -> (r: Option<u64>)
    ensures
        match number_in(s@, max as nat) {
            Some(v) => r == Some(v as u64),
            None => r is None,
        },
{
    let digits = if s.len() > 0 && s[0] == '+' {
        &s[1..s.len()]
    } else {
        s
    };
    proof {
        if s@.len() > 0 && s@[0] == '+' {
            assert(digits@ =~= s@.skip(1));
        }
    }
    if digits.len() == 0 {
        return None;
    }
    let mut value: u64 = 0;
    let mut i: usize = 0;
    while i < digits.len()
        invariant
            i <= digits@.len(),
            digits@ == (if s@.len() > 0 && s@[0] == '+' {
                s@.skip(1)
            } else {
                s@
            }),
            digits@.len() > 0,
            all_digits(digits@.take(i as int)),
            value == decimal_value(digits@.take(i as int)),
            value <= max,
        decreases digits@.len() - i,
    {
        let c: char = digits[i];
        if !('0' <= c && c <= '9') {
            proof {
                assert(!all_digits(digits@)) by {
                    assert(digits@[i as int] == c);
                }
            }
            return None;
        }
        let digit: u64 = (c as u32 - '0' as u32) as u64;
        proof {
            let longer = digits@.take(i + 1);
            assert(longer.drop_last() =~= digits@.take(i as int));
            assert(all_digits(longer)) by {
                assert forall|j: int| 0 <= j < longer.len() implies '0' <= #[trigger] longer[j]
                    <= '9' by {
                    if j < i {
                        assert(longer[j] == digits@.take(i as int)[j]);
                    }
                }
            }
            if all_digits(digits@) {
                lemma_decimal_grows(digits@, i + 1);
            }
        }
        if digit > max || value > (max - digit) / 10 {
            return None;
        }
        value = value * 10 + digit;
        i = i + 1;
    }
    proof {
        assert(digits@.take(i as int) =~= digits@);
    }
    Some(value)
}

/// The decimal digits of `n`, without leading zeros.
pub open spec fn decimal_text(n: nat) -> Seq<char>
    decreases n,
{
    if n < 10 {
        seq![(48 + n) as u8 as char]
    } else {
        decimal_text(n / 10).push((48 + n % 10) as u8 as char)
    }
}

/// Computes `decimal_text`.
pub fn to_decimal(n: u64) -> (r: String)
    ensures
        r@ == decimal_text(n as nat),
    decreases n,
{
    let digit: char = (48 + (n % 10) as u8) as char;
    let mut r: String = if n < 10 {
        String::new()
    } else {
        to_decimal(n / 10)
    };
    r.push(digit);
    proof {
        assert(r@ =~= decimal_text(n as nat));
    }
    r
}

/// A number reads back as it was written.
pub proof fn law_decimal_round_trip(n: nat, max: nat)
    requires
        n <= max,
    ensures
        number_in(decimal_text(n), max) == Some(n),
{
    lemma_decimal_text(n);
    let s = decimal_text(n);
    assert('0' <= s[0] <= '9');
}

proof fn lemma_decimal_text(n: nat)
    ensures
        decimal_text(n).len() > 0,
        all_digits(decimal_text(n)),
        decimal_value(decimal_text(n)) == n,
    decreases n,
{
    let s = decimal_text(n);
    reveal_with_fuel(decimal_value, 2);
    if n < 10 {
        assert(s.drop_last() =~= Seq::<char>::empty());
    } else {
        let front = decimal_text(n / 10);
        lemma_decimal_text(n / 10);
        assert(s.drop_last() =~= front);
        assert forall|i: int| 0 <= i < s.len() implies '0' <= #[trigger] s[i] <= '9' by {
            if i < front.len() {
                assert(s[i] == front[i]);
            }
        }
    }
}

/// Trimming takes white space off the two ends of a text and nothing else:
/// what is left lies in one piece in the text, all around it is white space,
/// and it neither starts nor ends with any.
pub proof fn law_trim_takes_the_ends_off(s: Seq<char>)
    ensures
        exists|a: int, b: int| #[trigger]
            trims_to(s, a, b) && trimmed(s) == s.subrange(a, b),
    decreases s.len(),
{
    if s.len() == 0 {
        assert(s.subrange(0, 0) =~= s);
        assert(trims_to(s, 0, 0));
    } else if white_space(s[0]) {
        let t = s.skip(1);
        law_trim_takes_the_ends_off(t);
        let (a, b) = choose|a: int, b: int| #[trigger]
            trims_to(t, a, b) && trimmed(t) == t.subrange(a, b);
        assert forall|i: int| 0 <= i < a + 1 || b + 1 <= i < s.len() implies white_space(
            #[trigger] s[i],
        ) by {
            if i > 0 {
                assert(s[i] == t[i - 1]);
            }
        }
        if a < b {
            assert(s[a + 1] == t[a] && s[b] == t[b - 1]);
        }
        assert(t.subrange(a, b) =~= s.subrange(a + 1, b + 1));
        assert(trims_to(s, a + 1, b + 1));
    } else if white_space(s.last()) {
        let t = s.drop_last();
        law_trim_takes_the_ends_off(t);
        let (a, b) = choose|a: int, b: int| #[trigger]
            trims_to(t, a, b) && trimmed(t) == t.subrange(a, b);
        assert forall|i: int| 0 <= i < a || b <= i < s.len() implies white_space(
            #[trigger] s[i],
        ) by {
            if i < t.len() {
                assert(s[i] == t[i]);
            }
        }
        if a < b {
            assert(s[a] == t[a] && s[b - 1] == t[b - 1]);
        }
        assert(t.subrange(a, b) =~= s.subrange(a, b));
        assert(trims_to(s, a, b));
    } else {
        assert(s.subrange(0, s.len() as int) =~= s);
        assert(trims_to(s, 0, s.len() as int));
    }
}

/// Everything in `s` before `a` and from `b` on is white space, and what lies
/// between neither starts nor ends with any.
pub open spec fn trims_to(s: Seq<char>, a: int, b: int) -> bool {
    &&& 0 <= a <= b <= s.len()
    &&& forall|i: int| 0 <= i < a || b <= i < s.len() ==> white_space(#[trigger] s[i])
    &&& a < b ==> !white_space(s[a]) && !white_space(s[b - 1])
}

/// A text without white space at its ends is left as it is by trimming,
/// whatever stands inside it.
pub proof fn law_trim_keeps_the_inside(s: Seq<char>)
    requires
        s.len() > 0,
        !white_space(s[0]),
        !white_space(s.last()),
    ensures
        trimmed(s) == s,
{
    law_trim_takes_the_ends_off(s);
    let (a, b) = choose|a: int, b: int| #[trigger]
        trims_to(s, a, b) && trimmed(s) == s.subrange(a, b);
    if a > 0 {
        assert(white_space(s[0]));
    }
    if b < s.len() {
        assert(white_space(s[s.len() - 1]));
    }
    assert(s.subrange(a, b) =~= s);
}

/// White space is exactly the tab, line feed, vertical tab, form feed and
/// carriage return, the space, and the other characters that Unicode gives the
/// property; letters, digits and the punctuation of ASCII are none.
pub proof fn law_white_space(c: char)
    ensures
        (c as u32) < 0x80 ==> (white_space(c) <==> c == ' ' || c == '\t' || c == '\n' || c as u32
            == 0x0B || c as u32 == 0x0C || c == '\r'),
        white_space(c) && c as u32 >= 0x80 ==> {
            ||| c as u32 == 0x85 || c as u32 == 0xA0 || c as u32 == 0x1680
            ||| 0x2000 <= c as u32 <= 0x200A
            ||| c as u32 == 0x2028 || c as u32 == 0x2029 || c as u32 == 0x202F
            ||| c as u32 == 0x205F || c as u32 == 0x3000
        },
        c as u32 == 0x85 || c as u32 == 0xA0 || c as u32 == 0x1680 || 0x2000 <= c as u32 <= 0x200A
            || c as u32 == 0x2028 || c as u32 == 0x2029 || c as u32 == 0x202F || c as u32
            == 0x205F || c as u32 == 0x3000 ==> white_space(c),
{
}

/// What follows the last separator of a text: if `tail` holds none, it is what
/// follows in `head`, a separator and `tail`, and all of `tail` alone.
pub proof fn law_tail_after(head: Seq<char>, tail: Seq<char>, sep: char)
    requires
        !tail.contains(sep),
    ensures
        tail_after(tail, sep) == tail,
        tail_after(head.push(sep) + tail, sep) == tail,
    decreases tail.len(),
{
    let whole = head.push(sep) + tail;
    if tail.len() == 0 {
        assert(whole =~= head.push(sep));
        assert(tail_after(whole, sep) =~= tail);
        assert(tail_after(tail, sep) =~= tail);
    } else {
        let front = tail.drop_last();
        assert(!front.contains(sep)) by {
            if front.contains(sep) {
                let i = choose|i: int| 0 <= i < front.len() && front[i] == sep;
                assert(tail[i] == sep);
            }
        }
        assert(tail.last() != sep) by {
            assert(tail.contains(tail[tail.len() - 1]));
        }
        law_tail_after(head, front, sep);
        assert(whole.drop_last() =~= head.push(sep) + front);
        assert(whole.last() == tail.last());
        assert(front.push(tail.last()) =~= tail);
    }
}

/// Whether `name` is the name of a file: not empty, no path, and neither of
/// the names that stand for a directory.
pub open spec fn is_file_name(name: Seq<char>) -> bool {
    &&& name.len() > 0
    &&& !name.contains('/')
    &&& name != seq!['.']
    &&& name != seq!['.', '.']
}

/// The name of a file is the last component of its path, whatever its
/// characters are. Slashes and `.` components at the end of a path do not
/// count; what ends in `..` has no name, nor has an empty path.
pub proof fn law_name_of(dir: Seq<char>, name: Seq<char>)
    ensures
        is_file_name(name) ==> name_of(name) == name && name_of(dir.push('/') + name) == name,
        name_of(dir.push('/')) == name_of(dir),
        name_of(dir + seq!['/', '.']) == name_of(dir),
        name_of(dir + seq!['/', '.', '.']) == Seq::<char>::empty(),
        name_of(Seq::empty()) == Seq::<char>::empty(),
        name_of(seq!['.']) == Seq::<char>::empty(),
        name_of(seq!['.', '.']) == Seq::<char>::empty(),
{
    let none = Seq::<char>::empty();
    let dot = seq!['.'];
    let two = seq!['.', '.'];
    assert(!none.contains('/'));
    assert(!dot.contains('/'));
    assert(!two.contains('/'));
    law_tail_after(dir, none, '/');
    law_tail_after(dir, dot, '/');
    law_tail_after(dir, two, '/');
    assert(dir.push('/') + none =~= dir.push('/'));
    assert(dir.push('/') + dot =~= dir + seq!['/', '.']);
    assert(dir.push('/') + two =~= dir + seq!['/', '.', '.']);
    assert(dot != none && dot.len() == 1 && two.len() == 2);
    assert(dir.push('/').take(dir.len() as int) =~= dir);
    assert((dir + seq!['/', '.']).take(dir.len() as int) =~= dir);
    if is_file_name(name) {
        law_tail_after(dir, name, '/');
        assert(name != none);
    }
}

/// The extension of a file name is what follows its last dot. A name without
/// a dot has none, nor has one whose only dot comes first.
pub proof fn law_extension_of(stem: Seq<char>, ext: Seq<char>)
    requires
        !ext.contains('.'),
    ensures
        stem.len() > 0 ==> extension_of(stem.push('.') + ext) == Some(ext),
        extension_of(ext) is None,
        extension_of(seq!['.'] + ext) is None,
{
    law_tail_after(stem, ext, '.');
    law_tail_after(Seq::empty(), ext, '.');
    assert(Seq::<char>::empty().push('.') + ext =~= seq!['.'] + ext);
}

/// Making ASCII capitals small changes those and nothing else.
pub proof fn law_lowered(s: Seq<char>)
    ensures
        lowered(s).len() == s.len(),
        forall|i: int|
            0 <= i < s.len() ==> if 'A' <= #[trigger] s[i] <= 'Z' {
                lowered(s)[i] as u32 == s[i] as u32 + 32
            } else {
                lowered(s)[i] == s[i]
            },
        lowered(lowered(s)) == lowered(s),
{
    assert forall|i: int| 0 <= i < s.len() implies if 'A' <= #[trigger] s[i] <= 'Z' {
        lowered(s)[i] as u32 == s[i] as u32 + 32
    } else {
        lowered(s)[i] == s[i]
    } by {
        lemma_ascii_lower(s[i]);
    }
    assert(lowered(lowered(s)) =~= lowered(s)) by {
        assert forall|i: int| 0 <= i < s.len() implies lowered(lowered(s))[i] == lowered(s)[i] by {
            lemma_ascii_lower(s[i]);
        }
    }
}

proof fn lemma_ascii_lower(c: char)
    ensures
        'A' <= c <= 'Z' ==> ascii_lower(c) as u32 == c as u32 + 32,
        !('A' <= c <= 'Z') ==> ascii_lower(c) == c,
        ascii_lower(ascii_lower(c)) == ascii_lower(c),
{
}

/// A part occurs in a text exactly if the text is something, the part, and
/// something else.
pub proof fn law_occurs_in(part: Seq<char>, s: Seq<char>)
    ensures
        occurs_in(part, s) <==> exists|before: Seq<char>, after: Seq<char>|
            s == #[trigger] (before + part + after),
{
    if occurs_in(part, s) {
        let i = choose|i: int|
            0 <= i <= s.len() - part.len() && #[trigger] s.subrange(i, i + part.len()) == part;
        let before = s.take(i);
        let after = s.skip(i + part.len());
        assert(s =~= before + part + after);
    }
    if exists|before: Seq<char>, after: Seq<char>| s == #[trigger] (before + part + after) {
        let (before, after) = choose|before: Seq<char>, after: Seq<char>|
            s == #[trigger] (before + part + after);
        let i = before.len() as int;
        assert(s.subrange(i, i + part.len()) =~= part);
    }
}

/// `parts` with `sep` between them.
pub open spec fn joined(parts: Seq<Seq<char>>, sep: char) -> Seq<char>
    decreases parts.len(),
{
    if parts.len() == 0 {
        Seq::empty()
    } else if parts.len() == 1 {
        parts[0]
    } else {
        parts[0].push(sep) + joined(parts.skip(1), sep)
    }
}

proof fn lemma_head_before(s: Seq<char>, sep: char)
    ensures
        ({
            let h = head_before(s, sep);
            &&& h.len() <= s.len()
            &&& h == s.take(h.len() as int)
            &&& !h.contains(sep)
            &&& h.len() < s.len() ==> s[h.len() as int] == sep
        }),
    decreases s.len(),
{
    let h = head_before(s, sep);
    if s.len() == 0 || s[0] == sep {
        assert(h =~= s.take(0));
    } else {
        let t = s.skip(1);
        let rest = head_before(t, sep);
        lemma_head_before(t, sep);
        assert(h =~= s.take(h.len() as int)) by {
            assert forall|i: int| 0 <= i < h.len() implies h[i] == s[i] by {
                if i > 0 {
                    assert(h[i] == rest[i - 1]);
                    assert(rest[i - 1] == t[i - 1]);
                }
            }
        }
        if h.contains(sep) {
            let i = choose|i: int| 0 <= i < h.len() && h[i] == sep;
            if i > 0 {
                assert(rest[i - 1] == sep);
            }
        }
        if h.len() < s.len() {
            assert(s[h.len() as int] == t[rest.len() as int]);
        }
    }
}

/// What precedes the first separator of a text: if `head` holds none, it is
/// what precedes in `head`, a separator and `tail`, and all of `head` alone.
pub proof fn law_head_before(head: Seq<char>, tail: Seq<char>, sep: char)
    requires
        !head.contains(sep),
    ensures
        head_before(head, sep) == head,
        head_before(head.push(sep) + tail, sep) == head,
    decreases head.len(),
{
    let whole = head.push(sep) + tail;
    lemma_head_before(head, sep);
    lemma_head_before(whole, sep);
    let a = head_before(head, sep);
    if a.len() < head.len() {
        assert(head.contains(head[a.len() as int]));
    }
    assert(a =~= head);
    let b = head_before(whole, sep);
    if b.len() < head.len() {
        assert(whole[b.len() as int] == head[b.len() as int]);
        assert(head.contains(head[b.len() as int]));
    }
    if b.len() > head.len() {
        assert(b[head.len() as int] == whole[head.len() as int]);
        assert(b.contains(sep));
    }
    assert(b =~= head);
}

/// The pieces of a text between separators hold no separator, there is at
/// least one, and put together again they make up the text.
pub proof fn law_pieces(s: Seq<char>, sep: char)
    ensures
        pieces(s, sep).len() > 0,
        forall|i: int| 0 <= i < pieces(s, sep).len() ==> !(#[trigger] pieces(s, sep)[i]).contains(sep),
        joined(pieces(s, sep), sep) == s,
    decreases s.len(),
{
    let first = head_before(s, sep);
    let all = pieces(s, sep);
    lemma_head_before(s, sep);
    if first.len() < s.len() {
        let t = s.skip(first.len() as int + 1);
        let rest = pieces(t, sep);
        law_pieces(t, sep);
        assert(all.skip(1) =~= rest);
        assert(all[0] == first);
        assert forall|i: int| 0 <= i < all.len() implies !(#[trigger] all[i]).contains(sep) by {
            if i > 0 {
                assert(all[i] == rest[i - 1]);
            }
        }
        assert(first.push(sep) + t =~= s);
    } else {
        assert(all[0] == first);
        assert(first =~= s);
    }
}

/// Putting pieces without separators together and taking them apart again
/// gives the same pieces.
pub proof fn law_joined_pieces(parts: Seq<Seq<char>>, sep: char)
    requires
        parts.len() > 0,
        forall|i: int| 0 <= i < parts.len() ==> !(#[trigger] parts[i]).contains(sep),
    ensures
        pieces(joined(parts, sep), sep) == parts,
    decreases parts.len(),
{
    let s = joined(parts, sep);
    assert(!parts[0].contains(sep));
    if parts.len() == 1 {
        law_head_before(parts[0], Seq::empty(), sep);
        assert(pieces(s, sep) =~= parts);
    } else {
        let later = parts.skip(1);
        let t = joined(later, sep);
        assert forall|i: int| 0 <= i < later.len() implies !(#[trigger] later[i]).contains(sep) by {
            assert(later[i] == parts[i + 1]);
        }
        law_joined_pieces(later, sep);
        law_head_before(parts[0], t, sep);
        assert(s.skip(parts[0].len() as int + 1) =~= t);
        assert(pieces(s, sep) =~= parts);
    }
}

/// The character of a decimal digit.
pub open spec fn digit_char(d: nat) -> char {
    if d == 0 {
        '0'
    } else if d == 1 {
        '1'
    } else if d == 2 {
        '2'
    } else if d == 3 {
        '3'
    } else if d == 4 {
        '4'
    } else if d == 5 {
        '5'
    } else if d == 6 {
        '6'
    } else if d == 7 {
        '7'
    } else if d == 8 {
        '8'
    } else {
        '9'
    }
}

/// A number is written in base ten: one digit below ten, and above that the
/// digits of its tenth part and then its last digit.
pub proof fn law_decimal_text(n: nat, d: nat)
    requires
        d < 10,
    ensures
        decimal_text(d) == seq![digit_char(d)],
        n > 0 ==> decimal_text(10 * n + d) == decimal_text(n).push(digit_char(d)),
{
    assert(decimal_text(d) =~= seq![digit_char(d)]);
    if n > 0 {
        assert((10 * n + d) / 10 == n && (10 * n + d) % 10 == d);
    }
}

/// A number is read in base ten: one digit is its own value, a further digit
/// counts after ten times what was read, as long as the limit allows, and a
/// `+` may come before the digits.
pub proof fn law_number_in(s: Seq<char>, d: nat, max: nat)
    requires
        d < 10,
    ensures
        d <= max ==> number_in(seq![digit_char(d)], max) == Some(d),
        number_in(s, max) matches Some(v) ==> number_in(s.push(digit_char(d)), max) == if 10 * v + d
            <= max {
            Some(10 * v + d)
        } else {
            None
        },
        s.len() > 0 && s[0] != '+' ==> number_in(seq!['+'] + s, max) == number_in(s, max),
{
    let one = seq![digit_char(d)];
    reveal_with_fuel(decimal_value, 2);
    assert(one.drop_last() =~= Seq::<char>::empty());
    let longer = s.push(digit_char(d));
    if let Some(v) = number_in(s, max) {
        let digits = if s[0] == '+' {
            s.skip(1)
        } else {
            s
        };
        let more = digits.push(digit_char(d));
        assert(longer[0] == s[0]);
        assert(s[0] == '+' ==> longer.skip(1) =~= more);
        assert(more.drop_last() =~= digits);
        assert(all_digits(more)) by {
            assert forall|i: int| 0 <= i < more.len() implies '0' <= #[trigger] more[i] <= '9' by {
                if i < digits.len() {
                    assert(more[i] == digits[i]);
                }
            }
        }
    }
    assert((seq!['+'] + s).skip(1) =~= s);
}

/// What is no number, or one above the limit, is not read as one: only digits,
/// at least one, after at most one `+`, are.
pub proof fn law_no_number(s: Seq<char>, max: nat)
    ensures
        number_in(s, max) matches Some(v) ==> {
            let start: int = if s[0] == '+' {
                1
            } else {
                0
            };
            &&& v <= max
            &&& start < s.len()
            &&& forall|i: int| start <= i < s.len() ==> '0' <= #[trigger] s[i] <= '9'
        },
        number_in(Seq::empty(), max) is None,
{
    if let Some(v) = number_in(s, max) {
        let digits = if s[0] == '+' {
            s.skip(1)
        } else {
            s
        };
        let start: int = if s[0] == '+' {
            1
        } else {
            0
        };
        assert forall|i: int| start <= i < s.len() implies '0' <= #[trigger] s[i] <= '9' by {
            assert(s[i] == digits[i - start]);
        }
    }
}

/// Well-formed UTF-8 is read as the text whose encoding it is.
pub proof fn law_text_in(bytes: Seq<u8>, text: Seq<char>)
    ensures
        valid_utf8(bytes) ==> encode_utf8(text_in(bytes)) == bytes,
        text_in(encode_utf8(text)) == text,
        !valid_utf8(bytes) ==> text_in(bytes) == lossy_text(bytes),
{
    encode_utf8_decode_utf8(text);
    encode_utf8_valid_utf8(text);
    if valid_utf8(bytes) {
        decode_utf8_encode_utf8(bytes);
    }
}

/// The views of texts are those of each of them, in their order.
pub proof fn law_text_models(texts: Seq<String>, given: Option<String>)
    ensures
        text_models(texts).len() == texts.len(),
        forall|i: int| 0 <= i < texts.len() ==> #[trigger] text_models(texts)[i] == texts[i]@,
        given matches Some(text) ==> text_given(given) == Some(text@),
        given is None ==> text_given(given) is None,
{
}

} // verus!
