//! The outside primitives that API keys are built from: SHA3-512, unpadded lowercase
//! RFC 4648 base32, constant-time comparison, version-7 UUIDs (and their text) and
//! random bytes.
use vstd::prelude::*;
use sha3::Digest;

verus! {

/// The SHA3-512 digest of `data`.
pub uninterp spec fn sha3_512(data: Seq<u8>) -> Seq<u8>;

/// Byte `i` of `data`, or 0 past its end.
pub open spec fn byte_or_zero(data: Seq<u8>, i: int) -> u8 {
    if 0 <= i < data.len() {
        data[i]
    } else {
        0
    }
}

/// The 5-bit group `k` of `data`: its bits `5k` to `5k + 4`, most significant bit of each
/// byte first, with zero bits past the end.
pub open spec fn base32_group(data: Seq<u8>, k: int) -> u16 {
    let p = 5 * k;
    let word = ((byte_or_zero(data, p / 8) as u16) << 8u16) | (byte_or_zero(data, p / 8 + 1) as u16);
    (word >> ((11 - p % 8) as u16)) & 31u16
}

/// The character of a 5-bit value in the lowercase RFC 4648 alphabet
/// `abcdefghijklmnopqrstuvwxyz234567`.
pub open spec fn base32_char(v: u16) -> char {
    if v < 26 {
        (v + 97) as char
    } else {
        (v - 26 + 50) as char
    }
}

/// The unpadded lowercase RFC 4648 base32 text of `data`: one character per 5-bit group,
/// `ceil(8n / 5)` characters for `n` bytes.
pub open spec fn base32_lower_text(data: Seq<u8>) -> Seq<char> {
    Seq::new(((8 * data.len() + 4) / 5) as nat, |k: int| base32_char(base32_group(data, k)))
}

/// The 5-bit value of a character of the lowercase RFC 4648 alphabet.
pub open spec fn base32_value(c: char) -> Option<u32> {
    if 'a' <= c && c <= 'z' {
        Some((c as u32 - 97) as u32)
    } else if '2' <= c && c <= '7' {
        Some((c as u32 - 50 + 26) as u32)
    } else {
        None
    }
}

/// The 5-bit value of character `i` of `text`, or 0 past its end.
pub open spec fn value_or_zero(text: Seq<char>, i: int) -> u32 {
    if 0 <= i < text.len() && base32_value(text[i]) is Some {
        base32_value(text[i])->0
    } else {
        0
    }
}

/// Byte `i` of what `text` stands for: bits `8i` to `8i + 7` of the characters' 5-bit
/// values laid end to end, most significant bit first, with zero bits past the end.
pub open spec fn base32_byte(text: Seq<char>, i: int) -> u8 {
    let p = 8 * i;
    let q = p / 5;
    let word = (value_or_zero(text, q) << 10u32) | (value_or_zero(text, q + 1) << 5u32) | value_or_zero(text, q + 2);
    ((word >> ((7 - p % 5) as u32)) & 255u32) as u8
}

/// The bytes that unpadded lowercase RFC 4648 base32 text `text` stands for: `None` where
/// a character lies outside the alphabet, otherwise the first `5n / 8` whole bytes of the
/// bits of its `n` characters.
#[verifier::opaque]
pub open spec fn base32_lower_decoded(text: Seq<char>) -> Option<Seq<u8>> {
    if forall|i: int| 0 <= i < text.len() ==> #[trigger] base32_value(text[i]) is Some {
        Some(Seq::new((text.len() * 5 / 8) as nat, |i: int| base32_byte(text, i)))
    } else {
        None
    }
}

/// `sha3::Sha3_512::digest`: the 64-byte SHA3-512 digest of `data`.
#[verifier::external_body]
pub(crate) fn sha3_512_digest(data: &[u8]) -> (r: [u8; 64])
    ensures
        r@ == sha3_512(data@),
{
    let mut out = [0u8; 64];
    out.copy_from_slice(&sha3::Sha3_512::digest(data));
    out
}

/// `base32::encode` with the unpadded lowercase RFC 4648 alphabet: the text of
/// `base32_lower_text`.
#[verifier::external_body]
pub(crate) fn base32_lower_encode(data: &[u8]) -> (r: String)
    ensures
        r@ == base32_lower_text(data@),
{
    base32::encode(base32::Alphabet::Rfc4648Lower { padding: false }, data)
}

/// `base32::decode` with the unpadded lowercase RFC 4648 alphabet: `None` where a
/// character lies outside it (padding `=` included), otherwise the bytes of
/// `base32_lower_decoded`.
#[verifier::external_body]
pub(crate) fn base32_lower_decode(text: &str) -> (r: Option<Vec<u8>>)
    ensures
        r matches Some(bytes) ==> base32_lower_decoded(text@) == Some(bytes@),
        r is None ==> base32_lower_decoded(text@) is None,
{
    base32::decode(base32::Alphabet::Rfc4648Lower { padding: false }, text)
}

/// `constant_time_eq::constant_time_eq`: whether the two byte strings are equal (false
/// when their lengths differ), in time that does not depend on where they differ.
#[verifier::external_body]
pub(crate) fn bytes_eq_constant_time(a: &[u8], b: &[u8]) -> (r: bool)
    ensures
        r == (a@ == b@),
{
    constant_time_eq::constant_time_eq(a, b)
}

/// `uuid::Uuid::now_v7`, as its 16 bytes: a version-7 UUID from the current time and
/// random bits. Whatever the clock and the random source gave, the version nibble is 7
/// and the variant bits are `10`.
#[verifier::external_body]
pub(crate) fn new_key_id() -> (r: [u8; 16])
    ensures
        r@[6] / 16 == 7,
        r@[8] / 64 == 2,
{
    uuid::Uuid::now_v7().into_bytes()
}

/// The first character of the base32 text of `data` is a letter exactly when the first
/// byte is below `0xD0`; from `0xD0` on it is one of the digits `2` to `7`.
pub proof fn lemma_base32_first_char(data: Seq<u8>)
    requires
        data.len() > 0,
    ensures
        base32_lower_text(data).len() == (8 * data.len() + 4) / 5,
        data[0] < 0xD0 ==> 'a' <= base32_lower_text(data)[0] <= 'z',
        data[0] >= 0xD0 ==> '2' <= base32_lower_text(data)[0] <= '7',
{
    let b0 = data[0];
    let b1 = byte_or_zero(data, 1);
    assert(base32_group(data, 0) == ((((b0 as u16) << 8u16) | (b1 as u16)) >> 11u16) & 31u16);
    assert(((((b0 as u16) << 8u16) | (b1 as u16)) >> 11u16) & 31u16 == (b0 >> 3u8) as u16) by (bit_vector);
    assert(b0 < 0xD0 <==> (b0 >> 3u8) < 26) by (bit_vector);
    assert((b0 >> 3u8) < 32) by (bit_vector);
}

/// A 5-bit group that starts `off` bits into byte `a`, with byte `b` after it.
spec fn group_of(a: u8, b: u8, off: u16) -> u32 {
    (((((a as u16) << 8u16) | (b as u16)) >> (11u16 - off)) & 31u16) as u32
}

/// The byte that starts `7 - shift` bits into three 5-bit groups laid end to end.
spec fn byte_of(g0: u32, g1: u32, g2: u32, shift: u32) -> u8 {
    ((((g0 << 10u32) | (g1 << 5u32) | g2) >> shift) & 255u32) as u8
}

proof fn lemma_group_at(data: Seq<u8>, k: int, byte: int, off: int)
    requires
        5 * k == 8 * byte + off,
        0 <= off < 8,
        byte >= 0,
    ensures
        base32_group(data, k) as u32 == group_of(byte_or_zero(data, byte), byte_or_zero(data, byte + 1), off as u16),
{
    assert((5 * k) / 8 == byte && (5 * k) % 8 == off);
}

/// The character of each group reads back as the group, and a group past the text is
/// zero like the missing characters.
proof fn lemma_value_is_group(data: Seq<u8>, k: int)
    requires
        k >= 0,
    ensures
        value_or_zero(base32_lower_text(data), k) == base32_group(data, k) as u32,
{
    let text = base32_lower_text(data);
    let v = base32_group(data, k);
    let a = byte_or_zero(data, (5 * k) / 8);
    let b = byte_or_zero(data, (5 * k) / 8 + 1);
    let sh = (11 - (5 * k) % 8) as u16;
    assert(((((a as u16) << 8u16) | (b as u16)) >> sh) & 31u16 < 32) by (bit_vector);
    if k < text.len() {
        assert(text[k] == base32_char(v));
    } else {
        assert((5 * k) / 8 >= data.len());
        assert(a == 0 && b == 0);
        assert(((((0u8 as u16) << 8u16) | (0u8 as u16)) >> sh) & 31u16 == 0) by (bit_vector);
    }
}

/// Byte `i` of the decoded text of `data` is `data[i]`.
proof fn lemma_decoded_byte(data: Seq<u8>, i: int)
    requires
        0 <= i < data.len(),
    ensures
        base32_byte(base32_lower_text(data), i) == data[i],
{
    let text = base32_lower_text(data);
    let m = i / 5;
    let t = i % 5;
    let p = 8 * i;
    let q = p / 5;
    let x0 = byte_or_zero(data, 5 * m);
    let x1 = byte_or_zero(data, 5 * m + 1);
    let x2 = byte_or_zero(data, 5 * m + 2);
    let x3 = byte_or_zero(data, 5 * m + 3);
    let x4 = byte_or_zero(data, 5 * m + 4);
    let x5 = byte_or_zero(data, 5 * m + 5);
    let x6 = byte_or_zero(data, 5 * m + 6);
    lemma_value_is_group(data, q);
    lemma_value_is_group(data, q + 1);
    lemma_value_is_group(data, q + 2);
    if t == 0 {
        assert(q == 8 * m && p % 5 == 0);
        lemma_group_at(data, q, 5 * m, 0);
        lemma_group_at(data, q + 1, 5 * m, 5);
        lemma_group_at(data, q + 2, 5 * m + 1, 2);
        assert(byte_of(group_of(x0, x1, 0), group_of(x0, x1, 5), group_of(x1, x2, 2), 7) == x0) by (bit_vector);
    } else if t == 1 {
        assert(q == 8 * m + 1 && p % 5 == 3);
        lemma_group_at(data, q, 5 * m, 5);
        lemma_group_at(data, q + 1, 5 * m + 1, 2);
        lemma_group_at(data, q + 2, 5 * m + 1, 7);
        assert(byte_of(group_of(x0, x1, 5), group_of(x1, x2, 2), group_of(x1, x2, 7), 4) == x1) by (bit_vector);
    } else if t == 2 {
        assert(q == 8 * m + 3 && p % 5 == 1);
        lemma_group_at(data, q, 5 * m + 1, 7);
        lemma_group_at(data, q + 1, 5 * m + 2, 4);
        lemma_group_at(data, q + 2, 5 * m + 3, 1);
        assert(byte_of(group_of(x1, x2, 7), group_of(x2, x3, 4), group_of(x3, x4, 1), 6) == x2) by (bit_vector);
    } else if t == 3 {
        assert(q == 8 * m + 4 && p % 5 == 4);
        lemma_group_at(data, q, 5 * m + 2, 4);
        lemma_group_at(data, q + 1, 5 * m + 3, 1);
        lemma_group_at(data, q + 2, 5 * m + 3, 6);
        assert(byte_of(group_of(x2, x3, 4), group_of(x3, x4, 1), group_of(x3, x4, 6), 3) == x3) by (bit_vector);
    } else {
        assert(q == 8 * m + 6 && p % 5 == 2);
        lemma_group_at(data, q, 5 * m + 3, 6);
        lemma_group_at(data, q + 1, 5 * m + 4, 3);
        lemma_group_at(data, q + 2, 5 * m + 5, 0);
        assert(byte_of(group_of(x3, x4, 6), group_of(x4, x5, 3), group_of(x5, x6, 0), 5) == x4) by (bit_vector);
    }
    assert(data[i] == byte_or_zero(data, i));
}

/// Decoding the base32 text of `data` gives `data` back.
pub proof fn lemma_base32_round_trip(data: Seq<u8>)
    ensures
        base32_lower_decoded(base32_lower_text(data)) == Some(data),
{
    let text = base32_lower_text(data);
    reveal(base32_lower_decoded);
    assert forall|i: int| 0 <= i < text.len() implies #[trigger] base32_value(text[i]) is Some by {
        lemma_value_is_group(data, i);
    }
    let n = data.len();
    assert(text.len() * 5 / 8 == n) by (nonlinear_arith)
        requires
            text.len() == (8 * n + 4) / 5,
    ;
    assert forall|i: int| 0 <= i < n implies #[trigger] base32_byte(text, i) == data[i] by {
        lemma_decoded_byte(data, i);
    }
    assert(Seq::new((text.len() * 5 / 8) as nat, |i: int| base32_byte(text, i)) =~= data);
}

/// The lowercase hexadecimal digit of `n` (below 16).
pub open spec fn hex_digit(n: int) -> char {
    if n < 10 {
        (n + 48) as char
    } else {
        (n + 87) as char
    }
}

/// Two lowercase hexadecimal digits per byte, high nibble first.
pub open spec fn hex_text(bytes: Seq<u8>) -> Seq<char>
    decreases bytes.len(),
{
    if bytes.len() == 0 {
        Seq::empty()
    } else {
        hex_text(bytes.drop_last()) + seq![hex_digit(bytes.last() as int / 16), hex_digit(bytes.last() as int % 16)]
    }
}

/// The hyphenated lowercase text of a UUID: its 16 bytes in hexadecimal, in groups of
/// 4, 2, 2, 2 and 6 bytes separated by `-`.
pub open spec fn uuid_text(id: Seq<u8>) -> Seq<char> {
    hex_text(id.subrange(0, 4)) + seq!['-'] + hex_text(id.subrange(4, 6)) + seq!['-']
        + hex_text(id.subrange(6, 8)) + seq!['-'] + hex_text(id.subrange(8, 10)) + seq!['-']
        + hex_text(id.subrange(10, 16))
}

/// `String::from(uuid::Uuid::from_bytes(id))`: the UUID's `Display` text, which the
/// crate writes in the hyphenated lowercase form.
#[verifier::external_body]
pub(crate) fn uuid_string(id: [u8; 16]) -> (r: String)
    ensures
        r@ == uuid_text(id@),
{
    String::from(uuid::Uuid::from_bytes(id))
}

/// `rand::rng().fill_bytes`: 32 bytes from the thread-local random generator. Nothing
/// is promised of their values.
#[verifier::external_body]
pub(crate) fn random_secret() -> (r: [u8; 32]) {
    let mut buf = [0u8; 32];
    rand::RngCore::fill_bytes(&mut rand::rng(), &mut buf);
    buf
}

} // verus!
