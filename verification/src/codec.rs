//! Digests and the URL-safe base64 form of bytes.
use base64::engine::general_purpose::URL_SAFE_NO_PAD;
use base64::Engine;
use vstd::prelude::*;

verus! {

/// The SHA-256 digest of bytes.
pub uninterp spec fn sha256(bytes: Seq<u8>) -> Seq<u8>;

/// The SHA-256 digest of bytes.
///
/// Calls `ring::digest::digest` with `ring::digest::SHA256`. The digest is named: it depends on
/// the bytes alone. It has 32 bytes, the output length of the algorithm. The call gives up on `2^61`
/// bytes, more than any machine can address.
#[verifier::external_body]
pub(crate) fn digest(bytes: &[u8]) -> (output: Vec<u8>)
    ensures
        output@ == sha256(bytes@),
        output@.len() == 32,
{
    ring::digest::digest(&ring::digest::SHA256, bytes).as_ref().to_vec()
}

/// A letter of the URL-safe base64 alphabet.
pub open spec fn letter(value: int) -> char {
    if value < 26 {
        ('A' as u32 + value) as char
    } else if value < 52 {
        ('a' as u32 + (value - 26)) as char
    } else if value < 62 {
        ('0' as u32 + (value - 52)) as char
    } else if value == 62 {
        '-'
    } else {
        '_'
    }
}

/// Whether a character is a letter of the URL-safe base64 alphabet.
pub open spec fn is_letter(symbol: char) -> bool {
    'A' <= symbol <= 'Z' || 'a' <= symbol <= 'z' || '0' <= symbol <= '9' || symbol == '-' || symbol
        == '_'
}

/// A byte, or zero past the end.
pub open spec fn byte_at(bytes: Seq<u8>, i: int) -> int {
    if 0 <= i < bytes.len() {
        bytes[i] as int
    } else {
        0
    }
}

/// The bits from `6 * i` up to `6 * i + 6` of bytes, the most significant bit first.
pub open spec fn sextet(bytes: Seq<u8>, i: int) -> int {
    let k = i / 4 * 3;
    if i % 4 == 0 {
        byte_at(bytes, k) / 4
    } else if i % 4 == 1 {
        byte_at(bytes, k) % 4 * 16 + byte_at(bytes, k + 1) / 16
    } else if i % 4 == 2 {
        byte_at(bytes, k + 1) % 16 * 4 + byte_at(bytes, k + 2) / 64
    } else {
        byte_at(bytes, k + 2) % 64
    }
}

/// The URL-safe base64 form of bytes, without padding.
pub open spec fn encoded(bytes: Seq<u8>) -> Seq<char> {
    Seq::new(((bytes.len() * 4 + 2) / 3) as nat, |i: int| letter(sextet(bytes, i)))
}

/// The URL-safe base64 form of bytes, without padding.
///
/// Calls `base64`'s `encode` with the engine `URL_SAFE_NO_PAD`: one letter for every six bits, the
/// last group filled up with zero bits. The bound keeps the length of the text within a `usize`.
#[verifier::external_body]
pub(crate) fn encode(bytes: &[u8]) -> (text: String)
    requires
        bytes@.len() < 0x4000_0000,
    ensures
        text@ == encoded(bytes@),
{
    URL_SAFE_NO_PAD.encode(bytes)
}

/// The bytes whose URL-safe base64 form without padding is `text`.
///
/// Calls `base64`'s `decode` with the engine `URL_SAFE_NO_PAD`, which takes no padding and no set
/// bits past the last byte: it accepts exactly the texts that `encode` gives.
#[verifier::external_body]
pub(crate) fn decode(text: &str) -> (bytes: Option<Vec<u8>>)
    ensures
        bytes matches Some(output) ==> encoded(output@) == text@,
        bytes is None ==> forall|output: Seq<u8>| #[trigger] encoded(output) != text@,
{
    URL_SAFE_NO_PAD.decode(text).ok()
}

/// The base64 form holds letters of the alphabet only.
pub proof fn encoded_holds_letters(bytes: Seq<u8>, i: int)
    requires
        0 <= i < encoded(bytes).len(),
    ensures
        is_letter(encoded(bytes)[i]),
{
    assert(0 <= sextet(bytes, i) < 64);
}

/// The URL-safe base64 form of the SHA-256 digest of bytes.
pub fn hashed(bytes: &[u8]) -> (text: String)
    ensures
        text@ == encoded(sha256(bytes@)),
        text@.len() == 43,
        forall|i: int| 0 <= i < 43 ==> is_letter(#[trigger] text@[i]),
{
    let output = digest(bytes);
    let text = encode(output.as_slice());
    assert forall|i: int| 0 <= i < 43 implies is_letter(#[trigger] text@[i]) by {
        encoded_holds_letters(output@, i);
    }
    text
}

proof fn lemma_letters_differ(a: int, b: int)
    requires
        0 <= a < 64,
        0 <= b < 64,
        letter(a) == letter(b),
    ensures
        a == b,
{
    assert(letter(a) as u32 == letter(b) as u32);
}

proof fn lemma_byte_of_sextets(bytes: Seq<u8>, i: int)
    requires
        0 <= i < bytes.len(),
    ensures
        ({
            let q = i / 3 * 4;
            bytes[i] as int == if i % 3 == 0 {
                sextet(bytes, q) * 4 + sextet(bytes, q + 1) / 16
            } else if i % 3 == 1 {
                sextet(bytes, q + 1) % 16 * 16 + sextet(bytes, q + 2) / 4
            } else {
                sextet(bytes, q + 2) % 4 * 64 + sextet(bytes, q + 3)
            }
        }),
{
    let q = i / 3 * 4;
    let k = i / 3 * 3;
    assert(q / 4 * 3 == k && q % 4 == 0);
    assert((q + 1) / 4 * 3 == k && (q + 1) % 4 == 1);
    assert((q + 2) / 4 * 3 == k && (q + 2) % 4 == 2);
    assert((q + 3) / 4 * 3 == k && (q + 3) % 4 == 3);
    assert(i == k || i == k + 1 || i == k + 2);
}

/// Bytes with the same base64 form are the same bytes: what was encoded can be read back.
pub proof fn encoding_is_injective(a: Seq<u8>, b: Seq<u8>)
    requires
        encoded(a) == encoded(b),
    ensures
        a == b,
{
    assert(encoded(a).len() == (a.len() * 4 + 2) / 3);
    assert(encoded(b).len() == (b.len() * 4 + 2) / 3);
    assert(a.len() == b.len());
    assert forall|j: int| 0 <= j < encoded(a).len() implies sextet(a, j) == #[trigger] sextet(
        b,
        j,
    ) by {
        assert(encoded(a)[j] == letter(sextet(a, j)));
        assert(encoded(b)[j] == letter(sextet(b, j)));
        assert(0 <= sextet(a, j) < 64);
        assert(0 <= sextet(b, j) < 64);
        lemma_letters_differ(sextet(a, j), sextet(b, j));
    }
    assert forall|i: int| 0 <= i < a.len() implies a[i] == b[i] by {
        lemma_byte_of_sextets(a, i);
        lemma_byte_of_sextets(b, i);
        let q = i / 3 * 4;
        assert(sextet(a, q) == sextet(b, q));
        assert(sextet(a, q + 1) == sextet(b, q + 1));
        if i % 3 >= 1 {
            assert(sextet(a, q + 2) == sextet(b, q + 2));
        }
        if i % 3 == 2 {
            assert(sextet(a, q + 3) == sextet(b, q + 3));
        }
    }
    assert(a =~= b);
}

/// The bytes whose base64 form is a text.
pub open spec fn decoded(text: Seq<char>) -> Option<Seq<u8>> {
    if exists|bytes: Seq<u8>| #[trigger] encoded(bytes) == text {
        Some(choose|bytes: Seq<u8>| #[trigger] encoded(bytes) == text)
    } else {
        None
    }
}

/// What was encoded is read back.
pub proof fn encoded_is_read_back(bytes: Seq<u8>)
    ensures
        decoded(encoded(bytes)) == Some(bytes),
{
    let text = encoded(bytes);
    let found = choose|found: Seq<u8>| #[trigger] encoded(found) == text;
    assert(encoded(found) == text);
    encoding_is_injective(found, bytes);
}

/// The bytes whose base64 form is `text`.
pub fn decode_bytes(text: &str) -> (bytes: Option<Vec<u8>>)
    ensures
        match bytes {
            Some(output) => decoded(text@) == Some(output@),
            None => decoded(text@) is None,
        },
{
    let bytes = decode(text);
    proof {
        if let Some(output) = &bytes {
            encoded_is_read_back(output@);
        }
    }
    bytes
}

/// The 64 letters stand in the order of the alphabet for URLs: capitals, small letters, digits,
/// hyphen, underscore.
pub proof fn letters_stand_in_order(value: int)
    requires
        0 <= value < 64,
    ensures
        value < 26 ==> letter(value) as int == 'A' as int + value,
        26 <= value < 52 ==> letter(value) as int == 'a' as int + value - 26,
        52 <= value < 62 ==> letter(value) as int == '0' as int + value - 52,
        value == 62 ==> letter(value) == '-',
        value == 63 ==> letter(value) == '_',
{
}

/// Three bytes make four letters that stand for the same number; one byte more makes two letters,
/// and two bytes more make three.
pub proof fn letters_stand_for_the_bytes(bytes: Seq<u8>, k: int)
    requires
        0 <= k,
        3 * k < bytes.len(),
    ensures
        ({
            let a = sextet(bytes, 4 * k);
            let b = sextet(bytes, 4 * k + 1);
            let c = sextet(bytes, 4 * k + 2);
            let d = sextet(bytes, 4 * k + 3);
            &&& a * 0x4_0000 + b * 0x1000 + c * 0x40 + d == byte_at(bytes, 3 * k) * 0x1_0000
                + byte_at(bytes, 3 * k + 1) * 0x100 + byte_at(bytes, 3 * k + 2)
            &&& 0 <= a < 64 && 0 <= b < 64 && 0 <= c < 64 && 0 <= d < 64
            &&& encoded(bytes)[4 * k] == letter(a) && encoded(bytes)[4 * k + 1] == letter(b)
            &&& 3 * k + 1 < bytes.len() ==> encoded(bytes)[4 * k + 2] == letter(c)
            &&& 3 * k + 2 < bytes.len() ==> encoded(bytes)[4 * k + 3] == letter(d)
        }),
        bytes.len() % 3 == 0 ==> encoded(bytes).len() == bytes.len() / 3 * 4,
        bytes.len() % 3 == 1 ==> encoded(bytes).len() == bytes.len() / 3 * 4 + 2,
        bytes.len() % 3 == 2 ==> encoded(bytes).len() == bytes.len() / 3 * 4 + 3,
{
    let x = byte_at(bytes, 3 * k);
    let y = byte_at(bytes, 3 * k + 1);
    let z = byte_at(bytes, 3 * k + 2);
    assert(0 <= x < 256 && 0 <= y < 256 && 0 <= z < 256);
    assert(4 * k / 4 == k && (4 * k + 1) / 4 == k && (4 * k + 2) / 4 == k && (4 * k + 3) / 4 == k);
    assert(4 * k % 4 == 0 && (4 * k + 1) % 4 == 1 && (4 * k + 2) % 4 == 2 && (4 * k + 3) % 4 == 3);
    assert(x == 4 * (x / 4) + x % 4);
    assert(y == 16 * (y / 16) + y % 16);
    assert(z == 64 * (z / 64) + z % 64);
}

} // verus!
