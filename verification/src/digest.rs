//! BLAKE3 digests and their hexadecimal form.
use vstd::prelude::*;

verus! {

/// The digit for a number below sixteen, in lower case.
pub open spec fn hex_digit(n: u8) -> char {
    if n < 10 {
        (48 + n) as char
    } else {
        (87 + n) as char
    }
}

/// Bytes in hexadecimal: two lower-case digits each, the high one first.
pub open spec fn hex_text(bytes: Seq<u8>) -> Seq<char>
    decreases bytes.len(),
{
    if bytes.len() == 0 {
        Seq::empty()
    } else {
        hex_text(bytes.drop_last()).push(hex_digit(bytes.last() / 16)).push(
            hex_digit(bytes.last() % 16),
        )
    }
}

/// `hex::encode`: each byte as two lower-case hexadecimal digits, the high
/// one first.
#[verifier::external_body]
pub(crate) fn to_hex(bytes: &[u8]) -> (r: String)
    ensures
        r@ == hex_text(bytes@),
{
    hex::encode(bytes)
}

/// The BLAKE3 digest of bytes.
pub uninterp spec fn blake3_digest(bytes: Seq<u8>) -> Seq<u8>;

/// `blake3::hash`: the digest, 32 bytes long.
#[verifier::external_body]
pub(crate) fn blake3_hash(bytes: &[u8]) -> (r: [u8; 32])
    ensures
        r@ == blake3_digest(bytes@),
{
    *blake3::hash(bytes).as_bytes()
}

/// The length of a text in hexadecimal, and its characters.
pub proof fn lemma_hex_text(bytes: Seq<u8>)
    ensures
        hex_text(bytes).len() == 2 * bytes.len(),
        forall|i: int| 0 <= i < hex_text(bytes).len() ==> is_hex(#[trigger] hex_text(bytes)[i]),
    decreases bytes.len(),
{
    if bytes.len() > 0 {
        lemma_hex_text(bytes.drop_last());
    }
}

/// A lower-case hexadecimal digit.
pub open spec fn is_hex(c: char) -> bool {
    '0' <= c <= '9' || 'a' <= c <= 'f'
}

/// Every byte is written as two hexadecimal digits, the higher half first, and
/// digits of different value are different.
pub proof fn law_two_digits_per_byte(bytes: Seq<u8>, a: u8, b: u8)
    ensures
        hex_text(bytes).len() == 2 * bytes.len(),
        forall|i: int|
            0 <= i < bytes.len() ==> hex_text(bytes)[2 * i] == hex_digit((#[trigger] bytes[i]) / 16)
                && hex_text(bytes)[2 * i + 1] == hex_digit(bytes[i] % 16),
        a < 16 && b < 16 ==> is_hex(hex_digit(a)) && (hex_digit(a) == hex_digit(b) <==> a == b),
        a < b < 16 ==> hex_digit(a) < hex_digit(b),
    decreases bytes.len(),
{
    if bytes.len() > 0 {
        let front = bytes.drop_last();
        law_two_digits_per_byte(front, a, b);
        let t = hex_text(front);
        let n = bytes.len() - 1;
        assert forall|i: int| 0 <= i < bytes.len() implies hex_text(bytes)[2 * i] == hex_digit(
            (#[trigger] bytes[i]) / 16,
        ) && hex_text(bytes)[2 * i + 1] == hex_digit(bytes[i] % 16) by {
            if i < n {
                assert(front[i] == bytes[i]);
                assert(hex_text(bytes)[2 * i] == t[2 * i]);
                assert(hex_text(bytes)[2 * i + 1] == t[2 * i + 1]);
            }
        }
    }
}

} // verus!
