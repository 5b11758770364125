//! Digests of startup manifests.

use crate::text;
use vstd::prelude::*;

verus! {

/// The SHA-256 digest of a message.
pub uninterp spec fn sha256_of(message: Seq<u8>) -> Seq<u8>;

/// Calls `sha2::Sha256::digest`, which hashes the whole message at once. Of
/// its result it is claimed that it is a function of the message, named
/// `sha256_of`, and that it is thirty-two bytes long. The message's length in
/// bits has to fit in a word, or the count of bits overflows.
#[verifier::external_body]
fn sha256(message: &[u8]) -> (digest: Vec<u8>)
    requires
        message@.len() < 0x2000_0000_0000_0000,
    ensures
        digest@ == sha256_of(message@),
        digest@.len() == 32,
{
    <sha2::Sha256 as sha2::Digest>::digest(message).to_vec()
}

/// Bytes in hexadecimal, two digits each.
pub open spec fn hex_text(bytes: Seq<u8>) -> Seq<char> {
    Seq::new(
        2 * bytes.len(),
        |i: int|
            if i % 2 == 0 {
                text::digit_char((bytes[i / 2] / 16) as int)
            } else {
                text::digit_char((bytes[i / 2] % 16) as int)
            },
    )
}

/// The bytes in hexadecimal.
pub fn to_hex(bytes: &[u8]) -> (hex: String)
    ensures
        hex@ == hex_text(bytes@),
{
    let mut hex = String::new();
    let mut i: usize = 0;
    while i < bytes.len()
        invariant
            i <= bytes@.len(),
            hex@ == hex_text(bytes@.take(i as int)),
        decreases bytes@.len() - i,
    {
        let byte: u8 = bytes[i];
        hex.append(text::digit_text((byte / 16) as u64));
        hex.append(text::digit_text((byte % 16) as u64));
        i += 1;
        proof {
            assert(hex@ =~= hex_text(bytes@.take(i as int)));
        }
    }
    proof {
        assert(bytes@.take(bytes@.len() as int) =~= bytes@);
    }
    hex
}

/// The SHA-256 digest of a message in hexadecimal.
pub fn hex_sha256(message: &[u8]) -> (hex: String)
    requires
        message@.len() < 0x2000_0000_0000_0000,
    ensures
        hex@ == hex_text(sha256_of(message@)),
        hex@.len() == 64,
{
    let digest = sha256(message);
    to_hex(digest.as_slice())
}

/// Different bytes have different hexadecimals, so comparing the text of
/// digests compares the digests.
pub proof fn law_hex_tells_bytes_apart(a: Seq<u8>, b: Seq<u8>)
    requires
        hex_text(a) == hex_text(b),
    ensures
        a == b,
{
    assert(hex_text(a).len() == 2 * a.len());
    assert(hex_text(b).len() == 2 * b.len());
    assert forall|i: int| 0 <= i < a.len() implies a[i] == b[i] by {
        assert((2 * i) / 2 == i && (2 * i + 1) / 2 == i);
        assert((2 * i) % 2 == 0 && (2 * i + 1) % 2 == 1);
        assert(hex_text(a)[2 * i] == text::digit_char((a[i] / 16) as int));
        assert(hex_text(b)[2 * i] == text::digit_char((b[i] / 16) as int));
        assert(hex_text(a)[2 * i + 1] == text::digit_char((a[i] % 16) as int));
        assert(hex_text(b)[2 * i + 1] == text::digit_char((b[i] % 16) as int));
        text::lemma_hex_digit_is_injective((a[i] / 16) as int, (b[i] / 16) as int);
        text::lemma_hex_digit_is_injective((a[i] % 16) as int, (b[i] % 16) as int);
    }
    assert(a =~= b);
}

/// Bytes are written one after the other: the hexadecimal of two pieces is that
/// of the first and then that of the second.
pub proof fn law_hex_is_written_byte_by_byte(a: Seq<u8>, b: Seq<u8>)
    ensures
        hex_text(a + b) == hex_text(a) + hex_text(b),
{
    let n = a.len() as int;
    assert forall|i: int| 0 <= i < hex_text(a + b).len() implies hex_text(a + b)[i] == (hex_text(a)
        + hex_text(b))[i] by {
        if i < 2 * n {
            assert((a + b)[i / 2] == a[i / 2]);
        } else {
            assert((i - 2 * n) / 2 == i / 2 - n);
            assert((i - 2 * n) % 2 == i % 2);
            assert((a + b)[i / 2] == b[i / 2 - n]);
        }
    }
    assert(hex_text(a + b) =~= hex_text(a) + hex_text(b));
}

/// A byte is written as two digits that read back as that byte.
pub proof fn law_hex_of_a_byte_reads_back(byte: u8)
    ensures
        hex_text(seq![byte]).len() == 2,
        text::hexadecimal_value(hex_text(seq![byte])) == byte,
{
    let digits = hex_text(seq![byte]);
    text::law_digits_count_up((byte / 16) as int);
    text::law_digits_count_up((byte % 16) as int);
    assert(digits.drop_last().drop_last() =~= Seq::empty());
    assert(digits.drop_last().last() == text::digit_char((byte / 16) as int));
    assert(digits.last() == text::digit_char((byte % 16) as int));
    assert(text::hexadecimal_value(digits.drop_last().drop_last()) == 0);
    assert(text::hexadecimal_value(digits.drop_last()) == byte / 16);
}

} // verus!
