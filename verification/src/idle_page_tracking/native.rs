//! 64-bit words in the byte order of the machine.

use vstd::endian::Endian;
use vstd::prelude::*;

verus! {

/// The word whose bytes, the lowest first, are these.
pub open spec fn little_endian_word(bytes: Seq<u8>) -> u64 {
    (bytes[0] as u64) | ((bytes[1] as u64) << 8) | ((bytes[2] as u64) << 16) | ((bytes[3] as u64)
        << 24) | ((bytes[4] as u64) << 32) | ((bytes[5] as u64) << 40) | ((bytes[6] as u64) << 48)
        | ((bytes[7] as u64) << 56)
}

/// The bytes of a word, the lowest first.
pub open spec fn little_endian_bytes(word: u64) -> Seq<u8> {
    seq![
        (word & 0xff) as u8,
        ((word >> 8) & 0xff) as u8,
        ((word >> 16) & 0xff) as u8,
        ((word >> 24) & 0xff) as u8,
        ((word >> 32) & 0xff) as u8,
        ((word >> 40) & 0xff) as u8,
        ((word >> 48) & 0xff) as u8,
        ((word >> 56) & 0xff) as u8,
    ]
}

/// The word that has these bytes in memory.
pub open spec fn native_word(bytes: Seq<u8>) -> u64 {
    match vstd::endian::endianness() {
        Endian::Little => little_endian_word(bytes),
        Endian::Big => little_endian_word(bytes.reverse()),
    }
}

/// The bytes that a word has in memory.
pub open spec fn native_bytes(word: u64) -> Seq<u8> {
    match vstd::endian::endianness() {
        Endian::Little => little_endian_bytes(word),
        Endian::Big => little_endian_bytes(word).reverse(),
    }
}

/// Calls `u64::from_ne_bytes`, which takes the bytes as the memory of a word. It
/// is claimed that the word is the one that has these bytes in the machine's
/// byte order: the lowest byte first on a little-endian machine, last on a
/// big-endian one.
#[verifier::external_body]
fn word_from_memory(bytes: [u8; 8]) -> (word: u64)
    ensures
        word == native_word(bytes@),
{
    u64::from_ne_bytes(bytes)
}

/// Calls `u64::to_ne_bytes`, which gives the memory of a word. It is claimed that
/// these are the bytes of the word in the machine's byte order: the lowest first
/// on a little-endian machine, last on a big-endian one.
#[verifier::external_body]
fn word_to_memory(word: u64) -> (bytes: [u8; 8])
    ensures
        bytes@ == native_bytes(word),
{
    word.to_ne_bytes()
}

/// The word whose memory begins at `start`.
pub fn read_word(bytes: &[u8], start: usize) -> (word: u64)
    requires
        start + 8 <= bytes@.len(),
    ensures
        word == native_word(bytes@.subrange(start as int, start + 8)),
{
    let memory: [u8; 8] = [
        bytes[start],
        bytes[start + 1],
        bytes[start + 2],
        bytes[start + 3],
        bytes[start + 4],
        bytes[start + 5],
        bytes[start + 6],
        bytes[start + 7],
    ];
    proof {
        assert(memory@ =~= bytes@.subrange(start as int, start + 8));
    }
    word_from_memory(memory)
}

/// The memory of a word.
pub fn word_bytes(word: u64) -> (bytes: Vec<u8>)
    ensures
        bytes@ == native_bytes(word),
{
    let memory: [u8; 8] = word_to_memory(word);
    proof {
        lemma_native_bytes_are_eight(word);
    }
    let bytes: Vec<u8> = vec![
        memory[0],
        memory[1],
        memory[2],
        memory[3],
        memory[4],
        memory[5],
        memory[6],
        memory[7],
    ];
    proof {
        assert(bytes@ =~= native_bytes(word));
    }
    bytes
}

/// A word takes eight bytes.
pub proof fn lemma_native_bytes_are_eight(word: u64)
    ensures
        native_bytes(word).len() == 8,
{
}

/// A word that is written and read again is the same word.
pub proof fn law_word_survives_memory(word: u64)
    ensures
        native_word(native_bytes(word)) == word,
{
    let bytes = little_endian_bytes(word);
    assert(bytes.reverse().reverse() =~= bytes);
    assert(word == ((word & 0xff) as u8 as u64) | ((((word >> 8) & 0xff) as u8 as u64) << 8) | ((((
    word >> 16) & 0xff) as u8 as u64) << 16) | ((((word >> 24) & 0xff) as u8 as u64) << 24) | ((((
    word >> 32) & 0xff) as u8 as u64) << 32) | ((((word >> 40) & 0xff) as u8 as u64) << 40) | ((((
    word >> 48) & 0xff) as u8 as u64) << 48) | ((((word >> 56) & 0xff) as u8 as u64) << 56))
        by (bit_vector);
}

/// Eight bytes, the lowest first, are the digits of their word to the base 256.
pub proof fn law_bytes_are_digits(bytes: Seq<u8>)
    requires
        bytes.len() == 8,
    ensures
        little_endian_word(bytes) == bytes[0] + bytes[1] * 0x100 + bytes[2] * 0x1_0000 + bytes[3]
            * 0x100_0000 + bytes[4] * 0x1_0000_0000 + bytes[5] * 0x100_0000_0000 + bytes[6]
            * 0x1_0000_0000_0000 + bytes[7] * 0x100_0000_0000_0000,
{
    let a = bytes[0] as u64;
    let b = bytes[1] as u64;
    let c = bytes[2] as u64;
    let d = bytes[3] as u64;
    let e = bytes[4] as u64;
    let f = bytes[5] as u64;
    let g = bytes[6] as u64;
    let h = bytes[7] as u64;
    assert(a | (b << 8) | (c << 16) | (d << 24) | (e << 32) | (f << 40) | (g << 48) | (h << 56)
        == a + b * 0x100 + c * 0x1_0000 + d * 0x100_0000 + e * 0x1_0000_0000 + f * 0x100_0000_0000
        + g * 0x1_0000_0000_0000 + h * 0x100_0000_0000_0000) by (bit_vector)
        requires
            a < 256,
            b < 256,
            c < 256,
            d < 256,
            e < 256,
            f < 256,
            g < 256,
            h < 256,
    ;
}

} // verus!
