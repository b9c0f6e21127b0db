//! The palette file: the colour words of a palette, two bytes each, the low
//! byte first.
//!
//! The words are serialised by `bincode`, which puts the number of words in
//! front of them as eight bytes, the lowest first. The palette file is what
//! follows that number.

use crate::snes::gfx::SNESColor;
use vstd::prelude::*;

verus! {

/// What `palette_file` reports of a serialiser's answer that is a failure,
/// or is not a count followed by that many words.
pub const PALETTE_FAILED: &'static str = "Could not serialize the palette.";

/// The kind of error that `bincode` reports.
#[verifier::external_type_specification]
#[verifier::external_body]
pub struct ExErrorKind(bincode::ErrorKind);

/// The words of a palette.
pub open spec fn words_of(palette: Seq<SNESColor>) -> Seq<u16> {
    Seq::new(palette.len(), |i: int| palette[i].0)
}

/// The bytes of a run of words: of each word the low byte, then the high
/// byte.
pub open spec fn word_bytes(words: Seq<u16>) -> Seq<u8> {
    Seq::new(
        2 * words.len(),
        |k: int|
            if k % 2 == 0 {
                (words[k / 2] % 256) as u8
            } else {
                (words[k / 2] / 256) as u8
            },
    )
}

/// The number that the first eight bytes stand for, the lowest byte first.
pub open spec fn leading_count(bytes: Seq<u8>) -> int {
    bytes[0] + 0x100 * bytes[1] + 0x1_0000 * bytes[2] + 0x100_0000 * bytes[3] + 0x1_0000_0000
        * bytes[4] + 0x100_0000_0000 * bytes[5] + 0x1_0000_0000_0000 * bytes[6]
        + 0x100_0000_0000_0000 * bytes[7]
}

/// The bytes are a count of words in eight bytes and then that many words
/// of two bytes.
pub open spec fn is_counted(bytes: Seq<u8>) -> bool {
    bytes.len() >= 8 && 2 * leading_count(bytes) == bytes.len() - 8
}

/// The bytes are the given words with their number in front.
pub open spec fn frames(bytes: Seq<u8>, words: Seq<u16>) -> bool {
    &&& bytes.len() == 8 + 2 * words.len()
    &&& leading_count(bytes) == words.len()
    &&& bytes.skip(8) == word_bytes(words)
}

/// `bincode::serialize` on a vector of 16-bit words. It is taken to
/// succeed on every such vector: the crate's free functions set no size
/// limit, a vector knows its length, and the bytes go into a vector, which
/// takes every write. It gives the number of words as eight bytes, the
/// lowest first, and then each word as two bytes, the low byte first: the
/// encoding that the crate documents for its free functions, with integers
/// of fixed width in little-endian order.
#[verifier::external_body]
fn serialize_words(words: &Vec<u16>) -> (res: Result<Vec<u8>, Box<bincode::ErrorKind>>)
    ensures
        res is Ok,
        res matches Ok(bytes) ==> frames(bytes@, words@),
{
    bincode::serialize(words)
}

/// The words of a palette, in order.
pub fn palette_words(palette: &[SNESColor]) -> (words: Vec<u16>)
    ensures
        words@ == words_of(palette@),
{
    let mut words: Vec<u16> = Vec::with_capacity(palette.len());
    for i in 0..palette.len()
        invariant
            words@.len() == i,
            forall|j: int| 0 <= j < i ==> words@[j] == palette@[j].0,
    {
        words.push(palette[i].0);
    }
    assert(words@ =~= words_of(palette@));
    words
}

/// The number that the first eight bytes stand for.
pub fn read_count(bytes: &[u8]) -> (count: u64)
    requires
        bytes@.len() >= 8,
    ensures
        count == leading_count(bytes@),
{
    (bytes[0] as u64) + 0x100 * (bytes[1] as u64) + 0x1_0000 * (bytes[2] as u64) + 0x100_0000 * (
    bytes[3] as u64) + 0x1_0000_0000 * (bytes[4] as u64) + 0x100_0000_0000 * (bytes[5] as u64)
        + 0x1_0000_0000_0000 * (bytes[6] as u64) + 0x100_0000_0000_0000 * (bytes[7] as u64)
}

/// What follows the count in serialised words, where the bytes are a count
/// and that many words; else nothing.
pub fn palette_payload(bytes: &[u8]) -> (payload: Option<Vec<u8>>)
    ensures
        match payload {
            Some(rest) => is_counted(bytes@) && rest@ == bytes@.skip(8),
            None => !is_counted(bytes@),
        },
{
    let total: usize = bytes.len();
    if total < 8 {
        return None;
    }
    let count: u64 = read_count(bytes);
    if count > 0x7FFF_FFFF_FFFF_FFFF || 2 * count != (total - 8) as u64 {
        return None;
    }
    let mut rest: Vec<u8> = Vec::with_capacity(total - 8);
    for i in 8..total
        invariant
            total == bytes@.len(),
            rest@.len() == i - 8,
            forall|j: int| 0 <= j < i - 8 ==> rest@[j] == bytes@[j + 8],
    {
        rest.push(bytes[i]);
    }
    assert(rest@ =~= bytes@.skip(8));
    Some(rest)
}

/// The palette file that a serialiser's answer holds: what follows the
/// count, where the serialiser gave a count and that many words; else the
/// failure.
pub fn palette_file(serialized: Result<Vec<u8>, Box<bincode::ErrorKind>>) -> (res: Result<
    Vec<u8>,
    &'static str,
>)
    ensures
        match res {
            Ok(bytes) => serialized is Ok && is_counted(serialized->Ok_0@) && bytes@
                == serialized->Ok_0@.skip(8),
            Err(message) => !(serialized is Ok && is_counted(serialized->Ok_0@)) && message@
                == PALETTE_FAILED@,
        },
{
    match serialized {
        Ok(bytes) => match palette_payload(bytes.as_slice()) {
            Some(rest) => Ok(rest),
            None => Err(PALETTE_FAILED),
        },
        Err(_) => Err(PALETTE_FAILED),
    }
}

/// The palette file of a palette: its words, two bytes each, the low byte
/// first. It is there for every palette.
pub fn palette_bytes(palette: &[SNESColor]) -> (res: Result<Vec<u8>, &'static str>)
    ensures
        res matches Ok(bytes) && bytes@ == word_bytes(words_of(palette@)),
{
    let words: Vec<u16> = palette_words(palette);
    palette_file(serialize_words(&words))
}

} // verus!
