//! The hash function of the ring: a deterministic map from strings to 64-bit
//! positions, taken from the first eight bytes of a SHA-256 digest read in
//! big-endian order.

use vstd::prelude::*;
use sha2::Digest;
use crate::text::str_chars;

verus! {

/// The SHA-256 digest (32 bytes) of the UTF-8 encoding of a character
/// sequence. The digest is a fixed public function of the input alone.
pub uninterp spec fn sha256_chars(s: Seq<char>) -> Seq<u8>;

/// Relies on sha2's `Sha256::digest`: the digest is a function of the input
/// bytes alone (hence of the characters alone), and is exactly 32 bytes long.
#[verifier::external_body]
pub(crate) fn sha256_of_chars(s: &Vec<char>) -> (r: Vec<u8>)
    ensures
        r@ == sha256_chars(s@),
        r@.len() == 32,
{
    let text: String = s.iter().collect();
    sha2::Sha256::digest(text.as_bytes()).to_vec()
}

/// The unsigned 64-bit value of eight bytes read in big-endian order.
pub open spec fn u64_from_be8(b: Seq<u8>) -> u64
    recommends
        b.len() == 8,
{
    (((b[0] as u64) * 0x100_0000_0000_0000)
        + ((b[1] as u64) * 0x1_0000_0000_0000)
        + ((b[2] as u64) * 0x100_0000_0000)
        + ((b[3] as u64) * 0x1_0000_0000)
        + ((b[4] as u64) * 0x100_0000)
        + ((b[5] as u64) * 0x1_0000)
        + ((b[6] as u64) * 0x100)
        + (b[7] as u64)) as u64
}

/// The ring position of a character sequence: the first eight digest bytes,
/// big-endian.
pub open spec fn position_of(s: Seq<char>) -> u64 {
    u64_from_be8(sha256_chars(s).take(8))
}

/// Computes the ring position of a key given as characters.
pub(crate) fn position_of_chars(s: &Vec<char>) -> (h: u64)
    ensures
        h == position_of(s@),
{
    let d = sha256_of_chars(s);
    let r: u64 = ((d[0] as u64) * 0x100_0000_0000_0000)
        + ((d[1] as u64) * 0x1_0000_0000_0000)
        + ((d[2] as u64) * 0x100_0000_0000)
        + ((d[3] as u64) * 0x1_0000_0000)
        + ((d[4] as u64) * 0x100_0000)
        + ((d[5] as u64) * 0x1_0000)
        + ((d[6] as u64) * 0x100)
        + (d[7] as u64);
    proof {
        let t = sha256_chars(s@).take(8);
        assert(forall|i: int| 0 <= i < 8 ==> t[i] == d@[i]);
    }
    r
}

/// Computes the ring position of a key: deterministic, stable across
/// processes, uniform over the 64-bit space.
pub fn get_node_for_key(input: &str) -> (h: u64)
    ensures
        h == position_of(input@),
{
    let cs = str_chars(input);
    position_of_chars(&cs)
}

} // verus!
