//! Content hashes of audio files: the BLAKE3 digest of the file's bytes,
//! written as lowercase hexadecimal. Songs are recognised by this hash.
use vstd::prelude::*;

verus! {

/// The 32-byte BLAKE3 digest of `data`.
pub uninterp spec fn blake3_digest(data: Seq<u8>) -> Seq<u8>;

/// Calls `blake3::hash`; returns the digest's bytes. The digest is named, not
/// restated; it is always 32 bytes long.
#[verifier::external_body]
fn blake3_hash(data: &[u8]) -> (d: Vec<u8>)
    ensures
        d@ == blake3_digest(data@),
        d@.len() == 32,
{
    blake3::hash(data).as_bytes().to_vec()
}

/// The lowercase hexadecimal digit for `v` (0..=15).
pub open spec fn hex_digit(v: int) -> char {
    if v < 10 {
        ('0' as int + v) as char
    } else {
        ('a' as int + (v - 10)) as char
    }
}

/// Lowercase hexadecimal, two digits per byte, high nibble first.
pub open spec fn hex_lower(bytes: Seq<u8>) -> Seq<char>
    decreases bytes.len(),
{
    if bytes.len() == 0 {
        Seq::empty()
    } else {
        hex_lower(bytes.drop_last()) + seq![hex_digit((bytes.last() / 16) as int), hex_digit((bytes.last() % 16) as int)]
    }
}

fn hex_char(v: u8) -> (c: char)
    requires
        v < 16,
    ensures
        c == hex_digit(v as int),
{
    if v < 10 {
        (48u8 + v) as char
    } else {
        (97u8 + (v - 10)) as char
    }
}

/// The hash of a file's contents: its BLAKE3 digest in lowercase hex
/// (64 characters).
pub fn content_hash(data: &[u8]) -> (h: String)
    ensures
        h@ == hex_lower(blake3_digest(data@)),
        h@.len() == 64,
{
    let d = blake3_hash(data);
    let mut h = String::new();
    let mut i: usize = 0;
    while i < d.len()
        invariant
            i <= d@.len(),
            d@.len() == 32,
            h@ == hex_lower(d@.take(i as int)),
            h@.len() == 2 * i,
        decreases d.len() - i,
    {
        let b = d[i];
        h.push(hex_char(b / 16));
        h.push(hex_char(b % 16));
        proof {
            assert(d@.take(i + 1).drop_last() == d@.take(i as int));
            assert(d@.take(i + 1).last() == b);
        }
        i = i + 1;
    }
    proof {
        assert(d@.take(32) == d@);
    }
    h
}

} // verus!
