//! SHA-256 digests and their lower-case hexadecimal text.

use sha2::{Digest, Sha256};
use vstd::prelude::*;

use crate::text::string_of_chars;

verus! {

/// The SHA-256 digest of a byte string, as sha2 computes it.
pub uninterp spec fn sha256(data: Seq<u8>) -> [u8; 32];

/// `Sha256::digest` of sha2, as an array of its 32 bytes. Claimed: the
/// result is `sha256` of the input.
#[verifier::external_body]
fn sha256_digest(data: &[u8]) -> (d: [u8; 32])
    ensures
        d == sha256(data@),
{
    Sha256::digest(data).into()
}

/// The lower-case hexadecimal digit for `v < 16`, as an ASCII byte.
pub open spec fn hex_digit(v: u8) -> u8 {
    if v < 10 {
        (48 + v) as u8
    } else {
        (87 + v) as u8
    }
}

/// Lower-case hexadecimal of a byte string, two ASCII digits per byte,
/// high nibble first.
pub open spec fn hex_lower(d: Seq<u8>) -> Seq<u8> {
    Seq::new(
        2 * d.len(),
        |i: int|
            if i % 2 == 0 {
                hex_digit(d[i / 2] / 16)
            } else {
                hex_digit(d[i / 2] % 16)
            },
    )
}

/// A lower-case hexadecimal digit, as an ASCII byte.
pub open spec fn is_hex_digit(b: u8) -> bool {
    (48 <= b && b <= 57) || (97 <= b && b <= 102)
}

/// Hexadecimal text is made of hexadecimal digits, two per byte.
#[verifier::spinoff_prover]
pub proof fn lemma_hex_digits(d: Seq<u8>)
    ensures
        hex_lower(d).len() == 2 * d.len(),
        forall|k: int| 0 <= k < hex_lower(d).len() ==> is_hex_digit(#[trigger] hex_lower(d)[k]),
{
}

/// The characters of an ASCII byte string.
pub open spec fn chars_of_ascii(s: Seq<u8>) -> Seq<char> {
    s.map_values(|b: u8| b as char)
}

/// The lower-case hexadecimal of a byte string, such as a digest.
#[verifier::spinoff_prover]
pub fn hex_lower_bytes(d: &[u8]) -> (out: Vec<u8>)
    ensures
        out@ == hex_lower(d@),
{
    let mut out: Vec<u8> = Vec::new();
    let n = d.len();
    let mut i: usize = 0;
    while i < n
        invariant
            i <= n,
            n == d@.len(),
            out@ =~= hex_lower(d@.take(i as int)),
        decreases n - i,
    {
        let b = d[i];
        let hi = b / 16;
        let lo = b % 16;
        let h: u8 = if hi < 10 { 48 + hi } else { 87 + hi };
        let l: u8 = if lo < 10 { 48 + lo } else { 87 + lo };
        out.push(h);
        out.push(l);
        proof {
            assert(d@.take(i + 1).take(i as int) =~= d@.take(i as int));
            assert(out@ =~= hex_lower(d@.take(i + 1)));
        }
        i = i + 1;
    }
    assert(d@.take(n as int) =~= d@);
    out
}

/// Lower-case hexadecimal of the SHA-256 digest of `bytes`, as ASCII bytes.
#[verifier::spinoff_prover]
pub(crate) fn sha256_hex_bytes(bytes: &[u8]) -> (out: Vec<u8>)
    ensures
        out@ == hex_lower(sha256(bytes@)@),
        out@.len() == 64,
{
    let d = sha256_digest(bytes);
    hex_lower_bytes(d.as_slice())
}

/// Lower-case hexadecimal text of the SHA-256 digest of `bytes`.
#[verifier::spinoff_prover]
pub fn sha256_hex(bytes: &[u8]) -> (s: String)
    ensures
        s@ == chars_of_ascii(hex_lower(sha256(bytes@)@)),
{
    let h = sha256_hex_bytes(bytes);
    let mut chars: Vec<char> = Vec::new();
    let mut i: usize = 0;
    while i < h.len()
        invariant
            i <= h@.len(),
            chars@ =~= chars_of_ascii(h@.take(i as int)),
        decreases h@.len() - i,
    {
        chars.push(h[i] as char);
        proof {
            assert(h@.take(i + 1).take(i as int) =~= h@.take(i as int));
        }
        i = i + 1;
    }
    assert(h@.take(h@.len() as int) =~= h@);
    string_of_chars(chars)
}

} // verus!
