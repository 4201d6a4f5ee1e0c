//! The stable identity of a project: the first four bytes of the SHA-256
//! digest of its root path, written as eight lowercase hexadecimal digits.

use vstd::prelude::*;
use vstd::string::StringSliceAdditionalSpecFns;
use crate::codec::hex_digit;
use crate::codec::hex_digit_char;
use crate::codec::push_char;

verus! {

/// What SHA-256 makes of a byte string. The digest depends on the bytes
/// alone.
pub uninterp spec fn sha256_of(bytes: Seq<u8>) -> Seq<u8>;

/// Computes the SHA-256 digest.
///
/// Relies on `sha2::Sha256` via the `Digest` trait (`digest`): the 32-byte
/// SHA-256 digest, a function of the input bytes alone.
#[verifier::external_body]
fn sha256_digest(data: &[u8]) -> (r: Vec<u8>)
    ensures
        r@ == sha256_of(data@),
        r@.len() == 32,
{
    <sha2::Sha256 as sha2::Digest>::digest(data).to_vec()
}

/// A byte as two lowercase hexadecimal digits.
pub open spec fn hex_byte(b: u8) -> Seq<char> {
    seq![hex_digit(b as int / 16), hex_digit(b as int % 16)]
}

/// The identity string for a project root path: the first four bytes of the
/// SHA-256 digest of the path's bytes, in lowercase hexadecimal — eight
/// characters.
pub fn project_id(project_root: &str) -> (r: String)
    ensures
        ({
            let d = sha256_of(project_root.spec_bytes());
            r@ == hex_byte(d[0]) + hex_byte(d[1]) + hex_byte(d[2]) + hex_byte(d[3])
        }),
        r@.len() == 8,
{
    let digest = sha256_digest(project_root.as_bytes());
    let ghost d = sha256_of(project_root.spec_bytes());
    let mut out = String::new();
    let mut i: usize = 0;
    while i < 4
        invariant
            digest@ == d,
            d.len() == 32,
            i <= 4,
            out@.len() == 2 * i,
            out@ == hex_prefix(d, i as int),
        decreases 4 - i,
    {
        let b = digest[i];
        push_char(&mut out, hex_digit_char(b as u32 / 16));
        push_char(&mut out, hex_digit_char(b as u32 % 16));
        proof {
            assert(out@ =~= hex_prefix(d, i as int) + hex_byte(d[i as int]));
            lemma_hex_prefix_snoc(d, i as int);
        }
        i = i + 1;
    }
    proof {
        assert(hex_prefix(d, 0) =~= Seq::<char>::empty());
        assert(hex_prefix(d, 1) =~= hex_prefix(d, 0) + hex_byte(d[0]));
        assert(hex_prefix(d, 2) =~= hex_prefix(d, 1) + hex_byte(d[1]));
        assert(hex_prefix(d, 3) =~= hex_prefix(d, 2) + hex_byte(d[2]));
        assert(hex_prefix(d, 4) =~= hex_prefix(d, 3) + hex_byte(d[3]));
        assert(hex_prefix(d, 4) =~= hex_byte(d[0]) + hex_byte(d[1]) + hex_byte(d[2]) + hex_byte(
            d[3],
        ));
    }
    out
}

/// The first `k` digest bytes in hexadecimal.
pub open spec fn hex_prefix(d: Seq<u8>, k: int) -> Seq<char>
    decreases k,
{
    if k <= 0 {
        Seq::empty()
    } else {
        hex_prefix(d, k - 1) + hex_byte(d[k - 1])
    }
}

/// One more byte extends the hexadecimal prefix by its two digits.
proof fn lemma_hex_prefix_snoc(d: Seq<u8>, i: int)
    requires
        0 <= i,
    ensures
        hex_prefix(d, i + 1) == hex_prefix(d, i) + hex_byte(d[i]),
{
}

} // verus!
