//! Core data types of a privacy-coin client library: elliptic-curve key
//! material, confidential-transaction (RingCT) structures, address encoding
//! with checksum, and fixed-point amount parsing.

pub mod address;
pub mod amount;
pub mod error;
pub mod key;
pub mod ringct;

pub use error::Error;

use vstd::prelude::*;

verus! {

/// Little-endian value of a byte sequence.
pub open spec fn le_bytes_val(s: Seq<u8>) -> nat
    decreases s.len(),
{
    if s.len() == 0 {
        0
    } else {
        s[0] as nat + 256 * le_bytes_val(s.drop_first())
    }
}

/// The `n`-byte little-endian encoding of `v` (truncated to `n` bytes).
pub open spec fn le_bytes_of(v: nat, n: nat) -> Seq<u8>
    decreases n,
{
    if n == 0 {
        Seq::empty()
    } else {
        seq![(v % 256) as u8] + le_bytes_of(v / 256, (n - 1) as nat)
    }
}

/// 256 to the `k`.
pub open spec fn pow256(k: nat) -> nat
    decreases k,
{
    if k == 0 {
        1
    } else {
        256 * pow256((k - 1) as nat)
    }
}

/// Encoding then reading back is the identity for values within range.
pub proof fn lemma_le_bytes_roundtrip(v: nat, n: nat)
    requires
        v < pow256(n),
    ensures
        le_bytes_of(v, n).len() == n,
        le_bytes_val(le_bytes_of(v, n)) == v,
    decreases n,
{
    if n == 0 {
    } else {
        assert(v / 256 < pow256((n - 1) as nat)) by {
            if v / 256 >= pow256((n - 1) as nat) {
                vstd::arithmetic::mul::lemma_mul_inequality(
                    pow256((n - 1) as nat) as int,
                    (v / 256) as int,
                    256,
                );
                vstd::arithmetic::div_mod::lemma_fundamental_div_mod(v as int, 256);
            }
        }
        lemma_le_bytes_roundtrip(v / 256, (n - 1) as nat);
        let s = le_bytes_of(v, n);
        assert(s.drop_first() =~= le_bytes_of(v / 256, (n - 1) as nat));
        assert(s[0] == (v % 256) as u8);
        vstd::arithmetic::div_mod::lemma_fundamental_div_mod(v as int, 256);
    }
}


/// What `sha3::Keccak256` digests a byte string to.
pub uninterp spec fn keccak256_of(data: Seq<u8>) -> Seq<u8>;

/// Relies on `sha3::Keccak256` (through the `Digest` trait): the digest is
/// 32 bytes and depends on the input bytes alone.
#[verifier::external_body]
pub(crate) fn keccak256(data: &Vec<u8>) -> (r: Vec<u8>)
    ensures
        r@ == keccak256_of(data@),
        r@.len() == 32,
{
    let d = <sha3::Keccak256 as sha3::Digest>::digest(data.as_slice());
    d.to_vec()
}

/// Whether two byte vectors hold the same bytes.
pub fn bytes_eq(a: &Vec<u8>, b: &Vec<u8>) -> (r: bool)
    ensures
        r == (a@ == b@),
{
    if a.len() != b.len() {
        return false;
    }
    let mut i: usize = 0;
    while i < a.len()
        invariant
            i <= a@.len(),
            a@.len() == b@.len(),
            forall|k: int| 0 <= k < i ==> a@[k] == b@[k],
        decreases a@.len() - i,
    {
        if a[i] != b[i] {
            return false;
        }
        i = i + 1;
    }
    proof {
        assert(a@ =~= b@);
    }
    true
}

/// Reading canonical bytes and re-encoding the value gives the bytes back.
pub proof fn lemma_le_bytes_of_val(s: Seq<u8>)
    ensures
        le_bytes_of(le_bytes_val(s), s.len()) == s,
    decreases s.len(),
{
    if s.len() > 0 {
        lemma_le_bytes_of_val(s.drop_first());
        let v = le_bytes_val(s);
        assert(v == s[0] as nat + 256 * le_bytes_val(s.drop_first()));
        assert(v % 256 == s[0] as nat && v / 256 == le_bytes_val(s.drop_first()))
            by (nonlinear_arith)
            requires
                v == s[0] as nat + 256 * le_bytes_val(s.drop_first()),
                s[0] < 256,
        ;
        assert(le_bytes_of(v, s.len()) == seq![(v % 256) as u8] + le_bytes_of(
            v / 256,
            (s.len() - 1) as nat,
        ));
        assert(seq![(v % 256) as u8] + s.drop_first() =~= s);
    }
}


/// 256 to each power up to eight, spelled out.
pub proof fn lemma_pow256_vals()
    ensures
        pow256(0) == 1,
        pow256(1) == 0x100,
        pow256(2) == 0x10000,
        pow256(3) == 0x1000000,
        pow256(4) == 0x100000000,
        pow256(5) == 0x10000000000,
        pow256(6) == 0x1000000000000,
        pow256(7) == 0x100000000000000,
        pow256(8) == 0x10000000000000000,
{
    assert(pow256(0) == 1);
    assert(pow256(1) == 0x100);
    assert(pow256(2) == 0x10000);
    assert(pow256(3) == 0x1000000);
    assert(pow256(4) == 0x100000000);
    assert(pow256(5) == 0x10000000000);
    assert(pow256(6) == 0x1000000000000);
    assert(pow256(7) == 0x100000000000000);
    assert(pow256(8) == 0x10000000000000000);
}

/// 256 to a power never shrinks as the power grows.
pub proof fn lemma_pow256_le(a: nat, b: nat)
    requires
        a <= b,
    ensures
        pow256(a) <= pow256(b),
    decreases b,
{
    if a < b {
        lemma_pow256_le(a, (b - 1) as nat);
        assert(pow256(b) == 256 * pow256((b - 1) as nat));
    }
}

} // verus!
