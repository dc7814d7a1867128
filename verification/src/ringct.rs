//! RingCT data model: Pedersen commitments, encrypted amounts, key images,
//! and structural validation of ring-signature containers.
//!
//! A commitment is `blinding * G + amount * H` for the fixed generators `G`
//! (the curve base point) and `H` (the protocol's second generator, whose
//! canonical encoding is a protocol constant).  Commitments add as points,
//! and the group law makes that addition homomorphic in the amounts and
//! blinding factors.

use vstd::prelude::*;
use crate::amount::Amount;
use crate::key::Scalar;
use crate::key::Point;
use crate::key::group_order;
use crate::key::is_point_enc;
use crate::key::is_identity_enc;
use crate::key::pt_add;
use crate::key::pt_mul;
use crate::key::pt_base;
use crate::le_bytes_val;
use crate::le_bytes_of;
use crate::keccak256_of;

verus! {

/// Error raised by RingCT construction and validation.
#[derive(Debug, Clone, Copy, PartialEq, Eq, Structural)]
pub enum Error {
    /// A derived point is the identity: a degenerate key.
    IsIdentity,
    /// A fixed generator failed to decode as a curve point.
    NotOnCurve,
    /// The counts in a signature container do not agree.
    ShapeMismatch,
}

/// Canonical encoding of the protocol's second generator `H`.
pub open spec fn h_enc() -> Seq<u8> {
    seq![
        0x8bu8, 0x65u8, 0x59u8, 0x70u8, 0x15u8, 0x37u8, 0x99u8, 0xafu8, 0x2au8, 0xeau8, 0xdcu8,
        0x9fu8, 0xf1u8, 0xadu8, 0xd0u8, 0xeau8, 0x6cu8, 0x72u8, 0x51u8, 0xd5u8, 0x41u8, 0x54u8,
        0xcfu8, 0xa9u8, 0x2cu8, 0x17u8, 0x3au8, 0x0du8, 0xd3u8, 0x9cu8, 0x1fu8, 0x94u8,
    ]
}

/// The commitment encoding for an amount and a blinding value:
/// `blinding * G + amount * H` in compressed form.
pub open spec fn commit_enc(amount: nat, blinding: nat) -> Seq<u8> {
    pt_add(pt_base(le_bytes_of(blinding, 32)), pt_mul(le_bytes_of(amount, 32), h_enc()))
}

/// The fixed domain-separation tag mixed into the amount keystream: the
/// ASCII bytes of the word `amount`.
pub open spec fn amount_tag() -> Seq<u8> {
    seq![0x61u8, 0x6du8, 0x6fu8, 0x75u8, 0x6eu8, 0x74u8]
}

/// The keystream an amount is masked with: the hash of the tag followed by
/// the shared secret's encoding.
pub open spec fn amount_keystream(secret: Seq<u8>) -> Seq<u8> {
    keccak256_of(amount_tag() + secret)
}

/// Byte-wise exclusive or, over the length of `a`.
pub open spec fn xor_bytes(a: Seq<u8>, b: Seq<u8>) -> Seq<u8> {
    Seq::new(a.len(), |i: int| a[i] ^ b[i])
}

/// The point an encoding is hashed to: the hash of the encoding, reduced
/// to a scalar, times the base point.
pub open spec fn hash_point_enc(pk: Seq<u8>) -> Seq<u8> {
    pt_base(le_bytes_of(le_bytes_val(keccak256_of(pk)) % group_order(), 32))
}

/// The key image of a one-time key: the private scalar times the hash
/// point of the public key.  A deterministic function of the two inputs.
pub open spec fn key_image_enc(sk: Seq<u8>, pk: Seq<u8>) -> Seq<u8> {
    pt_mul(sk, hash_point_enc(pk))
}

/// The second generator's bytes.
fn h_bytes() -> (r: Vec<u8>)
    ensures
        r@ == h_enc(),
        r@.len() == 32,
{
    let mut v: Vec<u8> = Vec::new();
    v.push(0x8b);
    v.push(0x65);
    v.push(0x59);
    v.push(0x70);
    v.push(0x15);
    v.push(0x37);
    v.push(0x99);
    v.push(0xaf);
    v.push(0x2a);
    v.push(0xea);
    v.push(0xdc);
    v.push(0x9f);
    v.push(0xf1);
    v.push(0xad);
    v.push(0xd0);
    v.push(0xea);
    v.push(0x6c);
    v.push(0x72);
    v.push(0x51);
    v.push(0xd5);
    v.push(0x41);
    v.push(0x54);
    v.push(0xcf);
    v.push(0xa9);
    v.push(0x2c);
    v.push(0x17);
    v.push(0x3a);
    v.push(0x0d);
    v.push(0xd3);
    v.push(0x9c);
    v.push(0x1f);
    v.push(0x94);
    proof {
        assert(v@ =~= h_enc());
    }
    v
}

/// A Pedersen commitment: a curve point binding an amount and a blinding
/// factor.
pub struct Commitment {
    point: Point,
}

impl Commitment {
    /// The commitment's compressed encoding.
    pub closed spec fn view(self) -> Seq<u8> {
        self.point@
    }

    /// Well-formed: a canonical curve point encoding.
    pub closed spec fn wf(self) -> bool {
        self.point.wf()
    }

    /// Commits to `amount` under `blinding`: `blinding * G + amount * H`.
    /// Succeeds whenever the generator constant decodes, which a test
    /// witnesses; nothing else can fail.
    pub fn commit(amount: Amount, blinding: &Scalar) -> (r: Result<Commitment, Error>)
        requires
            blinding.wf(),
        ensures
            r is Ok <==> is_point_enc(h_enc()),
            r is Ok ==> r->Ok_0@ == commit_enc(amount@, blinding.value()) && r->Ok_0.wf(),
            r is Err ==> r->Err_0 == Error::NotOnCurve,
    {
        let h = h_bytes();
        if !crate::key::point_check(&h) {
            return Err(Error::NotOnCurve);
        }
        let ab = crate::key::scalar_from_u64(amount.as_atomic());
        let a_h = crate::key::point_mul_raw(&ab, &h);
        let b_g = crate::key::point_mul_base_raw(blinding.raw());
        let sum = crate::key::point_add_raw(&b_g, &a_h);
        proof {
            crate::lemma_le_bytes_of_val(blinding@);
            assert(le_bytes_of(blinding.value(), 32) == blinding@);
        }
        Ok(Commitment { point: Point::from_raw(sum) })
    }

    /// Commits with a zero blinding factor, as miner and fee outputs do.
    pub fn commit_zero_blinding(amount: Amount) -> (r: Result<Commitment, Error>)
        ensures
            r is Ok <==> is_point_enc(h_enc()),
            r is Ok ==> r->Ok_0@ == commit_enc(amount@, 0) && r->Ok_0.wf(),
            r is Err ==> r->Err_0 == Error::NotOnCurve,
    {
        let zero = Scalar::from_u64(0);
        Commitment::commit(amount, &zero)
    }

    /// Adds two commitments as curve points.  Where the operands commit to
    /// `(a1, b1)` and `(a2, b2)`, the sum commits to the summed amounts
    /// under the summed blinding factors: the additive homomorphism.
    pub fn add(&self, other: &Commitment) -> (r: Commitment)
        requires
            self.wf(),
            other.wf(),
        ensures
            r.wf(),
            r@ == pt_add(self@, other@),
            forall|a1: nat, b1: nat, a2: nat, b2: nat|
                a1 <= u64::MAX && a2 <= u64::MAX && b1 < group_order() && b2 < group_order()
                    && self@ == #[trigger] commit_enc(a1, b1) && other@ == #[trigger] commit_enc(
                    a2,
                    b2,
                ) ==> r@ == commit_enc((a1 + a2) as nat, (b1 + b2) % group_order()),
    {
        let sum = crate::key::point_add_raw(self.point.raw(), other.point.raw());
        Commitment { point: Point::from_raw(sum) }
    }

    /// The commitment's 32-byte encoding.
    pub fn to_bytes(&self) -> (r: Vec<u8>)
        ensures
            r@ == self@,
    {
        self.point.to_bytes()
    }

    /// The commitment as a point.
    pub fn as_point(&self) -> (r: &Point)
        ensures
            r@ == self@,
    {
        &self.point
    }
}

/// A key image: the unique tag of a spent output key.
pub struct KeyImage {
    point: Point,
}

impl KeyImage {
    /// The key image's compressed encoding.
    pub closed spec fn view(self) -> Seq<u8> {
        self.point@
    }

    /// Well-formed: a canonical curve point encoding.
    pub closed spec fn wf(self) -> bool {
        self.point.wf()
    }

    /// The key image's 32-byte encoding.
    pub fn to_bytes(&self) -> (r: Vec<u8>)
        ensures
            r@ == self@,
    {
        self.point.to_bytes()
    }

    /// The key image as a point.
    pub fn as_point(&self) -> (r: &Point)
        ensures
            r@ == self@,
    {
        &self.point
    }
}

/// Computes the key image `sk * hash_to_point(pk)` of a one-time key.  The
/// result is a function of the two inputs alone, so repeated calls agree;
/// a degenerate identity result is rejected, never returned.
pub fn key_image(sk: &Scalar, pk: &Point) -> (r: Result<KeyImage, Error>)
    requires
        sk.wf(),
        pk.wf(),
    ensures
        r is Ok <==> !is_identity_enc(key_image_enc(sk@, pk@)),
        r is Ok ==> r->Ok_0@ == key_image_enc(sk@, pk@) && r->Ok_0.wf(),
        r is Err ==> r->Err_0 == Error::IsIdentity,
{
    let hash = crate::keccak256(pk.raw());
    let hs = crate::key::scalar_reduce32(&hash);
    let hp = crate::key::point_mul_base_raw(&hs);
    proof {
        vstd::arithmetic::div_mod::lemma_mod_bound(
            le_bytes_val(hash@) as int,
            group_order() as int,
        );
    }
    let ki = crate::key::point_mul_raw(sk.raw(), &hp);
    if crate::key::point_identity_check(&ki) {
        return Err(Error::IsIdentity);
    }
    Ok(KeyImage { point: Point::from_raw(ki) })
}

/// Masks an amount for the recipient: the 8 little-endian amount bytes,
/// XORed with the head of a keystream derived from the shared secret.
/// The same operation undoes itself, which `decrypt_amount` relies on.
#[verifier::loop_isolation(false)]
pub fn encrypt_amount(amount: Amount, secret: &Scalar) -> (r: Vec<u8>)
    requires
        secret.wf(),
    ensures
        r@ == xor_bytes(le_bytes_of(amount@, 8), amount_keystream(secret@).take(8)),
        r@.len() == 8,
{
    let ks = amount_keystream_bytes(secret);
    let ab = amount_le8(amount);
    let mut out: Vec<u8> = Vec::new();
    let mut i: usize = 0;
    while i < 8
        invariant
            i <= 8,
            out@ =~= xor_bytes(ab@, ks@.take(8)).take(i as int),
        decreases 8 - i,
    {
        out.push(ab[i] ^ ks[i]);
        proof {
            assert(out@ =~= xor_bytes(ab@, ks@.take(8)).take(i + 1));
        }
        i = i + 1;
    }
    proof {
        assert(out@ =~= xor_bytes(ab@, ks@.take(8)));
    }
    out
}

/// Unmasks an 8-byte encrypted amount with the shared secret.  The inverse
/// of `encrypt_amount` for the same secret.
#[verifier::loop_isolation(false)]
pub fn decrypt_amount(enc: &Vec<u8>, secret: &Scalar) -> (r: Amount)
    requires
        enc@.len() == 8,
        secret.wf(),
    ensures
        r@ == le_bytes_val(xor_bytes(enc@, amount_keystream(secret@).take(8))),
{
    let ks = amount_keystream_bytes(secret);
    let mut plain: Vec<u8> = Vec::new();
    let mut i: usize = 0;
    while i < 8
        invariant
            i <= 8,
            plain@ =~= xor_bytes(enc@, ks@.take(8)).take(i as int),
        decreases 8 - i,
    {
        plain.push(enc[i] ^ ks[i]);
        proof {
            assert(plain@ =~= xor_bytes(enc@, ks@.take(8)).take(i + 1));
        }
        i = i + 1;
    }
    proof {
        assert(plain@ =~= xor_bytes(enc@, ks@.take(8)));
    }
    let mut v: u64 = 0;
    let mut k: usize = 8;
    while k > 0
        invariant
            k <= 8,
            plain@.len() == 8,
            v as nat == le_bytes_val(plain@.subrange(k as int, 8)),
            v < crate::pow256((8 - k) as nat),
        decreases k,
    {
        proof {
            crate::lemma_pow256_vals();
            crate::lemma_pow256_le((8 - (k - 1)) as nat, 8);
            assert(plain@.subrange(k - 1, 8).drop_first() =~= plain@.subrange(k as int, 8));
            assert(crate::pow256((8 - (k - 1)) as nat) == 256 * crate::pow256((8 - k) as nat));
        }
        v = v * 256 + (plain[k - 1] as u64);
        k = k - 1;
    }
    proof {
        assert(plain@.subrange(0, 8) =~= plain@);
    }
    Amount::from_atomic(v)
}

/// Masking then unmasking with one secret restores the amount exactly.
pub proof fn lemma_amount_cipher_round_trip(amount: nat, secret: Seq<u8>)
    requires
        amount <= u64::MAX,
    ensures
        le_bytes_val(
            xor_bytes(
                xor_bytes(le_bytes_of(amount, 8), amount_keystream(secret).take(8)),
                amount_keystream(secret).take(8),
            ),
        ) == amount,
{
    let ab = le_bytes_of(amount, 8);
    let ks = amount_keystream(secret).take(8);
    crate::lemma_pow256_vals();
    crate::lemma_le_bytes_roundtrip(amount, 8);
    assert forall|i: int| 0 <= i < 8 implies #[trigger] xor_bytes(xor_bytes(ab, ks), ks)[i]
        == ab[i] by {
        let x = ab[i];
        let k = ks[i];
        assert((x ^ k) ^ k == x) by (bit_vector);
    }
    assert(xor_bytes(xor_bytes(ab, ks), ks) =~= ab);
}

/// The keystream bytes for a shared secret.
fn amount_keystream_bytes(secret: &Scalar) -> (r: Vec<u8>)
    ensures
        r@ == amount_keystream(secret@),
        r@.len() == 32,
{
    let mut data: Vec<u8> = Vec::new();
    data.push(0x61);
    data.push(0x6d);
    data.push(0x6f);
    data.push(0x75);
    data.push(0x6e);
    data.push(0x74);
    let sb = secret.to_bytes();
    let mut j: usize = 0;
    while j < sb.len()
        invariant
            j <= sb@.len(),
            sb@ == secret@,
            data@ =~= amount_tag() + sb@.take(j as int),
        decreases sb@.len() - j,
    {
        data.push(sb[j]);
        proof {
            assert(data@ =~= amount_tag() + sb@.take(j + 1));
        }
        j = j + 1;
    }
    proof {
        assert(data@ =~= amount_tag() + secret@);
    }
    crate::keccak256(&data)
}

/// The 8 little-endian bytes of an amount.
#[verifier::loop_isolation(false)]
fn amount_le8(amount: Amount) -> (r: Vec<u8>)
    ensures
        r@ == le_bytes_of(amount@, 8),
        r@.len() == 8,
{
    let mut v = amount.as_atomic();
    let ghost value = amount@;
    let mut out: Vec<u8> = Vec::new();
    let mut i: usize = 0;
    while i < 8
        invariant
            i <= 8,
            out@.len() == i,
            le_bytes_of(value, 8) =~= out@ + le_bytes_of(v as nat, (8 - i) as nat),
        decreases 8 - i,
    {
        proof {
            assert(le_bytes_of(v as nat, (8 - i) as nat) == seq![(v as nat % 256) as u8]
                + le_bytes_of(v as nat / 256, (8 - i - 1) as nat));
        }
        out.push((v % 256) as u8);
        v = v / 256;
        proof {
            assert(le_bytes_of(value, 8) =~= out@ + le_bytes_of(v as nat, (8 - i - 1) as nat));
        }
        i = i + 1;
    }
    proof {
        assert(le_bytes_of(value, 8) =~= out@);
    }
    out
}

/// The shape variant tag of a ring-signature container.
#[derive(Debug, Clone, Copy, PartialEq, Eq, Structural)]
pub enum RctVariant {
    /// No signature material at all.
    Null,
    /// One aggregate ring signature over all spent inputs.
    Full,
    /// One ring signature per spent input.
    Simple,
}

/// Checks that the counts of a ring-signature container agree for the
/// given variant: a null container is empty; a full or simple one has at
/// least one ring member, at least one spent input, and one commitment
/// per key image.  The scalar/point arithmetic of signature validity is
/// out of scope here.
pub fn check_signature_shape(
    variant: RctVariant,
    ring_members: usize,
    commitments: usize,
    key_images: usize,
) -> (r: Result<(), Error>)
    ensures
        r is Ok <==> (match variant {
            RctVariant::Null => ring_members == 0 && commitments == 0 && key_images == 0,
            RctVariant::Full | RctVariant::Simple => ring_members > 0 && key_images > 0
                && commitments == key_images,
        }),
        r is Err ==> r->Err_0 == Error::ShapeMismatch,
{
    let ok = match variant {
        RctVariant::Null => ring_members == 0 && commitments == 0 && key_images == 0,
        RctVariant::Full | RctVariant::Simple => ring_members > 0 && key_images > 0
            && commitments == key_images,
    };
    if !ok {
        return Err(Error::ShapeMismatch);
    }
    Ok(())
}

} // verus!
