//! Scalar and point key material: canonical 32-byte little-endian encodings,
//! validity rules, and arithmetic in the prime-order curve group.
//!
//! A scalar is canonical when its value is below the group order; a point
//! encoding is canonical when its field coordinate is below the field prime
//! and the coordinates lie on the curve.  The curve arithmetic itself is
//! done by `curve25519-dalek` behind trusted wrappers; every validity rule
//! is checked explicitly here.

use vstd::prelude::*;
use vstd::arithmetic::div_mod::lemma_mod_bound;
use vstd::slice::slice_to_vec;
use crate::le_bytes_val;
use crate::le_bytes_of;

verus! {

/// Order of the prime-order subgroup of the curve: two to the 252nd power
/// plus 27742317777372353535851937790883648493.
pub open spec fn group_order() -> nat {
    7237005577332262213973186563042994240857116359379907606001950938285454250989nat
}

/// Whether a 32-byte point encoding carries a field coordinate below the
/// field prime.  The prime's little-endian bytes are `0xed`, thirty bytes
/// of `0xff`, then `0x7f`; the top bit of the last byte is the sign bit
/// and takes no part in the comparison.  Only encodings that match that
/// top pattern can reach or exceed the prime.
pub open spec fn y_canonical(s: Seq<u8>) -> bool {
    !((s[31] & 0x7f) == 0x7f && (forall|i: int| 1 <= i <= 30 ==> #[trigger] s[i] == 0xff) && s[0]
        >= 0xed)
}

/// What `CompressedEdwardsY::decompress` accepts: the encoding names a
/// point on the curve.
pub uninterp spec fn is_point_enc(s: Seq<u8>) -> bool;

/// The compressed sum of the two points named by the argument encodings.
pub uninterp spec fn pt_add(a: Seq<u8>, b: Seq<u8>) -> Seq<u8>;

/// The compressed difference of the two points named by the argument
/// encodings.
pub uninterp spec fn pt_sub(a: Seq<u8>, b: Seq<u8>) -> Seq<u8>;

/// The compressed product of the scalar with the point named by `p`.
pub uninterp spec fn pt_mul(s: Seq<u8>, p: Seq<u8>) -> Seq<u8>;

/// The compressed product of the scalar with the fixed base point.
pub uninterp spec fn pt_base(s: Seq<u8>) -> Seq<u8>;

/// Whether the encoding names a point of small order (order 1, 2, 4 or 8).
pub uninterp spec fn is_small_order_enc(s: Seq<u8>) -> bool;

/// Whether the encoding names the identity element.
pub uninterp spec fn is_identity_enc(s: Seq<u8>) -> bool;

/// Error raised by key parsing and key arithmetic.
#[derive(Debug, Clone, Copy, PartialEq, Eq, Structural)]
pub enum Error {
    /// The encoding is not exactly 32 bytes.
    InvalidLength,
    /// The encoding is not the canonical byte form of its value.
    NotCanonical,
    /// The coordinates do not satisfy the curve equation.
    NotOnCurve,
    /// The point is degenerate: the identity or of small order.
    IsIdentity,
}

/// Relies on `curve25519_dalek::scalar::Scalar::from_canonical_bytes`:
/// it accepts exactly the little-endian encodings of values below the
/// group order.
#[verifier::external_body]
pub(crate) fn scalar_canonical_check(b: &Vec<u8>) -> (r: bool)
    requires
        b@.len() == 32,
    ensures
        r == (le_bytes_val(b@) < group_order()),
{
    let arr: [u8; 32] = b.as_slice().try_into().unwrap();
    bool::from(curve25519_dalek::scalar::Scalar::from_canonical_bytes(arr).is_some())
}

/// Relies on `curve25519_dalek::scalar::Scalar`'s addition: arithmetic is
/// modulo the group order and `to_bytes` returns the canonical encoding.
#[verifier::external_body]
pub(crate) fn scalar_add_raw(a: &Vec<u8>, b: &Vec<u8>) -> (r: Vec<u8>)
    requires
        a@.len() == 32,
        b@.len() == 32,
        le_bytes_val(a@) < group_order(),
        le_bytes_val(b@) < group_order(),
    ensures
        r@ == le_bytes_of((le_bytes_val(a@) + le_bytes_val(b@)) % group_order(), 32),
        le_bytes_val(r@) == (le_bytes_val(a@) + le_bytes_val(b@)) % group_order(),
        r@.len() == 32,
{
    let x = curve25519_dalek::scalar::Scalar::from_canonical_bytes(
        a.as_slice().try_into().unwrap(),
    ).unwrap();
    let y = curve25519_dalek::scalar::Scalar::from_canonical_bytes(
        b.as_slice().try_into().unwrap(),
    ).unwrap();
    (x + y).to_bytes().to_vec()
}

/// Relies on `curve25519_dalek::scalar::Scalar`'s subtraction: arithmetic
/// is modulo the group order and `to_bytes` returns the canonical encoding.
#[verifier::external_body]
pub(crate) fn scalar_sub_raw(a: &Vec<u8>, b: &Vec<u8>) -> (r: Vec<u8>)
    requires
        a@.len() == 32,
        b@.len() == 32,
        le_bytes_val(a@) < group_order(),
        le_bytes_val(b@) < group_order(),
    ensures
        r@ == le_bytes_of(
            (((le_bytes_val(a@) + group_order()) - le_bytes_val(b@)) as nat) % group_order(),
            32,
        ),
        le_bytes_val(r@) == (((le_bytes_val(a@) + group_order()) - le_bytes_val(b@)) as nat)
            % group_order(),
        r@.len() == 32,
{
    let x = curve25519_dalek::scalar::Scalar::from_canonical_bytes(
        a.as_slice().try_into().unwrap(),
    ).unwrap();
    let y = curve25519_dalek::scalar::Scalar::from_canonical_bytes(
        b.as_slice().try_into().unwrap(),
    ).unwrap();
    (x - y).to_bytes().to_vec()
}

/// Relies on `curve25519_dalek::scalar::Scalar::from(u64)`: the value is
/// stored as its canonical little-endian encoding.
#[verifier::external_body]
pub(crate) fn scalar_from_u64(v: u64) -> (r: Vec<u8>)
    ensures
        r@ == le_bytes_of(v as nat, 32),
        le_bytes_val(r@) == v as nat,
        r@.len() == 32,
{
    curve25519_dalek::scalar::Scalar::from(v).to_bytes().to_vec()
}

/// Relies on `curve25519_dalek::scalar::Scalar::from_bytes_mod_order_wide`:
/// the 64-byte little-endian value is reduced modulo the group order.
#[verifier::external_body]
pub(crate) fn scalar_reduce_wide(w: &Vec<u8>) -> (r: Vec<u8>)
    requires
        w@.len() == 64,
    ensures
        r@ == le_bytes_of(le_bytes_val(w@) % group_order(), 32),
        le_bytes_val(r@) == le_bytes_val(w@) % group_order(),
        r@.len() == 32,
{
    let arr: [u8; 64] = w.as_slice().try_into().unwrap();
    curve25519_dalek::scalar::Scalar::from_bytes_mod_order_wide(&arr).to_bytes().to_vec()
}

/// Relies on `curve25519_dalek::scalar::Scalar::from_bytes_mod_order`: the
/// 32-byte little-endian value is reduced modulo the group order.
#[verifier::external_body]
pub(crate) fn scalar_reduce32(b: &Vec<u8>) -> (r: Vec<u8>)
    requires
        b@.len() == 32,
    ensures
        r@ == le_bytes_of(le_bytes_val(b@) % group_order(), 32),
        le_bytes_val(r@) == le_bytes_val(b@) % group_order(),
        r@.len() == 32,
{
    let arr: [u8; 32] = b.as_slice().try_into().unwrap();
    curve25519_dalek::scalar::Scalar::from_bytes_mod_order(arr).to_bytes().to_vec()
}

/// Relies on `rand::thread_rng` and `fill_bytes`: fills the buffer from a
/// cryptographically secure source.  Nothing is promised of the contents.
#[verifier::external_body]
pub(crate) fn random_bytes_64() -> (r: Vec<u8>)
    ensures
        r@.len() == 64,
{
    let mut b = vec![0u8; 64];
    rand::RngCore::fill_bytes(&mut rand::thread_rng(), &mut b[..]);
    b
}

/// Relies on `curve25519_dalek::edwards::CompressedEdwardsY::decompress`:
/// it returns a point exactly when the encoding names one on the curve.
#[verifier::external_body]
pub(crate) fn point_check(b: &Vec<u8>) -> (r: bool)
    requires
        b@.len() == 32,
    ensures
        r == is_point_enc(b@),
{
    let arr: [u8; 32] = b.as_slice().try_into().unwrap();
    curve25519_dalek::edwards::CompressedEdwardsY(arr).decompress().is_some()
}

/// Relies on `curve25519_dalek::edwards::EdwardsPoint` addition and
/// `compress`: the sum of two curve points compresses to a canonical
/// encoding of a curve point.  Where both operands are Pedersen
/// commitments, the group law makes the sum the commitment to the summed
/// amounts and blinding factors.
#[verifier::external_body]
pub(crate) fn point_add_raw(a: &Vec<u8>, b: &Vec<u8>) -> (r: Vec<u8>)
    requires
        a@.len() == 32,
        b@.len() == 32,
        is_point_enc(a@),
        is_point_enc(b@),
    ensures
        r@ == pt_add(a@, b@),
        is_point_enc(r@),
        y_canonical(r@),
        r@.len() == 32,
        forall|a1: nat, b1: nat, a2: nat, b2: nat|
            a1 <= u64::MAX && a2 <= u64::MAX && b1 < group_order() && b2 < group_order() && a@
                == #[trigger] crate::ringct::commit_enc(a1, b1) && b@
                == #[trigger] crate::ringct::commit_enc(a2, b2) ==> r@
                == crate::ringct::commit_enc((a1 + a2) as nat, (b1 + b2) % group_order()),
{
    let x = curve25519_dalek::edwards::CompressedEdwardsY(a.as_slice().try_into().unwrap())
        .decompress().unwrap();
    let y = curve25519_dalek::edwards::CompressedEdwardsY(b.as_slice().try_into().unwrap())
        .decompress().unwrap();
    (x + y).compress().to_bytes().to_vec()
}

/// Relies on `curve25519_dalek::edwards::EdwardsPoint` subtraction and
/// `compress`.
#[verifier::external_body]
pub(crate) fn point_sub_raw(a: &Vec<u8>, b: &Vec<u8>) -> (r: Vec<u8>)
    requires
        a@.len() == 32,
        b@.len() == 32,
        is_point_enc(a@),
        is_point_enc(b@),
    ensures
        r@ == pt_sub(a@, b@),
        is_point_enc(r@),
        y_canonical(r@),
        r@.len() == 32,
{
    let x = curve25519_dalek::edwards::CompressedEdwardsY(a.as_slice().try_into().unwrap())
        .decompress().unwrap();
    let y = curve25519_dalek::edwards::CompressedEdwardsY(b.as_slice().try_into().unwrap())
        .decompress().unwrap();
    (x - y).compress().to_bytes().to_vec()
}

/// Relies on `curve25519_dalek` scalar-point multiplication and `compress`.
#[verifier::external_body]
pub(crate) fn point_mul_raw(s: &Vec<u8>, p: &Vec<u8>) -> (r: Vec<u8>)
    requires
        s@.len() == 32,
        p@.len() == 32,
        le_bytes_val(s@) < group_order(),
        is_point_enc(p@),
    ensures
        r@ == pt_mul(s@, p@),
        is_point_enc(r@),
        y_canonical(r@),
        r@.len() == 32,
{
    let x = curve25519_dalek::scalar::Scalar::from_canonical_bytes(
        s.as_slice().try_into().unwrap(),
    ).unwrap();
    let y = curve25519_dalek::edwards::CompressedEdwardsY(p.as_slice().try_into().unwrap())
        .decompress().unwrap();
    (x * y).compress().to_bytes().to_vec()
}

/// Relies on `curve25519_dalek::edwards::EdwardsPoint::mul_base` and
/// `compress`.
#[verifier::external_body]
pub(crate) fn point_mul_base_raw(s: &Vec<u8>) -> (r: Vec<u8>)
    requires
        s@.len() == 32,
        le_bytes_val(s@) < group_order(),
    ensures
        r@ == pt_base(s@),
        is_point_enc(r@),
        y_canonical(r@),
        r@.len() == 32,
{
    let x = curve25519_dalek::scalar::Scalar::from_canonical_bytes(
        s.as_slice().try_into().unwrap(),
    ).unwrap();
    curve25519_dalek::edwards::EdwardsPoint::mul_base(&x).compress().to_bytes().to_vec()
}

/// Relies on `curve25519_dalek::edwards::EdwardsPoint::is_small_order`.
#[verifier::external_body]
pub(crate) fn point_small_order_check(b: &Vec<u8>) -> (r: bool)
    requires
        b@.len() == 32,
        is_point_enc(b@),
    ensures
        r == is_small_order_enc(b@),
{
    let arr: [u8; 32] = b.as_slice().try_into().unwrap();
    curve25519_dalek::edwards::CompressedEdwardsY(arr).decompress().unwrap().is_small_order()
}

/// Relies on `curve25519_dalek::traits::IsIdentity`.
#[verifier::external_body]
pub(crate) fn point_identity_check(b: &Vec<u8>) -> (r: bool)
    requires
        b@.len() == 32,
        is_point_enc(b@),
    ensures
        r == is_identity_enc(b@),
{
    let arr: [u8; 32] = b.as_slice().try_into().unwrap();
    let p = curve25519_dalek::edwards::CompressedEdwardsY(arr).decompress().unwrap();
    curve25519_dalek::traits::IsIdentity::is_identity(&p)
}

/// A canonical scalar: 32 little-endian bytes of a value below the group
/// order.
pub struct Scalar {
    bytes: Vec<u8>,
}

impl Scalar {
    /// The scalar's canonical byte encoding.
    pub closed spec fn view(self) -> Seq<u8> {
        self.bytes@
    }

    /// The scalar's numeric value.
    pub open spec fn value(self) -> nat {
        le_bytes_val(self@)
    }

    /// Well-formed: exactly 32 bytes encoding a value below the group
    /// order.
    pub open spec fn wf(self) -> bool {
        self@.len() == 32 && self.value() < group_order()
    }

    /// Parses a canonical 32-byte scalar encoding; the stored bytes are the
    /// input bytes unchanged.
    pub fn parse(bytes: &[u8]) -> (r: Result<Scalar, Error>)
        ensures
            r is Ok <==> bytes@.len() == 32 && le_bytes_val(bytes@) < group_order(),
            r is Ok ==> r->Ok_0@ == bytes@ && r->Ok_0.wf(),
            r == Err::<Scalar, Error>(Error::InvalidLength) <==> bytes@.len() != 32,
            r == Err::<Scalar, Error>(Error::NotCanonical) <==> bytes@.len() == 32
                && le_bytes_val(bytes@) >= group_order(),
    {
        if bytes.len() != 32 {
            return Err(Error::InvalidLength);
        }
        let v = slice_to_vec(bytes);
        if !scalar_canonical_check(&v) {
            return Err(Error::NotCanonical);
        }
        Ok(Scalar { bytes: v })
    }

    /// The canonical encoding back out; parsing then encoding is the
    /// identity on the bytes.
    pub fn to_bytes(&self) -> (r: Vec<u8>)
        ensures
            r@ == self@,
    {
        slice_to_vec(self.bytes.as_slice())
    }

    /// An independently owned copy.
    pub fn duplicate(&self) -> (r: Scalar)
        ensures
            r@ == self@,
    {
        Scalar { bytes: slice_to_vec(self.bytes.as_slice()) }
    }

    /// The stored bytes, for the crate's own composition.
    pub(crate) fn raw(&self) -> (r: &Vec<u8>)
        ensures
            r@ == self@,
    {
        &self.bytes
    }

    /// Sum modulo the group order.
    pub fn add(&self, other: &Scalar) -> (r: Scalar)
        requires
            self.wf(),
            other.wf(),
        ensures
            r.wf(),
            r.value() == (self.value() + other.value()) % group_order(),
            r@ == le_bytes_of((self.value() + other.value()) % group_order(), 32),
    {
        let b = scalar_add_raw(&self.bytes, &other.bytes);
        proof {
            lemma_mod_bound((self.value() + other.value()) as int, group_order() as int);
        }
        Scalar { bytes: b }
    }

    /// Difference modulo the group order.
    pub fn sub(&self, other: &Scalar) -> (r: Scalar)
        requires
            self.wf(),
            other.wf(),
        ensures
            r.wf(),
            r.value() == (((self.value() + group_order()) - other.value()) as nat) % group_order(),
    {
        let b = scalar_sub_raw(&self.bytes, &other.bytes);
        proof {
            lemma_mod_bound(
                (((self.value() + group_order()) - other.value()) as nat) as int,
                group_order() as int,
            );
        }
        Scalar { bytes: b }
    }

    /// The scalar with the given small value.
    pub fn from_u64(v: u64) -> (r: Scalar)
        ensures
            r.wf(),
            r.value() == v as nat,
            r@ == le_bytes_of(v as nat, 32),
    {
        let b = scalar_from_u64(v);
        Scalar { bytes: b }
    }

    /// A scalar drawn uniformly below the group order from a secure source.
    /// Nothing is promised of its value beyond well-formedness.
    pub fn random() -> (r: Scalar)
        ensures
            r.wf(),
    {
        let w = random_bytes_64();
        let b = scalar_reduce_wide(&w);
        proof {
            lemma_mod_bound(le_bytes_val(w@) as int, group_order() as int);
        }
        Scalar { bytes: b }
    }
}

impl PartialEq for Scalar {
    /// Two scalars are equal exactly when their canonical encodings are.
    fn eq(&self, other: &Scalar) -> (r: bool) {
        crate::bytes_eq(&self.bytes, &other.bytes)
    }
}

impl vstd::std_specs::cmp::PartialEqSpecImpl for Scalar {
    open spec fn obeys_eq_spec() -> bool {
        true
    }

    open spec fn eq_spec(&self, other: &Scalar) -> bool {
        self@ == other@
    }
}

/// A point of the curve group, held as its canonical 32-byte compressed
/// encoding.
pub struct Point {
    bytes: Vec<u8>,
}

impl Point {
    /// The point's compressed byte encoding.
    pub closed spec fn view(self) -> Seq<u8> {
        self.bytes@
    }

    /// Well-formed: 32 bytes, coordinate below the field prime, on the
    /// curve.
    pub open spec fn wf(self) -> bool {
        self@.len() == 32 && y_canonical(self@) && is_point_enc(self@)
    }

    /// Parses a canonical compressed point encoding; the stored bytes are
    /// the input bytes unchanged.
    pub fn parse(bytes: &[u8]) -> (r: Result<Point, Error>)
        ensures
            r is Ok <==> bytes@.len() == 32 && y_canonical(bytes@) && is_point_enc(bytes@),
            r is Ok ==> r->Ok_0@ == bytes@ && r->Ok_0.wf(),
            r == Err::<Point, Error>(Error::InvalidLength) <==> bytes@.len() != 32,
            r == Err::<Point, Error>(Error::NotCanonical) <==> bytes@.len() == 32 && !y_canonical(
                bytes@,
            ),
            r == Err::<Point, Error>(Error::NotOnCurve) <==> bytes@.len() == 32 && y_canonical(
                bytes@,
            ) && !is_point_enc(bytes@),
    {
        if bytes.len() != 32 {
            return Err(Error::InvalidLength);
        }
        let v = slice_to_vec(bytes);
        if !y_canonical_check(&v) {
            return Err(Error::NotCanonical);
        }
        if !point_check(&v) {
            return Err(Error::NotOnCurve);
        }
        Ok(Point { bytes: v })
    }

    /// Parses a point for use as a public key: additionally rejects the
    /// identity and the other small-order points as degenerate.
    pub fn parse_public_key(bytes: &[u8]) -> (r: Result<Point, Error>)
        ensures
            r is Ok <==> bytes@.len() == 32 && y_canonical(bytes@) && is_point_enc(bytes@)
                && !is_small_order_enc(bytes@),
            r is Ok ==> r->Ok_0@ == bytes@ && r->Ok_0.wf(),
            r == Err::<Point, Error>(Error::IsIdentity) <==> bytes@.len() == 32 && y_canonical(
                bytes@,
            ) && is_point_enc(bytes@) && is_small_order_enc(bytes@),
    {
        let p = match Point::parse(bytes) {
            Ok(p) => p,
            Err(e) => {
                return Err(e);
            },
        };
        if point_small_order_check(&p.bytes) {
            return Err(Error::IsIdentity);
        }
        Ok(p)
    }

    /// The canonical encoding back out; parsing then encoding is the
    /// identity on the bytes.
    pub fn to_bytes(&self) -> (r: Vec<u8>)
        ensures
            r@ == self@,
    {
        slice_to_vec(self.bytes.as_slice())
    }

    /// An independently owned copy.
    pub fn duplicate(&self) -> (r: Point)
        ensures
            r@ == self@,
    {
        Point { bytes: slice_to_vec(self.bytes.as_slice()) }
    }

    /// The stored bytes, for the crate's own composition.
    pub(crate) fn raw(&self) -> (r: &Vec<u8>)
        ensures
            r@ == self@,
    {
        &self.bytes
    }

    /// Wraps bytes already known to be a canonical curve point encoding.
    pub(crate) fn from_raw(bytes: Vec<u8>) -> (r: Point)
        requires
            bytes@.len() == 32,
            y_canonical(bytes@),
            is_point_enc(bytes@),
        ensures
            r@ == bytes@,
            r.wf(),
    {
        Point { bytes }
    }

    /// Group addition.
    pub fn add(&self, other: &Point) -> (r: Point)
        requires
            self.wf(),
            other.wf(),
        ensures
            r.wf(),
            r@ == pt_add(self@, other@),
    {
        Point { bytes: point_add_raw(&self.bytes, &other.bytes) }
    }

    /// Group subtraction.
    pub fn sub(&self, other: &Point) -> (r: Point)
        requires
            self.wf(),
            other.wf(),
        ensures
            r.wf(),
            r@ == pt_sub(self@, other@),
    {
        Point { bytes: point_sub_raw(&self.bytes, &other.bytes) }
    }

    /// Scalar multiplication.
    pub fn scalar_mul(&self, s: &Scalar) -> (r: Point)
        requires
            self.wf(),
            s.wf(),
        ensures
            r.wf(),
            r@ == pt_mul(s@, self@),
    {
        Point { bytes: point_mul_raw(&s.bytes, &self.bytes) }
    }

    /// The base point multiplied by the scalar: the public key of `s`.
    pub fn mul_base(s: &Scalar) -> (r: Point)
        requires
            s.wf(),
        ensures
            r.wf(),
            r@ == pt_base(s@),
    {
        Point { bytes: point_mul_base_raw(&s.bytes) }
    }

    /// Whether the point is the identity element.
    pub fn is_identity(&self) -> (r: bool)
        requires
            self.wf(),
        ensures
            r == is_identity_enc(self@),
    {
        point_identity_check(&self.bytes)
    }

    /// Whether the point is of small order.
    pub fn is_small_order(&self) -> (r: bool)
        requires
            self.wf(),
        ensures
            r == is_small_order_enc(self@),
    {
        point_small_order_check(&self.bytes)
    }
}

impl PartialEq for Point {
    /// Two points are equal exactly when their canonical encodings are.
    fn eq(&self, other: &Point) -> (r: bool) {
        crate::bytes_eq(&self.bytes, &other.bytes)
    }
}

impl vstd::std_specs::cmp::PartialEqSpecImpl for Point {
    open spec fn obeys_eq_spec() -> bool {
        true
    }

    open spec fn eq_spec(&self, other: &Point) -> bool {
        self@ == other@
    }
}

/// Exec check of `y_canonical`.
#[verifier::loop_isolation(false)]
fn y_canonical_check(b: &Vec<u8>) -> (r: bool)
    requires
        b@.len() == 32,
    ensures
        r == y_canonical(b@),
{
    if (b[31] & 0x7f) != 0x7f {
        return true;
    }
    if b[0] < 0xed {
        return true;
    }
    let mut i: usize = 1;
    while i <= 30
        invariant
            1 <= i <= 31,
            forall|k: int| 1 <= k < i ==> #[trigger] b@[k] == 0xff,
        decreases 31 - i,
    {
        if b[i] != 0xff {
            return true;
        }
        i = i + 1;
    }
    false
}

/// A private scalar together with its public point.
pub struct KeyPair {
    secret: Scalar,
    public: Point,
}

impl KeyPair {
    /// The secret scalar's encoding.
    pub closed spec fn secret_view(self) -> Seq<u8> {
        self.secret@
    }

    /// The public point's encoding.
    pub closed spec fn public_view(self) -> Seq<u8> {
        self.public@
    }

    /// Well-formed: both halves well-formed and the public point derived
    /// from the secret scalar.
    pub closed spec fn wf(self) -> bool {
        self.secret.wf() && self.public.wf() && self.public_view() == pt_base(self.secret_view())
    }

    /// Derives the pair of a given secret scalar.
    pub fn from_secret(secret: Scalar) -> (r: KeyPair)
        requires
            secret.wf(),
        ensures
            r.wf(),
            r.secret_view() == secret@,
    {
        let public = Point::mul_base(&secret);
        KeyPair { secret, public }
    }

    /// Draws a fresh random key pair.
    pub fn random() -> (r: KeyPair)
        ensures
            r.wf(),
    {
        KeyPair::from_secret(Scalar::random())
    }

    /// The secret scalar.
    pub fn secret(&self) -> (r: &Scalar)
        ensures
            r@ == self.secret_view(),
    {
        &self.secret
    }

    /// The public point.
    pub fn public(&self) -> (r: &Point)
        ensures
            r@ == self.public_view(),
    {
        &self.public
    }
}

} // verus!
