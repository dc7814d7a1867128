//! Address codec: block-wise Base58 with a 4-byte hash checksum over the
//! serialized (network tag, key material, optional payment id) tuple.
//!
//! The byte string is encoded in blocks: every full block of 8 input bytes
//! becomes 11 characters, and the final partial block of `n` bytes becomes
//! a fixed number of characters given by a lookup table, so the encoded
//! length is deterministic.  The last four payload bytes are a checksum:
//! the head of the hash of everything before them.

use vstd::prelude::*;
use crate::key::Point;
use crate::key::y_canonical;
use crate::key::is_point_enc;
use crate::keccak256_of;
use crate::pow256;

verus! {

/// Error raised while decoding or validating an address.
#[derive(Debug, Clone, Copy, PartialEq, Eq, Structural)]
pub enum Error {
    /// The recomputed checksum does not match the trailing bytes.
    ChecksumMismatch,
    /// The tag byte names no known (network, kind) combination.
    UnknownTag,
    /// A character outside the Base58 alphabet, a block that exceeds its
    /// range, or a length no block layout produces.
    MalformedBase58,
    /// The decoded byte string has a length no address form has.
    WrongLength,
    /// A key encoding inside an otherwise well-formed address is invalid.
    MalformedAddress,
}

/// The 58-character alphabet, in digit order.
pub open spec fn b58_alphabet() -> Seq<char> {
    seq![
        '1', '2', '3', '4', '5', '6', '7', '8', '9', 'A', 'B', 'C', 'D', 'E', 'F', 'G', 'H', 'J',
        'K', 'L', 'M', 'N', 'P', 'Q', 'R', 'S', 'T', 'U', 'V', 'W', 'X', 'Y', 'Z', 'a', 'b', 'c',
        'd', 'e', 'f', 'g', 'h', 'i', 'j', 'k', 'm', 'n', 'o', 'p', 'q', 'r', 's', 't', 'u', 'v',
        'w', 'x', 'y', 'z',
    ]
}

/// First index of `c` in `s`, or `-1` if it does not occur.
pub open spec fn seq_find(s: Seq<char>, c: char) -> int
    decreases s.len(),
{
    if s.len() == 0 {
        -1
    } else if s[0] == c {
        0
    } else if seq_find(s.drop_first(), c) < 0 {
        -1
    } else {
        seq_find(s.drop_first(), c) + 1
    }
}

/// The digit value of a character: its alphabet index, `-1` outside the
/// alphabet.
pub open spec fn b58_digit(c: char) -> int {
    seq_find(b58_alphabet(), c)
}

/// Whether every character of `s` is in the alphabet.
pub open spec fn b58_chars_ok(s: Seq<char>) -> bool {
    forall|i: int| 0 <= i < s.len() ==> b58_digit(#[trigger] s[i]) >= 0
}

/// Value of a big-endian run of Base58 digit characters.
pub open spec fn b58_chars_val(s: Seq<char>) -> nat
    decreases s.len(),
{
    if s.len() == 0 {
        0
    } else if b58_digit(s.last()) >= 0 {
        b58_chars_val(s.drop_last()) * 58 + b58_digit(s.last()) as nat
    } else {
        b58_chars_val(s.drop_last()) * 58
    }
}

/// Value of a big-endian byte run.
pub open spec fn bytes_be_val(s: Seq<u8>) -> nat
    decreases s.len(),
{
    if s.len() == 0 {
        0
    } else {
        bytes_be_val(s.drop_last()) * 256 + s.last() as nat
    }
}

/// The `n`-byte big-endian encoding of `v` (truncated to `n` bytes).
pub open spec fn be_bytes_of(v: nat, n: nat) -> Seq<u8>
    decreases n,
{
    if n == 0 {
        Seq::empty()
    } else {
        be_bytes_of(v / 256, (n - 1) as nat).push((v % 256) as u8)
    }
}

/// The fixed-width Base58 digits of `v`.
pub open spec fn b58_block_enc(v: nat, w: nat) -> Seq<char>
    decreases w,
{
    if w == 0 {
        Seq::empty()
    } else {
        b58_block_enc(v / 58, (w - 1) as nat).push(b58_alphabet()[(v % 58) as int])
    }
}

/// Encoded width of a partial block of `n` input bytes.
pub open spec fn enc_width(n: nat) -> nat {
    if n == 1 {
        2
    } else if n == 2 {
        3
    } else if n == 3 {
        5
    } else if n == 4 {
        6
    } else if n == 5 {
        7
    } else if n == 6 {
        9
    } else if n == 7 {
        10
    } else if n == 8 {
        11
    } else {
        0
    }
}

/// Input-byte count of a partial block of `c` characters, `-1` where no
/// count encodes to `c` characters.
pub open spec fn width_inv(c: nat) -> int {
    if c == 2 {
        1
    } else if c == 3 {
        2
    } else if c == 5 {
        3
    } else if c == 6 {
        4
    } else if c == 7 {
        5
    } else if c == 9 {
        6
    } else if c == 10 {
        7
    } else if c == 11 {
        8
    } else {
        -1
    }
}

/// Block-wise Base58 encoding of a byte string.
pub open spec fn b58_encode_sp(data: Seq<u8>) -> Seq<char>
    decreases data.len(),
{
    if data.len() == 0 {
        Seq::empty()
    } else if data.len() >= 8 {
        b58_block_enc(bytes_be_val(data.take(8)), 11) + b58_encode_sp(data.skip(8))
    } else {
        b58_block_enc(bytes_be_val(data), enc_width(data.len()))
    }
}

/// Block-wise Base58 decoding of a character string: `None` where a
/// character is outside the alphabet, a block value exceeds its byte
/// range, or the length fits no block layout.
pub open spec fn b58_decode_sp(s: Seq<char>) -> Option<Seq<u8>>
    decreases s.len(),
{
    if s.len() == 0 {
        Some(Seq::empty())
    } else if s.len() >= 11 {
        if b58_chars_ok(s.take(11)) && b58_chars_val(s.take(11)) < 0x10000000000000000 {
            match b58_decode_sp(s.skip(11)) {
                Some(rest) => Some(be_bytes_of(b58_chars_val(s.take(11)), 8) + rest),
                None => None,
            }
        } else {
            None
        }
    } else {
        let n = width_inv(s.len());
        if n >= 1 && b58_chars_ok(s) && b58_chars_val(s) < pow256(n as nat) {
            Some(be_bytes_of(b58_chars_val(s), n as nat))
        } else {
            None
        }
    }
}

/// Where the first occurrence of `c` in `s` stands; a negative answer
/// means `c` does not occur at all.
proof fn lemma_seq_find(s: Seq<char>, c: char)
    ensures
        seq_find(s, c) < 0 ==> forall|i: int| 0 <= i < s.len() ==> s[i] != c,
        seq_find(s, c) >= 0 ==> 0 <= seq_find(s, c) < s.len() && s[seq_find(s, c)] == c,
    decreases s.len(),
{
    if s.len() > 0 && s[0] != c {
        let t = s.drop_first();
        lemma_seq_find(t, c);
        if seq_find(s, c) < 0 {
            assert forall|i: int| 0 <= i < s.len() implies s[i] != c by {
                if i > 0 {
                    assert(t[i - 1] == s[i]);
                    assert(t[i - 1] != c);
                }
            }
        } else {
            assert(s[seq_find(s, c)] == t[seq_find(t, c)]);
        }
    }
}

/// The alphabet characters.
fn alphabet() -> (r: &'static str)
    ensures
        r@ == b58_alphabet(),
        r@.len() == 58,
{
    let a = "123456789ABCDEFGHJKLMNPQRSTUVWXYZabcdefghijkmnopqrstuvwxyz";
    proof {
        reveal_strlit("123456789ABCDEFGHJKLMNPQRSTUVWXYZabcdefghijkmnopqrstuvwxyz");
        assert(a@ =~= b58_alphabet());
    }
    a
}

/// The alphabet index of `c`, or `None` outside the alphabet.
#[verifier::loop_isolation(false)]
fn b58_digit_of(c: char) -> (r: Option<u64>)
    ensures
        r is Some <==> b58_digit(c) >= 0,
        r is Some ==> r->0 as int == b58_digit(c) && r->0 < 58,
{
    let a = alphabet();
    let mut d: usize = 0;
    proof {
        lemma_seq_find(b58_alphabet(), c);
    }
    while d < 58
        invariant
            d <= 58,
            forall|k: int| 0 <= k < d ==> b58_alphabet()[k] != c,
        decreases 58 - d,
    {
        if a.get_char(d) == c {
            proof {
                assert(b58_digit(c) == d as int);
            }
            return Some(d as u64);
        }
        d = d + 1;
    }
    None
}


/// 58 to the `k`.
pub open spec fn pow58(k: nat) -> nat
    decreases k,
{
    if k == 0 {
        1
    } else {
        58 * pow58((k - 1) as nat)
    }
}

proof fn lemma_pow58_pos(k: nat)
    ensures
        pow58(k) >= 1,
    decreases k,
{
    if k > 0 {
        lemma_pow58_pos((k - 1) as nat);
    }
}

/// Base-58 positional split over concatenation.
proof fn lemma_b58_val_concat(x: Seq<char>, y: Seq<char>)
    ensures
        b58_chars_val(x + y) == b58_chars_val(x) * pow58(y.len()) + b58_chars_val(y),
    decreases y.len(),
{
    if y.len() == 0 {
        assert(x + y =~= x);
        assert(pow58(0) == 1);
        assert(b58_chars_val(y) == 0);
        assert(b58_chars_val(x + y) == b58_chars_val(x) * 1 + 0);
    } else {
        lemma_b58_val_concat(x, y.drop_last());
        assert((x + y).drop_last() =~= x + y.drop_last());
        assert((x + y).last() == y.last());
        let p = pow58((y.len() - 1) as nat);
        assert((b58_chars_val(x) * p) * 58 == b58_chars_val(x) * (p * 58)) by (nonlinear_arith);
        assert(pow58(y.len()) == 58 * p);
        let d: nat = if b58_digit(y.last()) >= 0 {
            b58_digit(y.last()) as nat
        } else {
            0
        };
        assert(b58_chars_val(x + y) == (b58_chars_val(x) * p + b58_chars_val(y.drop_last())) * 58
            + d);
        assert(b58_chars_val(y) == b58_chars_val(y.drop_last()) * 58 + d);
        assert(b58_chars_val(x) * pow58(y.len()) == b58_chars_val(x) * (p * 58));
    }
}

/// A prefix of a digit run never exceeds the whole run's value.
proof fn lemma_b58_val_prefix(s: Seq<char>, i: int)
    requires
        0 <= i <= s.len(),
    ensures
        b58_chars_val(s.subrange(0, i)) <= b58_chars_val(s),
{
    let x = s.subrange(0, i);
    let y = s.subrange(i, s.len() as int);
    assert(s =~= x + y);
    lemma_b58_val_concat(x, y);
    lemma_pow58_pos(y.len());
    vstd::arithmetic::mul::lemma_mul_inequality(
        1,
        pow58(y.len()) as int,
        b58_chars_val(x) as int,
    );
}

proof fn lemma_b58_val_push(s: Seq<char>, c: char)
    requires
        b58_digit(c) >= 0,
    ensures
        b58_chars_val(s.push(c)) == b58_chars_val(s) * 58 + b58_digit(c),
{
    assert(s.push(c).drop_last() =~= s);
    assert(s.push(c).last() == c);
}

proof fn lemma_be_push(s: Seq<u8>, b: u8)
    ensures
        bytes_be_val(s.push(b)) == bytes_be_val(s) * 256 + b,
{
    assert(s.push(b).drop_last() =~= s);
    assert(s.push(b).last() == b);
}

/// A value read from `n` big-endian bytes stays below 256 to the `n`.
proof fn lemma_be_val_bound(s: Seq<u8>)
    ensures
        bytes_be_val(s) < pow256(s.len()),
    decreases s.len(),
{
    if s.len() == 0 {
        assert(pow256(0) == 1);
    } else {
        lemma_be_val_bound(s.drop_last());
        assert(pow256(s.len()) == 256 * pow256((s.len() - 1) as nat));
    }
}

/// Big-endian encoding then reading back is the identity within range.
proof fn lemma_be_roundtrip(v: nat, n: nat)
    requires
        v < pow256(n),
    ensures
        be_bytes_of(v, n).len() == n,
        bytes_be_val(be_bytes_of(v, n)) == v,
    decreases n,
{
    if n > 0 {
        assert(v / 256 < pow256((n - 1) as nat)) by {
            if v / 256 >= pow256((n - 1) as nat) {
                vstd::arithmetic::mul::lemma_mul_inequality(
                    pow256((n - 1) as nat) as int,
                    (v / 256) as int,
                    256,
                );
                vstd::arithmetic::div_mod::lemma_fundamental_div_mod(v as int, 256);
            }
        }
        lemma_be_roundtrip(v / 256, (n - 1) as nat);
        let s = be_bytes_of(v, n);
        assert(s.drop_last() =~= be_bytes_of(v / 256, (n - 1) as nat));
        assert(s.last() == (v % 256) as u8);
        vstd::arithmetic::div_mod::lemma_fundamental_div_mod(v as int, 256);
    }
}

/// Re-encoding the value of a valid digit run gives the run back.
proof fn lemma_b58_enc_of_val(s: Seq<char>)
    requires
        b58_chars_ok(s),
    ensures
        b58_block_enc(b58_chars_val(s), s.len()) == s,
    decreases s.len(),
{
    if s.len() > 0 {
        let c = s.last();
        let d = b58_digit(c);
        assert(d >= 0);
        lemma_seq_find(b58_alphabet(), c);
        assert(b58_alphabet()[d] == c);
        assert(d < 58) by {
            assert(b58_alphabet().len() == 58);
        }
        let v = b58_chars_val(s);
        assert(v == b58_chars_val(s.drop_last()) * 58 + d);
        assert(v % 58 == d && v / 58 == b58_chars_val(s.drop_last())) by (nonlinear_arith)
            requires
                v == b58_chars_val(s.drop_last()) * 58 + d,
                0 <= d < 58,
        ;
        assert(b58_chars_ok(s.drop_last())) by {
            assert(forall|i: int| 0 <= i < s.len() - 1 ==> s.drop_last()[i] == s[i]);
        }
        lemma_b58_enc_of_val(s.drop_last());
        assert(b58_block_enc(v, s.len()) == b58_block_enc(v / 58, (s.len() - 1) as nat).push(
            b58_alphabet()[(v % 58) as int],
        ));
        assert(s.drop_last().push(c) =~= s);
    }
}

/// Re-encoding what a string decodes to gives the string back: the decoder
/// accepts only the canonical block encoding of its result.
proof fn lemma_b58_enc_of_dec(s: Seq<char>)
    requires
        b58_decode_sp(s) is Some,
    ensures
        b58_encode_sp(b58_decode_sp(s)->0) == s,
    decreases s.len(),
{
    let b = b58_decode_sp(s)->0;
    if s.len() == 0 {
        assert(b =~= Seq::<u8>::empty());
    } else if s.len() >= 11 {
        let blk = s.take(11);
        let v = b58_chars_val(blk);
        let rest = b58_decode_sp(s.skip(11))->0;
        lemma_b58_enc_of_dec(s.skip(11));
        crate::lemma_pow256_vals();
        lemma_be_roundtrip(v, 8);
        assert(b == be_bytes_of(v, 8) + rest);
        assert(b.len() >= 8);
        assert(b.take(8) =~= be_bytes_of(v, 8));
        assert(b.skip(8) =~= rest);
        lemma_b58_enc_of_val(blk);
        assert(b58_encode_sp(b) == b58_block_enc(v, 11) + b58_encode_sp(rest));
        assert(b58_block_enc(v, 11) + s.skip(11) =~= s);
    } else {
        let n = width_inv(s.len());
        let v = b58_chars_val(s);
        lemma_be_roundtrip(v, n as nat);
        assert(b == be_bytes_of(v, n as nat));
        assert(b.len() == n);
        assert(1 <= n < 8);
        assert(enc_width(b.len()) == s.len());
        lemma_b58_enc_of_val(s);
        assert(b58_encode_sp(b) == b58_block_enc(v, s.len()));
    }
}


/// Appends the fixed-width Base58 digits of `v`.
fn push_b58(out: &mut String, v: u64, w: u64)
    requires
        w <= 11,
    ensures
        final(out)@ == old(out)@ + b58_block_enc(v as nat, w as nat),
    decreases w,
{
    if w > 0 {
        push_b58(out, v / 58, w - 1);
        let a = alphabet();
        let d = (v % 58) as usize;
        let ch = a.substring_ascii(d, d + 1);
        out.append(ch);
        proof {
            assert(ch@ =~= seq![b58_alphabet()[(v as nat % 58) as int]]);
            assert((old(out)@ + b58_block_enc((v / 58) as nat, (w - 1) as nat)) + ch@ =~= old(
                out,
            )@ + b58_block_enc(v as nat, w as nat));
        }
    }
}

/// Appends the `n`-byte big-endian encoding of `v`.
fn push_be_bytes(out: &mut Vec<u8>, v: u64, n: usize)
    requires
        n <= 8,
    ensures
        final(out)@ == old(out)@ + be_bytes_of(v as nat, n as nat),
    decreases n,
{
    if n > 0 {
        push_be_bytes(out, v / 256, n - 1);
        out.push((v % 256) as u8);
        proof {
            assert(old(out)@ + be_bytes_of((v / 256) as nat, (n - 1) as nat).push(
                (v as nat % 256) as u8,
            ) =~= (old(out)@ + be_bytes_of((v / 256) as nat, (n - 1) as nat)).push(
                (v as nat % 256) as u8,
            ));
        }
    }
}

/// Reads the big-endian value of `count` bytes of `data` at `from`.
#[verifier::loop_isolation(false)]
fn be_val_of(data: &Vec<u8>, from: usize, count: usize) -> (r: u64)
    requires
        from + count <= data@.len(),
        from + count <= usize::MAX,
        count <= 8,
    ensures
        r as nat == bytes_be_val(data@.subrange(from as int, (from + count) as int)),
{
    let ghost chunk = data@.subrange(from as int, (from + count) as int);
    let mut v: u64 = 0;
    let mut k: usize = 0;
    while k < count
        invariant
            k <= count,
            v as nat == bytes_be_val(chunk.take(k as int)),
            (v as nat) < pow256(k as nat),
        decreases count - k,
    {
        proof {
            crate::lemma_pow256_vals();
            crate::lemma_pow256_le((k + 1) as nat, 8);
            assert(chunk.take(k + 1) =~= chunk.take(k as int).push(chunk[k as int]));
            lemma_be_push(chunk.take(k as int), chunk[k as int]);
            assert(pow256((k + 1) as nat) == 256 * pow256(k as nat));
        }
        v = v * 256 + (data[from + k] as u64);
        k = k + 1;
    }
    proof {
        assert(chunk.take(count as int) =~= chunk);
    }
    v
}

/// Block-wise Base58 encoding of a byte string.
#[verifier::loop_isolation(false)]
pub fn base58_encode(data: &Vec<u8>) -> (r: String)
    ensures
        r@ == b58_encode_sp(data@),
{
    let mut out = String::from_str("");
    proof {
        reveal_strlit("");
        assert(out@ =~= Seq::<char>::empty());
    }
    let n = data.len();
    let mut i: usize = 0;
    proof {
        assert(data@.skip(0) =~= data@);
        assert(out@ + b58_encode_sp(data@) =~= b58_encode_sp(data@));
    }
    while n - i >= 8
        invariant
            i <= n,
            n == data@.len(),
            b58_encode_sp(data@) == out@ + b58_encode_sp(data@.skip(i as int)),
        decreases n - i,
    {
        let v = be_val_of(data, i, 8);
        proof {
            assert(data@.skip(i as int).take(8) =~= data@.subrange(i as int, i + 8));
        }
        push_b58(&mut out, v, 11);
        proof {
            assert(data@.skip(i as int).skip(8) =~= data@.skip(i + 8));
            assert(b58_encode_sp(data@.skip(i as int)) == b58_block_enc(v as nat, 11)
                + b58_encode_sp(data@.skip(i + 8)));
        }
        i = i + 8;
    }
    let m = n - i;
    if m > 0 {
        let v = be_val_of(data, i, m);
        proof {
            assert(data@.skip(i as int) =~= data@.subrange(i as int, (i + m) as int));
            assert(data@.skip(i as int).len() == m);
        }
        let w: u64 = if m == 1 {
            2
        } else if m == 2 {
            3
        } else if m == 3 {
            5
        } else if m == 4 {
            6
        } else if m == 5 {
            7
        } else if m == 6 {
            9
        } else {
            10
        };
        proof {
            assert(w as nat == enc_width(m as nat));
        }
        push_b58(&mut out, v, w);
        proof {
            assert(b58_encode_sp(data@.skip(i as int)) == b58_block_enc(v as nat, w as nat));
        }
    } else {
        proof {
            assert(data@.skip(i as int) =~= Seq::<u8>::empty());
            assert(b58_encode_sp(data@.skip(i as int)) == Seq::<char>::empty());
            assert(out@ + Seq::<char>::empty() =~= out@);
        }
    }
    out
}

/// Reads one Base58 block of `count` characters of `s` at `from`.
#[verifier::loop_isolation(false)]
fn decode_block(s: &str, from: usize, count: usize) -> (r: Result<u64, Error>)
    requires
        from + count <= s@.len(),
        from + count <= usize::MAX,
        count <= 11,
    ensures
        r is Ok <==> b58_chars_ok(s@.subrange(from as int, (from + count) as int))
            && b58_chars_val(s@.subrange(from as int, (from + count) as int))
            < 0x10000000000000000,
        r is Ok ==> r->Ok_0 as nat == b58_chars_val(
            s@.subrange(from as int, (from + count) as int),
        ),
        r is Err ==> r->Err_0 == Error::MalformedBase58,
{
    let ghost blk = s@.subrange(from as int, (from + count) as int);
    let mut v: u64 = 0;
    let mut k: usize = 0;
    while k < count
        invariant
            k <= count,
            b58_chars_ok(blk.take(k as int)),
            v as nat == b58_chars_val(blk.take(k as int)),
        decreases count - k,
    {
        let c = s.get_char(from + k);
        proof {
            assert(blk[k as int] == c);
            assert(blk.take(k + 1) =~= blk.take(k as int).push(c));
        }
        let d = match b58_digit_of(c) {
            Some(d) => d,
            None => {
                proof {
                    assert(!b58_chars_ok(blk));
                }
                return Err(Error::MalformedBase58);
            },
        };
        proof {
            lemma_b58_val_push(blk.take(k as int), c);
        }
        let v58 = match v.checked_mul(58) {
            Some(x) => x,
            None => {
                proof {
                    lemma_b58_val_prefix(blk, k + 1);
                }
                return Err(Error::MalformedBase58);
            },
        };
        let v2 = match v58.checked_add(d) {
            Some(x) => x,
            None => {
                proof {
                    lemma_b58_val_prefix(blk, k + 1);
                }
                return Err(Error::MalformedBase58);
            },
        };
        v = v2;
        k = k + 1;
    }
    proof {
        assert(blk.take(count as int) =~= blk);
    }
    Ok(v)
}

/// 256 to the `k` as a machine word, for small `k`.
#[verifier::loop_isolation(false)]
fn pow256_exec(k: u64) -> (r: u64)
    requires
        k <= 7,
    ensures
        r as nat == pow256(k as nat),
{
    let mut r: u64 = 1;
    let mut i: u64 = 0;
    while i < k
        invariant
            i <= k,
            r as nat == pow256(i as nat),
        decreases k - i,
    {
        proof {
            crate::lemma_pow256_vals();
            crate::lemma_pow256_le((i + 1) as nat, 7);
            assert(pow256((i + 1) as nat) == 256 * pow256(i as nat));
        }
        r = r * 256;
        i = i + 1;
    }
    r
}

/// Block-wise Base58 decoding of a string.  Succeeds exactly where the
/// string is a well-formed block encoding, and then returns the bytes it
/// canonically encodes.
#[verifier::loop_isolation(false)]
pub fn base58_decode(s: &str) -> (r: Result<Vec<u8>, Error>)
    ensures
        r is Ok <==> b58_decode_sp(s@) is Some,
        r is Ok ==> Some(r->Ok_0@) == b58_decode_sp(s@),
        r is Err ==> r->Err_0 == Error::MalformedBase58,
{
    let n = s.unicode_len();
    let mut out: Vec<u8> = Vec::new();
    let mut i: usize = 0;
    proof {
        assert(s@.skip(0) =~= s@);
        if b58_decode_sp(s@) is Some {
            assert(out@ + b58_decode_sp(s@)->0 =~= b58_decode_sp(s@)->0);
        }
    }
    while n - i >= 11
        invariant
            i <= n,
            n == s@.len(),
            b58_decode_sp(s@) is Some <==> b58_decode_sp(s@.skip(i as int)) is Some,
            b58_decode_sp(s@) is Some ==> b58_decode_sp(s@)->0 == out@ + b58_decode_sp(
                s@.skip(i as int),
            )->0,
        decreases n - i,
    {
        let ghost rem = s@.skip(i as int);
        proof {
            assert(rem.take(11) =~= s@.subrange(i as int, i + 11));
            assert(rem.skip(11) =~= s@.skip(i + 11));
        }
        let v = match decode_block(s, i, 11) {
            Ok(v) => v,
            Err(e) => {
                return Err(e);
            },
        };
        proof {
            crate::lemma_pow256_vals();
        }
        push_be_bytes(&mut out, v, 8);
        i = i + 11;
    }
    let m = n - i;
    let ghost rem = s@.skip(i as int);
    if m == 0 {
        proof {
            assert(rem =~= Seq::<char>::empty());
            assert(out@ + Seq::<u8>::empty() =~= out@);
        }
        return Ok(out);
    }
    let nb: usize = if m == 2 {
        1
    } else if m == 3 {
        2
    } else if m == 5 {
        3
    } else if m == 6 {
        4
    } else if m == 7 {
        5
    } else if m == 9 {
        6
    } else if m == 10 {
        7
    } else {
        return Err(Error::MalformedBase58);
    };
    proof {
        assert(rem.len() == m);
        assert(width_inv(m as nat) == nb as int);
        assert(rem =~= s@.subrange(i as int, (i + m) as int));
    }
    let v = match decode_block(s, i, m) {
        Ok(v) => v,
        Err(e) => {
            proof {
                crate::lemma_pow256_vals();
                crate::lemma_pow256_le(nb as nat, 7);
            }
            return Err(e);
        },
    };
    let bound = pow256_exec(nb as u64);
    if v >= bound {
        return Err(Error::MalformedBase58);
    }
    push_be_bytes(&mut out, v, nb);
    Ok(out)
}


/// The network an address belongs to.
#[derive(Debug, Clone, Copy, PartialEq, Eq, Structural)]
pub enum Network {
    /// The main network.
    Mainnet,
    /// The test network.
    Testnet,
    /// The staging network.
    Stagenet,
}

/// An 8-byte payment id carried by an integrated address.
pub struct PaymentId {
    /// The id's bytes; exactly 8 in a well-formed id.
    pub bytes: Vec<u8>,
}

impl PaymentId {
    /// The id's bytes.
    pub open spec fn view(self) -> Seq<u8> {
        self.bytes@
    }

    /// Well-formed: exactly 8 bytes.
    pub open spec fn wf(self) -> bool {
        self.bytes@.len() == 8
    }
}

/// The kind of an address: standard, integrated (with payment id), or
/// subaddress.
pub enum AddressType {
    /// A standard address.
    Standard,
    /// An integrated address carrying a payment id.
    Integrated(PaymentId),
    /// A subaddress.
    SubAddress,
}

/// An address: network, kind, and the two public keys.
pub struct Address {
    /// The network the address belongs to.
    pub network: Network,
    /// The address kind, with the payment id where integrated.
    pub addr_type: AddressType,
    /// The public spend key.
    pub public_spend: Point,
    /// The public view key.
    pub public_view: Point,
}

/// The tag byte of a (network, kind) combination.
pub open spec fn addr_tag(a: Address) -> u8 {
    match a.network {
        Network::Mainnet => match a.addr_type {
            AddressType::Standard => 18,
            AddressType::Integrated(_) => 19,
            AddressType::SubAddress => 42,
        },
        Network::Testnet => match a.addr_type {
            AddressType::Standard => 53,
            AddressType::Integrated(_) => 54,
            AddressType::SubAddress => 63,
        },
        Network::Stagenet => match a.addr_type {
            AddressType::Standard => 24,
            AddressType::Integrated(_) => 25,
            AddressType::SubAddress => 36,
        },
    }
}

/// Whether a tag byte names a known (network, kind) combination.
pub open spec fn tag_known(t: u8) -> bool {
    t == 18 || t == 19 || t == 42 || t == 53 || t == 54 || t == 63 || t == 24 || t == 25 || t == 36
}

/// Whether a tag byte names an integrated address.
pub open spec fn tag_integrated(t: u8) -> bool {
    t == 19 || t == 54 || t == 25
}

/// Well-formed: valid keys, and an 8-byte payment id where integrated.
pub open spec fn addr_wf(a: Address) -> bool {
    &&& a.public_spend.wf()
    &&& a.public_view.wf()
    &&& match a.addr_type {
        AddressType::Integrated(id) => id.wf(),
        _ => true,
    }
}

/// The serialized pre-checksum payload: tag, spend key, view key, and the
/// payment id where integrated.
pub open spec fn addr_payload(a: Address) -> Seq<u8> {
    seq![addr_tag(a)] + a.public_spend@ + a.public_view@ + (match a.addr_type {
        AddressType::Integrated(id) => id@,
        _ => Seq::empty(),
    })
}

/// The first four bytes of a byte string, as a 4-byte run.
pub open spec fn head4(s: Seq<u8>) -> Seq<u8> {
    Seq::new(4, |i: int| s[i])
}

/// The full serialized byte string: payload plus 4-byte hash checksum.
pub open spec fn addr_bytes(a: Address) -> Seq<u8> {
    addr_payload(a) + head4(keccak256_of(addr_payload(a)))
}

/// The canonical address text.
pub open spec fn addr_text(a: Address) -> Seq<char> {
    b58_encode_sp(addr_bytes(a))
}

/// Whether serialized address bytes pass the checksum: the head of the
/// hash of everything before the last 4 bytes equals those bytes.
pub open spec fn checksum_ok(b: Seq<u8>) -> bool {
    head4(keccak256_of(b.take(b.len() - 4))) == b.skip(b.len() - 4)
}

/// Whether the kind the tag names agrees with the byte length, and both
/// key encodings are canonical curve points.
pub open spec fn body_ok(b: Seq<u8>) -> bool {
    &&& (tag_integrated(b[0]) <==> b.len() == 77)
    &&& y_canonical(b.subrange(1, 33))
    &&& is_point_enc(b.subrange(1, 33))
    &&& y_canonical(b.subrange(33, 65))
    &&& is_point_enc(b.subrange(33, 65))
}

/// Appends all of `src` to `out`.
#[verifier::loop_isolation(false)]
fn push_all(out: &mut Vec<u8>, src: &Vec<u8>)
    ensures
        final(out)@ == old(out)@ + src@,
{
    let mut k: usize = 0;
    while k < src.len()
        invariant
            k <= src@.len(),
            out@ =~= old(out)@ + src@.take(k as int),
        decreases src@.len() - k,
    {
        out.push(src[k]);
        proof {
            assert(old(out)@ + src@.take(k + 1) =~= (old(out)@ + src@.take(k as int)).push(
                src@[k as int],
            ));
        }
        k = k + 1;
    }
    proof {
        assert(src@.take(src@.len() as int) =~= src@);
    }
}

/// Copies `v[from..to]` into a fresh vector.
#[verifier::loop_isolation(false)]
fn vec_range(v: &Vec<u8>, from: usize, to: usize) -> (r: Vec<u8>)
    requires
        from <= to <= v@.len(),
    ensures
        r@ == v@.subrange(from as int, to as int),
{
    let mut out: Vec<u8> = Vec::new();
    let mut k: usize = from;
    while k < to
        invariant
            from <= k <= to,
            out@ =~= v@.subrange(from as int, k as int),
        decreases to - k,
    {
        out.push(v[k]);
        proof {
            assert(v@.subrange(from as int, k + 1) =~= v@.subrange(from as int, k as int).push(
                v@[k as int],
            ));
        }
        k = k + 1;
    }
    out
}

impl Address {
    /// A standard address.
    pub fn standard(network: Network, public_spend: Point, public_view: Point) -> (r: Address)
        requires
            public_spend.wf(),
            public_view.wf(),
        ensures
            addr_wf(r),
            r.network == network,
            r.addr_type is Standard,
            r.public_spend@ == public_spend@,
            r.public_view@ == public_view@,
    {
        Address { network, addr_type: AddressType::Standard, public_spend, public_view }
    }

    /// An integrated address carrying a payment id.
    pub fn integrated(
        network: Network,
        public_spend: Point,
        public_view: Point,
        payment_id: PaymentId,
    ) -> (r: Address)
        requires
            public_spend.wf(),
            public_view.wf(),
            payment_id.wf(),
        ensures
            addr_wf(r),
            r.network == network,
            r.addr_type matches AddressType::Integrated(id) && id@ == payment_id@,
            r.public_spend@ == public_spend@,
            r.public_view@ == public_view@,
    {
        Address {
            network,
            addr_type: AddressType::Integrated(payment_id),
            public_spend,
            public_view,
        }
    }

    /// A subaddress.
    pub fn subaddress(network: Network, public_spend: Point, public_view: Point) -> (r: Address)
        requires
            public_spend.wf(),
            public_view.wf(),
        ensures
            addr_wf(r),
            r.network == network,
            r.addr_type is SubAddress,
            r.public_spend@ == public_spend@,
            r.public_view@ == public_view@,
    {
        Address { network, addr_type: AddressType::SubAddress, public_spend, public_view }
    }

    /// The address's tag byte.
    pub fn tag(&self) -> (r: u8)
        ensures
            r == addr_tag(*self),
    {
        match self.network {
            Network::Mainnet => match self.addr_type {
                AddressType::Standard => 18,
                AddressType::Integrated(_) => 19,
                AddressType::SubAddress => 42,
            },
            Network::Testnet => match self.addr_type {
                AddressType::Standard => 53,
                AddressType::Integrated(_) => 54,
                AddressType::SubAddress => 63,
            },
            Network::Stagenet => match self.addr_type {
                AddressType::Standard => 24,
                AddressType::Integrated(_) => 25,
                AddressType::SubAddress => 36,
            },
        }
    }

    /// Serializes the address and encodes it: tag, keys and payment id,
    /// a 4-byte hash checksum, then block-wise Base58.
    pub fn encode(&self) -> (r: String)
        requires
            addr_wf(*self),
        ensures
            r@ == addr_text(*self),
    {
        let mut payload: Vec<u8> = Vec::new();
        payload.push(self.tag());
        proof {
            assert(payload@ =~= seq![addr_tag(*self)]);
        }
        let sp = self.public_spend.to_bytes();
        push_all(&mut payload, &sp);
        let vw = self.public_view.to_bytes();
        push_all(&mut payload, &vw);
        match &self.addr_type {
            AddressType::Integrated(id) => {
                push_all(&mut payload, &id.bytes);
                proof {
                    assert(payload@ =~= addr_payload(*self));
                }
            },
            _ => {
                proof {
                    assert(payload@ =~= addr_payload(*self));
                }
            },
        }
        let ck = crate::keccak256(&payload);
        let mut full = vec_range(&payload, 0, payload.len());
        proof {
            assert(full@ =~= addr_payload(*self));
        }
        full.push(ck[0]);
        full.push(ck[1]);
        full.push(ck[2]);
        full.push(ck[3]);
        proof {
            assert(full@ =~= addr_payload(*self) + head4(keccak256_of(addr_payload(*self))));
        }
        base58_encode(&full)
    }

    /// Decodes address text: Base58 blocks, then length, checksum, tag,
    /// kind consistency, and key validity, each failure with its own
    /// error.  A decoded address re-encodes to exactly the input.
    pub fn decode(s: &str) -> (r: Result<Address, Error>)
        ensures
            r is Ok <==> (b58_decode_sp(s@) matches Some(b) && (b.len() == 69 || b.len() == 77)
                && checksum_ok(b) && tag_known(b[0]) && body_ok(b)),
            r is Ok ==> addr_wf(r->Ok_0) && addr_text(r->Ok_0) == s@ && Some(
                addr_bytes(r->Ok_0),
            ) == b58_decode_sp(s@),
            r == Err::<Address, Error>(Error::MalformedBase58) <==> b58_decode_sp(s@) is None,
            r == Err::<Address, Error>(Error::WrongLength) <==> (b58_decode_sp(s@) matches Some(b)
                && !(b.len() == 69 || b.len() == 77)),
            r == Err::<Address, Error>(Error::ChecksumMismatch) <==> (b58_decode_sp(s@)
                matches Some(b) && (b.len() == 69 || b.len() == 77) && !checksum_ok(b)),
            r == Err::<Address, Error>(Error::UnknownTag) <==> (b58_decode_sp(s@) matches Some(b)
                && (b.len() == 69 || b.len() == 77) && checksum_ok(b) && !tag_known(b[0])),
            r == Err::<Address, Error>(Error::MalformedAddress) <==> (b58_decode_sp(s@)
                matches Some(b) && (b.len() == 69 || b.len() == 77) && checksum_ok(b)
                && tag_known(b[0]) && !body_ok(b)),
    {
        let bytes = match base58_decode(s) {
            Ok(b) => b,
            Err(e) => {
                return Err(e);
            },
        };
        let n = bytes.len();
        if n != 69 && n != 77 {
            return Err(Error::WrongLength);
        }
        let payload = vec_range(&bytes, 0, n - 4);
        let check = vec_range(&bytes, n - 4, n);
        let ck = crate::keccak256(&payload);
        let ck4 = vec_range(&ck, 0, 4);
        proof {
            assert(bytes@.take(n - 4) =~= bytes@.subrange(0, n - 4));
            assert(bytes@.skip(n - 4) =~= bytes@.subrange(n - 4, n as int));
            assert(head4(ck@) =~= ck@.subrange(0, 4));
        }
        if !crate::bytes_eq(&ck4, &check) {
            return Err(Error::ChecksumMismatch);
        }
        let tag = bytes[0];
        let known = tag == 18 || tag == 19 || tag == 42 || tag == 53 || tag == 54 || tag == 63
            || tag == 24 || tag == 25 || tag == 36;
        if !known {
            return Err(Error::UnknownTag);
        }
        let integrated = tag == 19 || tag == 54 || tag == 25;
        if integrated != (n == 77) {
            return Err(Error::MalformedAddress);
        }
        let spend_bytes = vec_range(&bytes, 1, 33);
        let view_bytes = vec_range(&bytes, 33, 65);
        let public_spend = match Point::parse(spend_bytes.as_slice()) {
            Ok(p) => p,
            Err(_) => {
                return Err(Error::MalformedAddress);
            },
        };
        let public_view = match Point::parse(view_bytes.as_slice()) {
            Ok(p) => p,
            Err(_) => {
                return Err(Error::MalformedAddress);
            },
        };
        let network = if tag == 18 || tag == 19 || tag == 42 {
            Network::Mainnet
        } else if tag == 53 || tag == 54 || tag == 63 {
            Network::Testnet
        } else {
            Network::Stagenet
        };
        let addr_type = if integrated {
            AddressType::Integrated(PaymentId { bytes: vec_range(&bytes, 65, 73) })
        } else if tag == 42 || tag == 63 || tag == 36 {
            AddressType::SubAddress
        } else {
            AddressType::Standard
        };
        let a = Address { network, addr_type, public_spend, public_view };
        proof {
            assert(addr_tag(a) == bytes@[0]);
            assert(a.public_spend@ == bytes@.subrange(1, 33));
            assert(a.public_view@ == bytes@.subrange(33, 65));
            if integrated {
                assert(a.addr_type matches AddressType::Integrated(id) && id@ == bytes@.subrange(
                    65,
                    73,
                ));
                assert(addr_payload(a) == seq![addr_tag(a)] + a.public_spend@ + a.public_view@
                    + bytes@.subrange(65, 73));
            } else {
                assert(!(a.addr_type is Integrated));
                assert(addr_payload(a) == seq![addr_tag(a)] + a.public_spend@ + a.public_view@
                    + Seq::<u8>::empty());
            }
            assert(addr_payload(a).len() == n - 4);
            assert forall|i: int| 0 <= i < n - 4 implies addr_payload(a)[i] == bytes@.take(
                n - 4,
            )[i] by {
                if i == 0 {
                } else if i < 33 {
                    assert(addr_payload(a)[i] == bytes@.subrange(1, 33)[i - 1]);
                } else if i < 65 {
                    assert(addr_payload(a)[i] == bytes@.subrange(33, 65)[i - 33]);
                } else {
                    assert(addr_payload(a)[i] == bytes@.subrange(65, 73)[i - 65]);
                }
            }
            assert(addr_payload(a) =~= bytes@.take(n - 4));
            assert(addr_bytes(a) =~= bytes@);
            lemma_b58_enc_of_dec(s@);
        }
        Ok(a)
    }
}


proof fn lemma_pow58_vals()
    ensures
        pow58(2) == 3364,
        pow58(3) == 195112,
        pow58(5) == 656356768,
        pow58(6) == 38068692544,
        pow58(7) == 2207984167552,
        pow58(9) == 7427658739644928,
        pow58(10) == 430804206899405824,
        pow58(11) == 24986644000165537792,
{
    assert(pow58(0) == 1);
    assert(pow58(1) == 58);
    assert(pow58(2) == 3364);
    assert(pow58(3) == 195112);
    assert(pow58(4) == 11316496);
    assert(pow58(5) == 656356768);
    assert(pow58(6) == 38068692544);
    assert(pow58(7) == 2207984167552);
    assert(pow58(8) == 128063081718016);
    assert(pow58(9) == 7427658739644928);
    assert(pow58(10) == 430804206899405824);
    assert(pow58(11) == 24986644000165537792);
}

/// The alphabet has no repeated character, so every alphabet character
/// reads back as its own index.
proof fn lemma_alphabet_digit(d: int)
    requires
        0 <= d < 58,
    ensures
        b58_digit(b58_alphabet()[d]) == d,
{
    let a = b58_alphabet();
    let c = a[d];
    assert(forall|i: int, j: int| 0 <= i < j < 58 ==> a[i] != a[j]);
    lemma_seq_find(a, c);
    let f = seq_find(a, c);
    if f < 0 {
        assert(a[d] != c);
    } else {
        assert(a[f] == c);
        if f < d {
            assert(a[f] != a[d]);
        }
        if d < f {
            assert(a[d] != a[f]);
        }
    }
}

/// Reading the fixed-width digits of a value in range gives it back.
proof fn lemma_b58_dec_of_enc(v: nat, w: nat)
    requires
        v < pow58(w),
    ensures
        b58_block_enc(v, w).len() == w,
        b58_chars_ok(b58_block_enc(v, w)),
        b58_chars_val(b58_block_enc(v, w)) == v,
    decreases w,
{
    if w == 0 {
        assert(pow58(0) == 1);
    } else {
        assert(v / 58 < pow58((w - 1) as nat)) by {
            if v / 58 >= pow58((w - 1) as nat) {
                vstd::arithmetic::mul::lemma_mul_inequality(
                    pow58((w - 1) as nat) as int,
                    (v / 58) as int,
                    58,
                );
                vstd::arithmetic::div_mod::lemma_fundamental_div_mod(v as int, 58);
            }
        }
        lemma_b58_dec_of_enc(v / 58, (w - 1) as nat);
        let s = b58_block_enc(v, w);
        let d = (v % 58) as int;
        lemma_alphabet_digit(d);
        assert(s.drop_last() =~= b58_block_enc(v / 58, (w - 1) as nat));
        assert(s.last() == b58_alphabet()[d]);
        assert(b58_digit(s.last()) == d);
        vstd::arithmetic::div_mod::lemma_fundamental_div_mod(v as int, 58);
        assert forall|i: int| 0 <= i < s.len() implies b58_digit(#[trigger] s[i]) >= 0 by {
            if i < s.len() - 1 {
                assert(s[i] == s.drop_last()[i]);
            }
        }
    }
}

/// Re-encoding the big-endian value of a byte run gives the run back.
proof fn lemma_be_of_val(s: Seq<u8>)
    ensures
        be_bytes_of(bytes_be_val(s), s.len()) == s,
    decreases s.len(),
{
    if s.len() > 0 {
        let v = bytes_be_val(s);
        assert(v == bytes_be_val(s.drop_last()) * 256 + s.last());
        assert(v % 256 == s.last() as nat && v / 256 == bytes_be_val(s.drop_last()))
            by (nonlinear_arith)
            requires
                v == bytes_be_val(s.drop_last()) * 256 + s.last(),
                s.last() < 256,
        ;
        lemma_be_of_val(s.drop_last());
        assert(be_bytes_of(v, s.len()) == be_bytes_of(v / 256, (s.len() - 1) as nat).push(
            (v % 256) as u8,
        ));
        assert(be_bytes_of(v, s.len()) =~= s);
    }
}

/// Decoding what a byte string encodes to gives the bytes back: the block
/// encoding is lossless.
pub proof fn lemma_b58_dec_of_enc_bytes(b: Seq<u8>)
    ensures
        b58_decode_sp(b58_encode_sp(b)) == Some(b),
    decreases b.len(),
{
    lemma_pow58_vals();
    crate::lemma_pow256_vals();
    if b.len() == 0 {
        assert(b58_encode_sp(b) == Seq::<char>::empty());
        assert(b58_decode_sp(Seq::<char>::empty()) == Some(Seq::<u8>::empty()));
        assert(b =~= Seq::<u8>::empty());
    } else if b.len() >= 8 {
        let head = b.take(8);
        let v = bytes_be_val(head);
        lemma_be_val_bound(head);
        assert(v < pow256(8));
        assert(pow256(8) < pow58(11));
        lemma_b58_dec_of_enc(v, 11);
        lemma_b58_dec_of_enc_bytes(b.skip(8));
        let blk = b58_block_enc(v, 11);
        let rest = b58_encode_sp(b.skip(8));
        let s = b58_encode_sp(b);
        assert(s == blk + rest);
        assert(s.len() >= 11);
        assert(s.take(11) =~= blk);
        assert(s.skip(11) =~= rest);
        lemma_be_of_val(head);
        assert(be_bytes_of(v, 8) + b.skip(8) =~= b);
    } else {
        let v = bytes_be_val(b);
        let w = enc_width(b.len());
        lemma_be_val_bound(b);
        let s = b58_encode_sp(b);
        assert(s == b58_block_enc(v, w));
        assert(v < pow256(b.len()));
        assert(pow256(b.len()) <= pow58(w));
        lemma_b58_dec_of_enc(v, w);
        assert(s.len() == w);
        assert(1 <= b.len() <= 7);
        assert(width_inv(w) == b.len());
        assert(s.len() < 11);
        lemma_be_of_val(b);
    }
}


/// How the payload of a well-formed address reads back, field by field.
proof fn lemma_payload_parts(a: Address)
    requires
        addr_wf(a),
    ensures
        addr_payload(a).len() == (if a.addr_type is Integrated {
            73int
        } else {
            65int
        }),
        addr_payload(a)[0] == addr_tag(a),
        addr_payload(a).subrange(1, 33) == a.public_spend@,
        addr_payload(a).subrange(33, 65) == a.public_view@,
        a.addr_type matches AddressType::Integrated(id) ==> addr_payload(a).subrange(65, 73)
            == id@,
{
    let p = addr_payload(a);
    assert(p.subrange(1, 33) =~= a.public_spend@);
    assert(p.subrange(33, 65) =~= a.public_view@);
    match a.addr_type {
        AddressType::Integrated(id) => {
            assert(p.subrange(65, 73) =~= id@);
        },
        _ => {},
    }
}

/// Decoding the canonical text of a well-formed address succeeds: the
/// text block-decodes to the serialized bytes, whose length, checksum,
/// tag and body all pass.  Together with `Address::decode`'s contract
/// this says the decoder accepts every encoded address and returns one
/// with exactly the same serialized bytes.
pub proof fn lemma_address_round_trip(a: Address)
    requires
        addr_wf(a),
    ensures
        b58_decode_sp(addr_text(a)) == Some(addr_bytes(a)),
        addr_bytes(a).len() == 69 || addr_bytes(a).len() == 77,
        checksum_ok(addr_bytes(a)),
        tag_known(addr_bytes(a)[0]),
        body_ok(addr_bytes(a)),
{
    lemma_b58_dec_of_enc_bytes(addr_bytes(a));
    lemma_payload_parts(a);
    let p = addr_payload(a);
    let b = addr_bytes(a);
    assert(b.take(b.len() - 4) =~= p);
    assert(b.skip(b.len() - 4) =~= head4(keccak256_of(p)));
    assert(b[0] == addr_tag(a));
    assert(b.subrange(1, 33) =~= p.subrange(1, 33));
    assert(b.subrange(33, 65) =~= p.subrange(33, 65));
}

/// Equal serialized bytes mean equal address content: the serialization
/// is injective over well-formed addresses, so a decoded address carries
/// exactly the fields of the one that was encoded.
pub proof fn lemma_addr_bytes_injective(a1: Address, a2: Address)
    requires
        addr_wf(a1),
        addr_wf(a2),
        addr_bytes(a1) == addr_bytes(a2),
    ensures
        a1.network == a2.network,
        a1.addr_type is Standard <==> a2.addr_type is Standard,
        a1.addr_type is SubAddress <==> a2.addr_type is SubAddress,
        a1.public_spend@ == a2.public_spend@,
        a1.public_view@ == a2.public_view@,
        a1.addr_type matches AddressType::Integrated(id1) ==> (a2.addr_type
            matches AddressType::Integrated(id2) && id1@ == id2@),
{
    lemma_payload_parts(a1);
    lemma_payload_parts(a2);
    let b1 = addr_bytes(a1);
    let b2 = addr_bytes(a2);
    assert(addr_payload(a1).len() == addr_payload(a2).len()) by {
        if a1.addr_type is Integrated != (a2.addr_type is Integrated) {
            assert(b1.len() != b2.len());
        }
    }
    assert forall|i: int| 0 <= i < addr_payload(a1).len() implies addr_payload(a1)[i]
        == addr_payload(a2)[i] by {
        assert(addr_payload(a1)[i] == b1[i]);
        assert(addr_payload(a2)[i] == b2[i]);
        assert(b1[i] == b2[i]);
    }
    assert(addr_payload(a1) =~= addr_payload(a2));
    assert(addr_tag(a1) == addr_tag(a2));
}

} // verus!
