//! Fixed-point amount codec: parsing and formatting of atomic-unit amounts.
//!
//! An amount is a non-negative count of atomic units.  Text at the
//! parse/format boundary is a decimal string with at most `AMOUNT_SCALE`
//! fractional digits; the atomic value is the numeric value of the string
//! scaled by ten to the `AMOUNT_SCALE`.

use vstd::prelude::*;
use vstd::arithmetic::div_mod::lemma_fundamental_div_mod;
use vstd::arithmetic::mul::lemma_mul_is_associative;
use vstd::arithmetic::mul::lemma_mul_inequality;
use vstd::arithmetic::mul::lemma_mul_is_commutative;

verus! {

/// Number of fractional decimal digits in the textual amount format.
pub const AMOUNT_SCALE: u64 = 12;

/// Ten to the `AMOUNT_SCALE`: atomic units per whole coin.
pub const COIN: u64 = 1_000_000_000_000;

/// Error raised while parsing an amount string.
#[derive(Debug, Clone, Copy, PartialEq, Eq, Structural)]
pub enum ParsingError {
    /// A character other than a decimal digit or a single `.` was found,
    /// or the string holds no digit at all.
    InvalidCharacter,
    /// More fractional digits than `AMOUNT_SCALE`.
    ExcessPrecision,
    /// The value does not fit in 64 bits of atomic units.
    Overflow,
}

/// A non-negative amount in atomic units.
#[derive(Debug, Clone, Copy, PartialEq, Eq, Structural)]
pub struct Amount {
    atomic: u64,
}

/// Ten to the `k`.
pub open spec fn pow10(k: nat) -> nat
    decreases k,
{
    if k == 0 {
        1
    } else {
        10 * pow10((k - 1) as nat)
    }
}

/// Whether `c` is a decimal digit.
pub open spec fn is_digit(c: char) -> bool {
    c == '0' || c == '1' || c == '2' || c == '3' || c == '4' || c == '5' || c == '6' || c == '7'
        || c == '8' || c == '9'
}

/// Numeric value of a digit character (zero for anything else).
pub open spec fn digit_val(c: char) -> nat {
    if c == '1' {
        1
    } else if c == '2' {
        2
    } else if c == '3' {
        3
    } else if c == '4' {
        4
    } else if c == '5' {
        5
    } else if c == '6' {
        6
    } else if c == '7' {
        7
    } else if c == '8' {
        8
    } else if c == '9' {
        9
    } else {
        0
    }
}

/// Digit character for a value below ten (zero for anything larger).
pub open spec fn digit_char(d: nat) -> char {
    if d == 1 {
        '1'
    } else if d == 2 {
        '2'
    } else if d == 3 {
        '3'
    } else if d == 4 {
        '4'
    } else if d == 5 {
        '5'
    } else if d == 6 {
        '6'
    } else if d == 7 {
        '7'
    } else if d == 8 {
        '8'
    } else if d == 9 {
        '9'
    } else {
        '0'
    }
}

/// Whether every character of `s` is a decimal digit.
pub open spec fn all_digits(s: Seq<char>) -> bool {
    forall|i: int| 0 <= i < s.len() ==> is_digit(#[trigger] s[i])
}

/// Value of a big-endian sequence of digit characters.
pub open spec fn digits_val(s: Seq<char>) -> nat
    decreases s.len(),
{
    if s.len() == 0 {
        0
    } else {
        digits_val(s.drop_last()) * 10 + digit_val(s.last())
    }
}

/// Index of the first `.` in `s`, or `-1` if there is none.
pub open spec fn first_dot(s: Seq<char>) -> int
    decreases s.len(),
{
    if s.len() == 0 {
        -1
    } else if s[0] == '.' {
        0
    } else if first_dot(s.drop_first()) < 0 {
        -1
    } else {
        first_dot(s.drop_first()) + 1
    }
}

/// The digits before the `.` (all of `s` if there is no `.`).
pub open spec fn int_part(s: Seq<char>) -> Seq<char> {
    if first_dot(s) < 0 {
        s
    } else {
        s.subrange(0, first_dot(s))
    }
}

/// The digits after the `.` (empty if there is no `.`).
pub open spec fn frac_part(s: Seq<char>) -> Seq<char> {
    if first_dot(s) < 0 {
        Seq::empty()
    } else {
        s.subrange(first_dot(s) + 1, s.len() as int)
    }
}

/// Whether `s` is made of digits around at most one `.`, with at least one
/// digit.  Precision and magnitude are judged separately.
pub open spec fn amount_chars_ok(s: Seq<char>) -> bool {
    &&& s.len() > 0
    &&& all_digits(int_part(s))
    &&& all_digits(frac_part(s))
    &&& int_part(s).len() + frac_part(s).len() > 0
}

/// Whether `s` is a well-formed amount string within the scale.
pub open spec fn amount_text_valid(s: Seq<char>) -> bool {
    amount_chars_ok(s) && frac_part(s).len() <= AMOUNT_SCALE
}

/// Numeric value of a well-formed amount string, in atomic units.
pub open spec fn amount_text_val(s: Seq<char>) -> nat {
    digits_val(int_part(s) + frac_part(s)) * pow10(
        (AMOUNT_SCALE - frac_part(s).len()) as nat,
    )
}

/// Decimal digits of `n`, big-endian, no leading zero except for `n == 0`.
pub open spec fn dec_digits(n: nat) -> Seq<char>
    decreases n,
{
    if n < 10 {
        seq![digit_char(n)]
    } else {
        dec_digits(n / 10) + seq![digit_char(n % 10)]
    }
}

/// Strips factors of ten from `r` while the trimmed width stays positive:
/// returns the trimmed value and width.
pub open spec fn trim_zeros(r: nat, w: nat) -> (nat, nat)
    decreases w,
{
    if w <= 1 || r % 10 != 0 {
        (r, w)
    } else {
        trim_zeros(r / 10, (w - 1) as nat)
    }
}

/// A run of `k` zero digit characters.
pub open spec fn zeros(k: nat) -> Seq<char> {
    Seq::new(k, |i: int| '0')
}

/// Fractional digit run for remainder `r`: `r` written in `AMOUNT_SCALE`
/// zero-padded digits with trailing zeros removed.
pub open spec fn frac_digits(r: nat) -> Seq<char> {
    let (rr, w) = trim_zeros(r, AMOUNT_SCALE as nat);
    zeros((w - dec_digits(rr).len()) as nat) + dec_digits(rr)
}

/// Canonical text for `a` atomic units.
pub open spec fn format_spec(a: nat) -> Seq<char> {
    if a % (COIN as nat) == 0 {
        dec_digits(a / (COIN as nat))
    } else {
        dec_digits(a / (COIN as nat)) + seq!['.'] + frac_digits(a % (COIN as nat))
    }
}

impl Amount {
    /// The amount's value in atomic units.
    pub closed spec fn view(self) -> nat {
        self.atomic as nat
    }

    /// Builds an amount from a count of atomic units.
    pub fn from_atomic(atomic: u64) -> (r: Amount)
        ensures
            r@ == atomic as nat,
    {
        Amount { atomic }
    }

    /// The amount as a count of atomic units.
    pub fn as_atomic(self) -> (r: u64)
        ensures
            r as nat == self@,
    {
        self.atomic
    }

    /// Sum of two amounts, or `None` when the sum does not fit in 64 bits.
    pub fn checked_add(self, other: Amount) -> (r: Option<Amount>)
        ensures
            self@ + other@ <= u64::MAX ==> (r is Some && r->0@ == self@ + other@),
            self@ + other@ > u64::MAX ==> r is None,
    {
        match self.atomic.checked_add(other.atomic) {
            Some(v) => Some(Amount { atomic: v }),
            None => None,
        }
    }
}

proof fn lemma_pow10_vals()
    ensures
        pow10(12) == 1_000_000_000_000,
        pow10(20) == 100_000_000_000_000_000_000,
{
    assert(pow10(0) == 1);
    assert(pow10(1) == 10);
    assert(pow10(2) == 100);
    assert(pow10(3) == 1000);
    assert(pow10(4) == 10000);
    assert(pow10(5) == 100000);
    assert(pow10(6) == 1000000);
    assert(pow10(7) == 10000000);
    assert(pow10(8) == 100000000);
    assert(pow10(9) == 1000000000);
    assert(pow10(10) == 10000000000);
    assert(pow10(11) == 100000000000);
    assert(pow10(12) == 1000000000000);
    assert(pow10(13) == 10000000000000);
    assert(pow10(14) == 100000000000000);
    assert(pow10(15) == 1000000000000000);
    assert(pow10(16) == 10000000000000000);
    assert(pow10(17) == 100000000000000000);
    assert(pow10(18) == 1000000000000000000);
    assert(pow10(19) == 10000000000000000000);
    assert(pow10(20) == 100000000000000000000);
}

/// Exec mirror of `is_digit`.
fn is_digit_exec(c: char) -> (b: bool)
    ensures
        b == is_digit(c),
{
    c == '0' || c == '1' || c == '2' || c == '3' || c == '4' || c == '5' || c == '6' || c == '7'
        || c == '8' || c == '9'
}

/// Exec mirror of `digit_val`.
fn digit_of(c: char) -> (d: u64)
    ensures
        d as nat == digit_val(c),
        d <= 9,
{
    if c == '1' {
        1
    } else if c == '2' {
        2
    } else if c == '3' {
        3
    } else if c == '4' {
        4
    } else if c == '5' {
        5
    } else if c == '6' {
        6
    } else if c == '7' {
        7
    } else if c == '8' {
        8
    } else if c == '9' {
        9
    } else {
        0
    }
}

proof fn lemma_pow10_le(a: nat, b: nat)
    requires
        a <= b,
    ensures
        pow10(a) <= pow10(b),
    decreases b,
{
    if a < b {
        lemma_pow10_le(a, (b - 1) as nat);
        lemma_pow10_pos((b - 1) as nat);
    }
}

/// Ten to the `k` as a machine word, for exponents within the scale.
#[verifier::loop_isolation(false)]
fn pow10_exec(k: u64) -> (r: u64)
    requires
        k <= AMOUNT_SCALE,
    ensures
        r as nat == pow10(k as nat),
{
    let mut r: u64 = 1;
    let mut i: u64 = 0;
    while i < k
        invariant
            i <= k,
            r as nat == pow10(i as nat),
        decreases k - i,
    {
        proof {
            lemma_pow10_le((i + 1) as nat, 12);
            lemma_pow10_vals();
            assert(pow10((i + 1) as nat) == 10 * pow10(i as nat));
        }
        r = r * 10;
        i = i + 1;
    }
    r
}

/// Number of decimal digits of `n`.
#[verifier::loop_isolation(false)]
fn dec_len(n: u64) -> (r: u64)
    ensures
        r as nat == dec_digits(n as nat).len(),
        r >= 1,
{
    proof {
        lemma_pow10_vals();
        assert(u64::MAX < pow10(20));
        lemma_dec_len(n as nat, 20);
    }
    let mut m: u64 = n;
    let mut l: u64 = 1;
    while m >= 10
        invariant
            l >= 1,
            dec_digits(n as nat).len() == (l - 1) as nat + dec_digits(m as nat).len(),
        decreases m,
    {
        proof {
            assert(dec_digits(m as nat) == dec_digits((m as nat) / 10) + seq![digit_char(
                (m as nat) % 10,
            )]);
            assert(dec_digits((m as nat) / 10).len() >= 1);
            assert(l < 20);
        }
        m = m / 10;
        l = l + 1;
    }
    proof {
        assert(dec_digits(m as nat).len() == 1);
    }
    l
}

/// A single-character digit string.
fn digit_str(d: u64) -> (r: &'static str)
    requires
        d < 10,
    ensures
        r@ =~= seq![digit_char(d as nat)],
{
    proof {
        reveal_strlit("0");
        reveal_strlit("1");
        reveal_strlit("2");
        reveal_strlit("3");
        reveal_strlit("4");
        reveal_strlit("5");
        reveal_strlit("6");
        reveal_strlit("7");
        reveal_strlit("8");
        reveal_strlit("9");
    }
    if d == 0 {
        "0"
    } else if d == 1 {
        "1"
    } else if d == 2 {
        "2"
    } else if d == 3 {
        "3"
    } else if d == 4 {
        "4"
    } else if d == 5 {
        "5"
    } else if d == 6 {
        "6"
    } else if d == 7 {
        "7"
    } else if d == 8 {
        "8"
    } else {
        "9"
    }
}

/// Appends the decimal digits of `n` to `out`.
fn push_dec(out: &mut String, n: u64)
    ensures
        final(out)@ == old(out)@ + dec_digits(n as nat),
    decreases n,
{
    if n >= 10 {
        push_dec(out, n / 10);
        let s = digit_str(n % 10);
        out.append(s);
        proof {
            assert((old(out)@ + dec_digits((n / 10) as nat)) + seq![digit_char((n % 10) as nat)]
                =~= old(out)@ + (dec_digits((n / 10) as nat) + seq![digit_char((n % 10) as nat)]));
            assert(dec_digits(n as nat) == dec_digits((n as nat) / 10) + seq![digit_char(
                (n as nat) % 10,
            )]);
        }
    } else {
        let s = digit_str(n);
        out.append(s);
        proof {
            assert(dec_digits(n as nat) =~= seq![digit_char(n as nat)]);
        }
    }
}

proof fn lemma_digits_val_push(s: Seq<char>, c: char)
    ensures
        digits_val(s.push(c)) == digits_val(s) * 10 + digit_val(c),
{
    assert(s.push(c).drop_last() =~= s);
    assert(s.push(c).last() == c);
}

/// Base-ten positional split: the value of `x + y` is the value of `x`
/// shifted past `y`'s digits, plus the value of `y`.
proof fn lemma_digits_val_concat(x: Seq<char>, y: Seq<char>)
    ensures
        digits_val(x + y) == digits_val(x) * pow10(y.len()) + digits_val(y),
    decreases y.len(),
{
    if y.len() == 0 {
        assert(x + y =~= x);
        assert(pow10(0) == 1);
        assert(digits_val(y) == 0);
        assert(digits_val(x + y) == digits_val(x) * 1 + 0);
    } else {
        lemma_digits_val_concat(x, y.drop_last());
        assert((x + y).drop_last() =~= x + y.drop_last());
        assert((x + y).last() == y.last());
        let p = pow10((y.len() - 1) as nat);
        assert(digits_val(x + y) == (digits_val(x) * p + digits_val(y.drop_last())) * 10
            + digit_val(y.last()));
        assert((digits_val(x) * p) * 10 == digits_val(x) * (p * 10)) by (nonlinear_arith);
        assert(pow10(y.len()) == 10 * p);
        assert(digits_val(x + y) == (digits_val(x) * p) * 10 + (digits_val(y.drop_last()) * 10
            + digit_val(y.last())));
        assert(digits_val(y) == digits_val(y.drop_last()) * 10 + digit_val(y.last()));
        assert(digits_val(x) * pow10(y.len()) == digits_val(x) * (p * 10));
    }
}

proof fn lemma_pow10_pos(k: nat)
    ensures
        pow10(k) >= 1,
    decreases k,
{
    if k > 0 {
        lemma_pow10_pos((k - 1) as nat);
    }
}

proof fn lemma_pow10_add(a: nat, b: nat)
    ensures
        pow10(a + b) == pow10(a) * pow10(b),
    decreases a,
{
    if a == 0 {
        assert(pow10(0) == 1);
        assert(a + b == b);
        assert(pow10(a + b) == 1 * pow10(b));
    } else {
        lemma_pow10_add((a - 1) as nat, b);
        assert((a + b - 1) as nat == (a - 1) as nat + b);
        assert(pow10(a + b) == 10 * pow10((a + b - 1) as nat));
        assert(pow10(a) == 10 * pow10((a - 1) as nat));
        assert(10 * (pow10((a - 1) as nat) * pow10(b)) == (10 * pow10((a - 1) as nat)) * pow10(
            b,
        )) by (nonlinear_arith);
        assert(pow10((a + b - 1) as nat) == pow10((a - 1) as nat + b));
        assert(pow10(a + b) == 10 * (pow10((a - 1) as nat) * pow10(b)));
        assert(pow10(a + b) == (10 * pow10((a - 1) as nat)) * pow10(b));
        assert(pow10(a) * pow10(b) == (10 * pow10((a - 1) as nat)) * pow10(b));
        assert(pow10(a + b) == pow10(a) * pow10(b));
    }
}

/// A prefix of a digit run never exceeds the whole run's value.
proof fn lemma_digits_val_prefix(s: Seq<char>, i: int)
    requires
        0 <= i <= s.len(),
    ensures
        digits_val(s.subrange(0, i)) <= digits_val(s),
{
    let x = s.subrange(0, i);
    let y = s.subrange(i, s.len() as int);
    assert(s =~= x + y);
    lemma_digits_val_concat(x, y);
    lemma_pow10_pos(y.len());
    lemma_mul_inequality(1, pow10(y.len()) as int, digits_val(x) as int);
}

/// The decimal digits of `n` are digits, start non-empty, and read back as `n`.
proof fn lemma_dec_digits(n: nat)
    ensures
        all_digits(dec_digits(n)),
        dec_digits(n).len() >= 1,
        digits_val(dec_digits(n)) == n,
    decreases n,
{
    if n < 10 {
        assert(dec_digits(n) =~= seq![digit_char(n)]);
        assert(seq![digit_char(n)].drop_last() =~= Seq::<char>::empty());
        assert(digits_val(Seq::<char>::empty()) == 0);
        assert(digits_val(seq![digit_char(n)]) == 0 * 10 + digit_val(digit_char(n)));
        assert(digit_val(digit_char(n)) == n);
    } else {
        lemma_dec_digits(n / 10);
        lemma_digits_val_push(dec_digits(n / 10), digit_char(n % 10));
        assert(dec_digits(n) =~= dec_digits(n / 10).push(digit_char(n % 10)));
        lemma_fundamental_div_mod(n as int, 10);
        assert forall|i: int| 0 <= i < dec_digits(n).len() implies is_digit(
            #[trigger] dec_digits(n)[i],
        ) by {
            if i < dec_digits(n / 10).len() {
                assert(dec_digits(n)[i] == dec_digits(n / 10)[i]);
            }
        }
    }
}

proof fn lemma_zeros_val(k: nat)
    ensures
        digits_val(zeros(k)) == 0,
        all_digits(zeros(k)),
    decreases k,
{
    if k > 0 {
        lemma_zeros_val((k - 1) as nat);
        assert(zeros(k).drop_last() =~= zeros((k - 1) as nat));
        assert(zeros(k).last() == '0');
    }
}

/// If `n` fits below ten to the `k`, it has at most `k` decimal digits.
proof fn lemma_dec_len(n: nat, k: nat)
    requires
        n < pow10(k),
        k >= 1,
    ensures
        dec_digits(n).len() <= k,
    decreases n,
{
    if n >= 10 {
        assert(k >= 2) by {
            if k == 1 {
                assert(pow10(0) == 1);
            assert(pow10(0) == 1);
        assert(pow10(1) == 10);
            }
        }
        assert(n / 10 < pow10((k - 1) as nat)) by {
            lemma_pow10_add((k - 1) as nat, 1);
            assert(pow10(0) == 1);
            assert(pow10(0) == 1);
        assert(pow10(1) == 10);
            lemma_fundamental_div_mod(n as int, 10);
            assert(n / 10 * 10 <= n);
            if n / 10 >= pow10((k - 1) as nat) {
                lemma_mul_inequality(pow10((k - 1) as nat) as int, (n / 10) as int, 10);
            }
        }
        lemma_dec_len(n / 10, (k - 1) as nat);
    }
}

/// What `trim_zeros` keeps: the trimmed value restores `r` when shifted back,
/// stays within the trimmed width, and the width stays in range.
proof fn lemma_trim_zeros(r: nat, w: nat)
    requires
        r < pow10(w),
        w >= 1,
    ensures
        1 <= trim_zeros(r, w).1 <= w,
        trim_zeros(r, w).0 * pow10((w - trim_zeros(r, w).1) as nat) == r,
        trim_zeros(r, w).0 < pow10(trim_zeros(r, w).1),
    decreases w,
{
    if w <= 1 || r % 10 != 0 {
        assert(trim_zeros(r, w) == (r, w));
        assert(pow10(0) == 1);
        assert(r * pow10(0) == r * 1);
    } else {
        lemma_fundamental_div_mod(r as int, 10);
        assert(r / 10 < pow10((w - 1) as nat)) by {
            lemma_pow10_add((w - 1) as nat, 1);
            assert(pow10(0) == 1);
            assert(pow10(0) == 1);
        assert(pow10(1) == 10);
            if r / 10 >= pow10((w - 1) as nat) {
                lemma_mul_inequality(pow10((w - 1) as nat) as int, (r / 10) as int, 10);
            }
        }
        lemma_trim_zeros(r / 10, (w - 1) as nat);
        let (rr, ww) = trim_zeros(r / 10, (w - 1) as nat);
        assert(trim_zeros(r, w) == (rr, ww));
        assert(rr * pow10(((w - 1) - ww) as nat) == r / 10);
        lemma_pow10_add(((w - 1) - ww) as nat, 1);
        assert(pow10(0) == 1);
        assert(pow10(1) == 10);
        assert(rr * (pow10(((w - 1) - ww) as nat) * 10) == (rr * pow10(((w - 1) - ww) as nat))
            * 10) by (nonlinear_arith);
        assert(r % 10 == 0);
        assert(r == r / 10 * 10);
        assert(((w - 1) - ww) as nat + 1 == (w - ww) as nat);
        assert(pow10((w - ww) as nat) == pow10(((w - 1) - ww) as nat) * pow10(1));
        assert(rr * pow10((w - ww) as nat) == rr * (pow10(((w - 1) - ww) as nat) * 10));
        assert(rr * pow10((w - ww) as nat) == (r / 10) * 10);
    }
}

/// Where the first dot of a sequence stands, and that nothing before it is a
/// dot; a negative answer means there is no dot at all.
proof fn lemma_first_dot(s: Seq<char>)
    ensures
        first_dot(s) < 0 ==> forall|i: int| 0 <= i < s.len() ==> s[i] != '.',
        first_dot(s) >= 0 ==> 0 <= first_dot(s) < s.len() && s[first_dot(s)] == '.' && forall|
            i: int,
        | 0 <= i < first_dot(s) ==> s[i] != '.',
    decreases s.len(),
{
    if s.len() > 0 && s[0] != '.' {
        let t = s.drop_first();
        lemma_first_dot(t);
        if first_dot(s) < 0 {
            assert(first_dot(t) < 0);
            assert forall|i: int| 0 <= i < s.len() implies s[i] != '.' by {
                if i > 0 {
                    assert(t[i - 1] == s[i]);
                    assert(t[i - 1] != '.');
                }
            }
        } else {
            let f = first_dot(s);
            assert(f == first_dot(t) + 1);
            assert(s[f] == t[f - 1]);
            assert forall|i: int| 0 <= i < f implies s[i] != '.' by {
                if i > 0 {
                    assert(t[i - 1] == s[i]);
                    assert(t[i - 1] != '.');
                }
            }
        }
    }
}

/// A dot with no dot before it is the first dot.
proof fn lemma_first_dot_at(s: Seq<char>, j: int)
    requires
        0 <= j < s.len(),
        s[j] == '.',
        forall|i: int| 0 <= i < j ==> s[i] != '.',
    ensures
        first_dot(s) == j,
{
    lemma_first_dot(s);
    if first_dot(s) < 0 {
        assert(s[j] != '.');
    } else {
        let f = first_dot(s);
        if f < j {
            assert(s[f] != '.');
        }
        if j < f {
            assert(s[j] != '.');
        }
    }
}

/// No dot anywhere means no first dot.
proof fn lemma_no_dot(s: Seq<char>)
    requires
        forall|i: int| 0 <= i < s.len() ==> #[trigger] s[i] != '.',
    ensures
        first_dot(s) < 0,
{
    lemma_first_dot(s);
}


impl Amount {
    /// Parses a decimal amount string into atomic units.
    ///
    /// The string is digits with at most one `.`, at least one digit, at
    /// most `AMOUNT_SCALE` fractional digits, and a value that fits in 64
    /// bits of atomic units; each departure is reported by its own error.
    #[verifier::loop_isolation(false)]
    pub fn parse(s: &str) -> (r: Result<Amount, ParsingError>)
        ensures
            r is Ok <==> amount_text_valid(s@) && amount_text_val(s@) <= u64::MAX,
            r is Ok ==> r->Ok_0@ == amount_text_val(s@),
            r == Err::<Amount, ParsingError>(ParsingError::InvalidCharacter) <==> !amount_chars_ok(
                s@,
            ),
            r == Err::<Amount, ParsingError>(ParsingError::ExcessPrecision) <==> amount_chars_ok(s@)
                && frac_part(s@).len() > AMOUNT_SCALE,
            r == Err::<Amount, ParsingError>(ParsingError::Overflow) <==> amount_text_valid(s@)
                && amount_text_val(s@) > u64::MAX,
    {
        let n = s.unicode_len();
        if n == 0 {
            return Err(ParsingError::InvalidCharacter);
        }
        let mut i: usize = 0;
        let mut dot: Option<usize> = None;
        while i < n
            invariant
                i <= n,
                match dot {
                    None => forall|k: int| 0 <= k < i ==> s@[k] != '.',
                    Some(j) => j < i && s@[j as int] == '.' && (forall|k: int|
                        0 <= k < i && k != j ==> s@[k] != '.'),
                },
                forall|k: int| 0 <= k < i ==> (s@[k] == '.' || is_digit(#[trigger] s@[k])),
            decreases n - i,
        {
            let c = s.get_char(i);
            if c == '.' {
                match dot {
                    Some(j) => {
                        proof {
                            lemma_first_dot_at(s@, j as int);
                            assert(frac_part(s@)[i - j - 1] == s@[i as int]);
                            assert(!all_digits(frac_part(s@)));
                        }
                        return Err(ParsingError::InvalidCharacter);
                    },
                    None => {
                        dot = Some(i);
                    },
                }
            } else if !is_digit_exec(c) {
                proof {
                    lemma_first_dot(s@);
                    let f = first_dot(s@);
                    if f < 0 {
                        assert(int_part(s@)[i as int] == s@[i as int]);
                    } else if f < i {
                        match dot {
                            None => {
                                assert(s@[f] != '.');
                            },
                            Some(j) => {
                                lemma_first_dot_at(s@, j as int);
                                assert(frac_part(s@)[i - j - 1] == s@[i as int]);
                            },
                        }
                    } else {
                        assert(f != i);
                        assert(int_part(s@)[i as int] == s@[i as int]);
                    }
                    assert(!amount_chars_ok(s@));
                }
                return Err(ParsingError::InvalidCharacter);
            }
            i = i + 1;
        }
        proof {
            match dot {
                None => {
                    lemma_no_dot(s@);
                },
                Some(j) => {
                    lemma_first_dot_at(s@, j as int);
                },
            }
        }
        let frac_len: usize = match dot {
            Some(j) => {
                if n == 1 {
                    proof {
                        assert(int_part(s@).len() == 0);
                        assert(frac_part(s@).len() == 0);
                    }
                    return Err(ParsingError::InvalidCharacter);
                }
                proof {
                    assert forall|k: int| 0 <= k < int_part(s@).len() implies is_digit(
                        #[trigger] int_part(s@)[k],
                    ) by {
                        assert(int_part(s@)[k] == s@[k]);
                    }
                    assert forall|k: int| 0 <= k < frac_part(s@).len() implies is_digit(
                        #[trigger] frac_part(s@)[k],
                    ) by {
                        assert(frac_part(s@)[k] == s@[k + j + 1]);
                    }
                }
                n - 1 - j
            },
            None => {
                proof {
                    assert forall|k: int| 0 <= k < int_part(s@).len() implies is_digit(
                        #[trigger] int_part(s@)[k],
                    ) by {
                        assert(int_part(s@)[k] == s@[k]);
                    }
                }
                0
            },
        };
        if frac_len > 12 {
            return Err(ParsingError::ExcessPrecision);
        }
        let ghost alld = int_part(s@) + frac_part(s@);
        let ghost pad = (AMOUNT_SCALE - frac_part(s@).len()) as nat;
        proof {
            if first_dot(s@) < 0 {
                assert(alld =~= s@);
            }
            lemma_pow10_pos(pad);
        }
        let mut v: u64 = 0;
        let mut i2: usize = 0;
        let ghost mut dc: int = 0;
        while i2 < n
            invariant
                i2 <= n,
                0 <= dc <= alld.len(),
                dc == match dot {
                    Some(j) => if i2 > j {
                        i2 - 1
                    } else {
                        i2 as int
                    },
                    None => i2 as int,
                },
                v as nat == digits_val(alld.subrange(0, dc)),
            decreases n - i2,
        {
            let c = s.get_char(i2);
            if c == '.' {
                proof {
                    match dot {
                        Some(j) => {
                            assert(i2 == j);
                        },
                        None => {
                            assert(false);
                        },
                    }
                }
            } else {
                let d = digit_of(c);
                proof {
                    match dot {
                        Some(j) => {
                            if i2 < j {
                                assert(alld[dc] == int_part(s@)[i2 as int]);
                            } else {
                                assert(alld[dc] == frac_part(s@)[dc - j]);
                                assert(frac_part(s@)[dc - j] == s@[i2 as int]);
                            }
                        },
                        None => {},
                    }
                    assert(alld[dc] == s@[i2 as int]);
                    assert(alld.subrange(0, dc + 1) =~= alld.subrange(0, dc).push(alld[dc]));
                    lemma_digits_val_push(alld.subrange(0, dc), alld[dc]);
                    lemma_digits_val_prefix(alld, dc + 1);
                    lemma_mul_inequality(1, pow10(pad) as int, digits_val(alld) as int);
                }
                let v10 = match v.checked_mul(10) {
                    Some(x) => x,
                    None => {
                        proof {
                            assert(digits_val(alld.subrange(0, dc + 1)) >= v as nat * 10);
                            assert(digits_val(alld) >= digits_val(alld.subrange(0, dc + 1)));
                            assert(amount_text_val(s@) == digits_val(alld) * pow10(pad));
                            lemma_mul_is_commutative(digits_val(alld) as int, pow10(pad) as int);
                            assert(digits_val(alld) * pow10(pad) >= 1 * digits_val(alld));
                            assert(amount_text_val(s@) > u64::MAX);
                        }
                        return Err(ParsingError::Overflow);
                    },
                };
                let v2 = match v10.checked_add(d) {
                    Some(x) => x,
                    None => {
                        proof {
                            assert(digits_val(alld.subrange(0, dc + 1)) == v as nat * 10
                                + digit_val(alld[dc]));
                            assert(digits_val(alld.subrange(0, dc + 1)) > u64::MAX);
                            assert(digits_val(alld) >= digits_val(alld.subrange(0, dc + 1)));
                            assert(amount_text_val(s@) == digits_val(alld) * pow10(pad));
                            lemma_mul_is_commutative(digits_val(alld) as int, pow10(pad) as int);
                            assert(digits_val(alld) * pow10(pad) >= 1 * digits_val(alld));
                            assert(amount_text_val(s@) > u64::MAX);
                        }
                        return Err(ParsingError::Overflow);
                    },
                };
                v = v2;
                proof {
                    dc = dc + 1;
                }
            }
            i2 = i2 + 1;
        }
        proof {
            assert(alld.subrange(0, dc) =~= alld);
        }
        let pw = pow10_exec(AMOUNT_SCALE - frac_len as u64);
        match v.checked_mul(pw) {
            Some(atomic) => {
                Ok(Amount { atomic })
            },
            None => {
                Err(ParsingError::Overflow)
            },
        }
    }

    /// Formats the amount as its canonical decimal string: trailing
    /// fractional zeros trimmed, a lone `0` for zero.
    #[verifier::loop_isolation(false)]
    pub fn format(&self) -> (r: String)
        ensures
            r@ == format_spec(self@),
    {
        proof {
            lemma_pow10_vals();
        }
        let q = self.atomic / COIN;
        let rem = self.atomic % COIN;
        let mut out = String::from_str("");
        proof {
            reveal_strlit("");
            assert(out@ =~= Seq::<char>::empty());
        }
        push_dec(&mut out, q);
        proof {
            assert(out@ =~= dec_digits(q as nat));
        }
        if rem > 0 {
            out.append(".");
            proof {
                reveal_strlit(".");
                assert("."@ =~= seq!['.']);
            }
            let mut rr = rem;
            let mut w: u64 = AMOUNT_SCALE;
            while w > 1 && rr % 10 == 0
                invariant
                    1 <= w <= AMOUNT_SCALE,
                    trim_zeros(rem as nat, AMOUNT_SCALE as nat) == trim_zeros(rr as nat, w as nat),
                decreases w,
            {
                rr = rr / 10;
                w = w - 1;
            }
            proof {
                assert(trim_zeros(rr as nat, w as nat) == (rr as nat, w as nat));
                lemma_trim_zeros(rem as nat, AMOUNT_SCALE as nat);
                lemma_dec_len(rr as nat, w as nat);
            }
            let dl = dec_len(rr);
            let ghost base = out@;
            let mut z = dl;
            while z < w
                invariant
                    dl <= z <= w,
                    out@ == base + zeros((z - dl) as nat),
                decreases w - z,
            {
                out.append("0");
                proof {
                    reveal_strlit("0");
                    assert("0"@ =~= seq!['0']);
                    assert(base + zeros((z - dl) as nat) + seq!['0'] =~= base + zeros(
                        (z + 1 - dl) as nat,
                    ));
                }
                z = z + 1;
            }
            push_dec(&mut out, rr);
            proof {
                assert(frac_digits(rem as nat) == zeros((w - dl) as nat) + dec_digits(rr as nat));
                assert(out@ =~= dec_digits(q as nat) + seq!['.'] + frac_digits(rem as nat));
            }
        }
        out
    }
}


/// The canonical text of any representable amount is a well-formed amount
/// string that reads back as exactly the same atomic value.
pub proof fn lemma_format_round_trip(a: nat)
    requires
        a <= u64::MAX,
    ensures
        amount_text_valid(format_spec(a)),
        amount_text_val(format_spec(a)) == a,
{
    lemma_pow10_vals();
    let c = COIN as nat;
    let q = a / c;
    let r = a % c;
    lemma_fundamental_div_mod(a as int, c as int);
    lemma_dec_digits(q);
    let dq = dec_digits(q);
    if r == 0 {
        let s = format_spec(a);
        assert(s == dq);
        assert forall|i: int| 0 <= i < s.len() implies #[trigger] s[i] != '.' by {
            assert(is_digit(s[i]));
        }
        lemma_no_dot(s);
        assert(int_part(s) == s);
        assert(frac_part(s) == Seq::<char>::empty());
        assert(s + frac_part(s) =~= s);
        assert(amount_text_val(s) == digits_val(dq) * pow10(12));
        assert(digits_val(dq) == q);
        assert(q * c + r == a);
        lemma_mul_is_commutative(q as int, c as int);
    } else {
        assert(r < c);
        assert(r < pow10(12));
        lemma_trim_zeros(r, 12);
        let (rr, w) = trim_zeros(r, 12);
        lemma_dec_digits(rr);
        lemma_dec_len(rr, w);
        let fr = frac_digits(r);
        assert(fr == zeros((w - dec_digits(rr).len()) as nat) + dec_digits(rr));
        lemma_zeros_val((w - dec_digits(rr).len()) as nat);
        assert(fr.len() == w);
        let s = format_spec(a);
        assert(s == dq + seq!['.'] + fr);
        assert(s.len() == dq.len() + 1 + w);
        // the dot stands right after the integer digits
        let j = dq.len() as int;
        assert(s[j] == '.');
        assert forall|i: int| 0 <= i < j implies s[i] != '.' by {
            assert(s[i] == dq[i]);
            assert(is_digit(dq[i]));
        }
        lemma_first_dot_at(s, j);
        assert(int_part(s) =~= dq);
        assert(frac_part(s) =~= fr);
        assert forall|i: int| 0 <= i < fr.len() implies is_digit(#[trigger] fr[i]) by {
            if i < (w - dec_digits(rr).len()) {
                assert(fr[i] == '0');
            } else {
                assert(fr[i] == dec_digits(rr)[i - (w - dec_digits(rr).len())]);
            }
        }
        assert(amount_chars_ok(s));
        assert(frac_part(s).len() == w <= 12);
        assert(amount_text_valid(s));
        // value: digits of the two parts recombine to q * pow10(12) + r
        lemma_digits_val_concat(dq, fr);
        lemma_digits_val_concat(zeros((w - dec_digits(rr).len()) as nat), dec_digits(rr));
        lemma_zeros_val((w - dec_digits(rr).len()) as nat);
        assert(digits_val(fr) == 0 * pow10(dec_digits(rr).len()) + rr);
        assert(digits_val(dq + fr) == q * pow10(w) + rr);
        let pad = (12 - w) as nat;
        assert(amount_text_val(s) == (q * pow10(w) + rr) * pow10(pad));
        assert((q * pow10(w) + rr) * pow10(pad) == (q * pow10(w)) * pow10(pad) + rr * pow10(pad))
            by (nonlinear_arith);
        lemma_mul_is_associative(q as int, pow10(w) as int, pow10(pad) as int);
        lemma_pow10_add(w, pad);
        assert(pow10(w) * pow10(pad) == pow10(12));
        assert((q * pow10(w)) * pow10(pad) == q * pow10(12));
        assert(rr * pow10(pad) == r);
        assert(q * pow10(12) + r == a) by {
            lemma_mul_is_commutative(q as int, c as int);
        }
    }
}

/// Canonicalizing a well-formed amount string keeps its numeric value: the
/// canonical text of the parsed value denotes the value of the input.
pub proof fn lemma_text_canonical(s: Seq<char>)
    requires
        amount_text_valid(s),
        amount_text_val(s) <= u64::MAX,
    ensures
        amount_text_valid(format_spec(amount_text_val(s))),
        amount_text_val(format_spec(amount_text_val(s))) == amount_text_val(s),
{
    lemma_format_round_trip(amount_text_val(s));
}

} // verus!
