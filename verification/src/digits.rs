//! Decimal text on bytes.
//!
//! Work units, zip codes and weather updates travel as ASCII decimal text
//! inside byte frames. This module gives the library one verified reading
//! and one verified writing of that text: `parse_u64` accepts exactly the
//! texts Rust's integer parsing accepts (an optional leading plus sign, then
//! digits, value in range), and the formatting functions produce the plain,
//! zero-padded and signed decimal forms.

use vstd::prelude::*;

verus! {

/// ASCII byte for one decimal digit.
pub open spec fn digit_byte(d: nat) -> u8
    recommends
        d < 10,
{
    (0x30 + d) as u8
}

/// The shortest decimal representation of `n`, as ASCII bytes.
pub open spec fn dec_bytes(n: nat) -> Seq<u8>
    decreases n,
{
    if n < 10 {
        seq![digit_byte(n)]
    } else {
        dec_bytes(n / 10).push(digit_byte(n % 10))
    }
}

/// Decimal representation left-padded with ASCII zeros to at least `width`
/// bytes.
pub open spec fn dec_bytes_padded(n: nat, width: nat) -> Seq<u8> {
    if dec_bytes(n).len() >= width {
        dec_bytes(n)
    } else {
        Seq::new((width - dec_bytes(n).len()) as nat, |i: int| 0x30u8) + dec_bytes(n)
    }
}

/// Signed decimal representation: a leading minus sign for negative values.
pub open spec fn dec_bytes_signed(n: int) -> Seq<u8> {
    if n < 0 {
        seq![0x2du8] + dec_bytes((-n) as nat)
    } else {
        dec_bytes(n as nat)
    }
}

pub open spec fn is_digit(b: u8) -> bool {
    0x30 <= b <= 0x39
}

pub open spec fn digit_val(b: u8) -> nat
    recommends
        is_digit(b),
{
    (b - 0x30) as nat
}

pub open spec fn all_digits(s: Seq<u8>) -> bool {
    forall|i: int| 0 <= i < s.len() ==> is_digit(#[trigger] s[i])
}

/// Numeric value of a digit string.
pub open spec fn dec_value(s: Seq<u8>) -> nat
    decreases s.len(),
{
    if s.len() == 0 {
        0
    } else {
        dec_value(s.drop_last()) * 10 + digit_val(s.last())
    }
}

/// The digits of a numeric text, after an optional leading plus sign.
pub open spec fn digits_part(s: Seq<u8>) -> Seq<u8> {
    if s.len() > 0 && s[0] == 0x2bu8 {
        s.drop_first()
    } else {
        s
    }
}

/// A text that `parse_u64` accepts: an optional leading plus sign, then at
/// least one digit and nothing else, with a value that fits in a `u64`.
pub open spec fn valid_u64_text(s: Seq<u8>) -> bool {
    let d = digits_part(s);
    &&& d.len() > 0
    &&& all_digits(d)
    &&& dec_value(d) <= u64::MAX
}

pub open spec fn pow10(k: nat) -> nat
    decreases k,
{
    if k == 0 {
        1
    } else {
        10 * pow10((k - 1) as nat)
    }
}

/// Small powers of ten, spelled out for callers that reason about fixed
/// digit widths.
pub proof fn lemma_pow10_small()
    ensures
        pow10(0) == 1,
        pow10(1) == 10,
        pow10(2) == 100,
        pow10(3) == 1000,
        pow10(4) == 10000,
        pow10(5) == 100000,
{
}

/// Powers of ten are positive and grow with the exponent.
pub proof fn lemma_pow10_mono(a: nat, b: nat)
    requires
        a <= b,
    ensures
        pow10(a) <= pow10(b),
        pow10(a) >= 1,
    decreases b,
{
    if a == b {
        if a > 0 {
            lemma_pow10_mono((a - 1) as nat, (a - 1) as nat);
        }
    } else {
        lemma_pow10_mono(a, (b - 1) as nat);
    }
}

/// The value of a prefix of a digit string never exceeds the value of the
/// whole string.
pub proof fn lemma_dec_value_take_le(s: Seq<u8>, j: int)
    requires
        0 <= j <= s.len(),
    ensures
        dec_value(s.take(j)) <= dec_value(s),
    decreases s.len() - j,
{
    if j == s.len() {
        assert(s.take(j) =~= s);
    } else {
        assert(s.take(j + 1).drop_last() =~= s.take(j));
        assert(s.take(j + 1).last() == s[j]);
        lemma_dec_value_take_le(s, j + 1);
    }
}

/// The decimal representation holds digits only, at least one of them.
pub proof fn lemma_dec_bytes_digits(n: nat)
    ensures
        all_digits(dec_bytes(n)),
        dec_bytes(n).len() >= 1,
    decreases n,
{
    if n >= 10 {
        lemma_dec_bytes_digits(n / 10);
    }
}

/// Reading the decimal representation back gives the number itself.
pub proof fn lemma_dec_value_of_dec_bytes(n: nat)
    ensures
        dec_value(dec_bytes(n)) == n,
    decreases n,
{
    if n < 10 {
        assert(dec_bytes(n).drop_last() =~= Seq::<u8>::empty());
        assert(dec_value(Seq::<u8>::empty()) == 0);
        assert(dec_bytes(n).last() == digit_byte(n));
        assert(digit_val(digit_byte(n)) == n);
        assert(dec_value(dec_bytes(n)) == n);
    } else {
        lemma_dec_value_of_dec_bytes(n / 10);
        assert(dec_bytes(n).drop_last() =~= dec_bytes(n / 10));
        assert(dec_bytes(n).last() == digit_byte(n % 10));
        assert(digit_val(digit_byte(n % 10)) == n % 10);
        assert(n == (n / 10) * 10 + n % 10) by {
            vstd::arithmetic::div_mod::lemma_fundamental_div_mod(n as int, 10);
        };
    }
}

/// A number below `pow10(k)` takes at most `k` digits.
pub proof fn lemma_dec_bytes_len(n: nat, k: nat)
    requires
        k >= 1,
        n < pow10(k),
    ensures
        dec_bytes(n).len() <= k,
    decreases k,
{
    if n >= 10 {
        if k == 1 {
            assert(pow10(0) == 1);
            assert(pow10(1) == 10);
        }
        let m = pow10((k - 1) as nat);
        assert(pow10(k) == 10 * m);
        assert(n / 10 < m) by (nonlinear_arith)
            requires
                n < 10 * m,
                m >= 1,
        ;
        lemma_dec_bytes_len(n / 10, (k - 1) as nat);
    }
}

/// A `k`-digit string holds a value below `pow10(k)`.
pub proof fn lemma_dec_value_bound(s: Seq<u8>)
    requires
        all_digits(s),
    ensures
        dec_value(s) < pow10(s.len()),
    decreases s.len(),
{
    if s.len() > 0 {
        assert(all_digits(s.drop_last()));
        lemma_dec_value_bound(s.drop_last());
        assert(digit_val(s.last()) <= 9);
        assert(dec_value(s.drop_last()) * 10 <= (pow10((s.len() - 1) as nat) - 1) * 10);
        assert(pow10(s.len()) == 10 * pow10((s.len() - 1) as nat));
    }
}

proof fn lemma_dec_value_all_zeros(k: nat)
    ensures
        dec_value(Seq::new(k, |i: int| 0x30u8)) == 0,
    decreases k,
{
    if k > 0 {
        lemma_dec_value_all_zeros((k - 1) as nat);
        assert(Seq::new(k, |i: int| 0x30u8).drop_last() =~= Seq::new(
            (k - 1) as nat,
            |i: int| 0x30u8,
        ));
    }
}

/// Leading ASCII zeros do not change the value of a digit string.
pub proof fn lemma_dec_value_zeros_prefix(s: Seq<u8>, k: nat)
    ensures
        dec_value(Seq::new(k, |i: int| 0x30u8) + s) == dec_value(s),
    decreases s.len(),
{
    let zeros = Seq::new(k, |i: int| 0x30u8);
    if s.len() == 0 {
        assert(zeros + s =~= zeros);
        lemma_dec_value_all_zeros(k);
    } else {
        assert((zeros + s).drop_last() =~= zeros + s.drop_last());
        assert((zeros + s).last() == s.last());
        lemma_dec_value_zeros_prefix(s.drop_last(), k);
    }
}

/// Writes `n` in its shortest decimal form.
pub fn fmt_u64(n: u64) -> (r: Vec<u8>)
    ensures
        r@ == dec_bytes(n as nat),
    decreases n,
{
    if n < 10 {
        let mut v: Vec<u8> = Vec::new();
        v.push(0x30 + (n as u8));
        proof {
            assert(v@ =~= dec_bytes(n as nat));
        }
        v
    } else {
        let mut v = fmt_u64(n / 10);
        v.push(0x30 + ((n % 10) as u8));
        proof {
            assert(v@ =~= dec_bytes(n as nat));
        }
        v
    }
}

/// Writes `n` in decimal, left-padded with zeros to at least `width` bytes.
pub fn fmt_u64_padded(n: u64, width: usize) -> (r: Vec<u8>)
    ensures
        r@ == dec_bytes_padded(n as nat, width as nat),
{
    let mut digits = fmt_u64(n);
    let dlen = digits.len();
    let mut r: Vec<u8> = Vec::new();
    while r.len() + dlen < width
        invariant
            dlen == dec_bytes(n as nat).len(),
            digits@ == dec_bytes(n as nat),
            forall|i: int| 0 <= i < r@.len() ==> r@[i] == 0x30u8,
            r@.len() + dlen <= width || r@.len() == 0,
        decreases width - r.len(),
    {
        r.push(0x30);
    }
    r.append(&mut digits);
    proof {
        assert(r@ =~= dec_bytes_padded(n as nat, width as nat));
    }
    r
}

/// Writes `n` in signed decimal form.
pub fn fmt_i32(n: i32) -> (r: Vec<u8>)
    requires
        n > i32::MIN,
    ensures
        r@ == dec_bytes_signed(n as int),
{
    if n < 0 {
        let mut r: Vec<u8> = Vec::new();
        r.push(0x2d);
        let mut digits = fmt_u64((-n) as u64);
        r.append(&mut digits);
        proof {
            assert(r@ =~= dec_bytes_signed(n as int));
        }
        r
    } else {
        fmt_u64(n as u64)
    }
}

/// Reads a decimal `u64` from bytes. Accepts exactly the texts made of an
/// optional leading plus sign and at least one digit whose value fits; every
/// other text, including one whose value overflows, is rejected.
pub fn parse_u64(s: &Vec<u8>) -> (r: Option<u64>)
    ensures
        match r {
            Some(n) => valid_u64_text(s@) && n == dec_value(digits_part(s@)),
            None => !valid_u64_text(s@),
        },
{
    let ghost d = digits_part(s@);
    let start: usize = if s.len() > 0 && s[0] == 0x2b {
        1
    } else {
        0
    };
    proof {
        assert(d =~= s@.skip(start as int));
    }
    if s.len() == start {
        return None;
    }
    let mut i: usize = start;
    let mut acc: u64 = 0;
    while i < s.len()
        invariant
            start <= i <= s@.len(),
            start < s@.len(),
            d == s@.skip(start as int),
            d == digits_part(s@),
            all_digits(d.take(i - start)),
            acc == dec_value(d.take(i - start)),
        decreases s@.len() - i,
    {
        let b = s[i];
        if !(0x30 <= b && b <= 0x39) {
            proof {
                assert(d[i - start] == b);
                assert(!all_digits(d));
            }
            return None;
        }
        proof {
            assert(d.take(i - start + 1).drop_last() =~= d.take(i - start));
            assert(d.take(i - start + 1).last() == d[i - start]);
        }
        let scaled: u64 = match acc.checked_mul(10) {
            Some(a) => a,
            None => {
                proof {
                    assert(dec_value(d.take(i - start + 1)) > u64::MAX);
                    lemma_dec_value_take_le(d, i - start + 1);
                }
                return None;
            },
        };
        acc = match scaled.checked_add((b - 0x30) as u64) {
            Some(a) => a,
            None => {
                proof {
                    assert(dec_value(d.take(i - start + 1)) > u64::MAX);
                    lemma_dec_value_take_le(d, i - start + 1);
                }
                return None;
            },
        };
        i += 1;
    }
    proof {
        assert(d.take(s@.len() - start) =~= d);
    }
    Some(acc)
}

/// Reading back a written number recovers it: `parse_u64` is a left inverse
/// of `fmt_u64`, for every `u64`.
pub proof fn lemma_dec_round_trip(n: u64)
    ensures
        valid_u64_text(dec_bytes(n as nat)),
        dec_value(digits_part(dec_bytes(n as nat))) == n,
{
    lemma_dec_bytes_digits(n as nat);
    lemma_dec_value_of_dec_bytes(n as nat);
    assert(dec_bytes(n as nat)[0] != 0x2bu8);
    assert(digits_part(dec_bytes(n as nat)) == dec_bytes(n as nat));
}

} // verus!
