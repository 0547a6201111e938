use vstd::prelude::*;
use vstd::arithmetic::power2::pow2;
use crate::numtext::{
    all_digits, dec_digits, digits_val, is_digit, lemma_digits_val_bound, lemma_pow10_unfold,
    pow10, pow10_u64, pow2_u128, pow2_u64,
};

verus! {

// The library never computes with float values: it stores them as bit
// patterns and converts them to and from decimal text with exact integer
// arithmetic on the IEEE 754 fields.  A finite value is sign times
// significand times a power of two; the fixed-point rendering and the
// decimal-to-binary rounding below are defined and implemented over those
// integers alone.

/// The quotient `num / den` rounded to the nearest integer, ties to even.
pub open spec fn div_round_even(num: nat, den: nat) -> nat
    recommends
        den >= 1,
{
    let q = num / den;
    let r = num % den;
    if 2 * r < den {
        q
    } else if 2 * r > den {
        q + 1
    } else if q % 2 == 0 {
        q
    } else {
        q + 1
    }
}

/// Exactly `w` decimal digit bytes of `n`, most significant first, zero
/// padded on the left.
pub open spec fn fixed_digits(n: nat, w: nat) -> Seq<u8>
    decreases w,
{
    if w == 0 {
        Seq::empty()
    } else {
        fixed_digits(n / 10, (w - 1) as nat).push((48 + n % 10) as u8)
    }
}

/// Decimal digit bytes of `n`, least significant first.
pub open spec fn dec_digits_lsb(n: nat) -> Seq<u8>
    decreases n,
{
    if n < 10 {
        seq![(48 + n) as u8]
    } else {
        seq![(48 + n % 10) as u8] + dec_digits_lsb(n / 10)
    }
}

/// Doubles a least-significant-first decimal digit string, adding `carry`.
pub open spec fn dbl_lsb(d: Seq<u8>, carry: nat) -> Seq<u8>
    decreases d.len(),
{
    if d.len() == 0 {
        if carry > 0 {
            seq![(48 + carry) as u8]
        } else {
            Seq::empty()
        }
    } else {
        let v = 2 * (if d[0] >= 48 {
            (d[0] - 48) as nat
        } else {
            0
        }) + carry;
        seq![(48 + v % 10) as u8] + dbl_lsb(d.skip(1), v / 10)
    }
}

/// The digit string doubled `k` times.
pub open spec fn dbl_n_lsb(d: Seq<u8>, k: nat) -> Seq<u8>
    decreases k,
{
    if k == 0 {
        d
    } else {
        dbl_n_lsb(dbl_lsb(d, 0), (k - 1) as nat)
    }
}

/// The byte string read back to front.
pub open spec fn reversed(s: Seq<u8>) -> Seq<u8> {
    Seq::new(s.len(), |i: int| s[s.len() - 1 - i])
}

/// Sign bit of a binary32 pattern.
pub open spec fn f32_sign(bits: u32) -> bool {
    bits / 0x8000_0000 == 1
}

/// Exponent field of a binary32 pattern.
pub open spec fn f32_exp(bits: u32) -> nat {
    ((bits / 0x80_0000) % 0x100) as nat
}

/// Fraction field of a binary32 pattern.
pub open spec fn f32_frac(bits: u32) -> nat {
    (bits % 0x80_0000) as nat
}

/// Sign bit of a binary64 pattern.
pub open spec fn f64_sign(bits: u64) -> bool {
    bits / 0x8000_0000_0000_0000 == 1
}

/// Exponent field of a binary64 pattern.
pub open spec fn f64_exp(bits: u64) -> nat {
    ((bits / 0x10_0000_0000_0000) % 0x800) as nat
}

/// Fraction field of a binary64 pattern.
pub open spec fn f64_frac(bits: u64) -> nat {
    (bits % 0x10_0000_0000_0000) as nat
}

/// The significand of a finite value with the given fields: the fraction,
/// with the hidden bit added for normal numbers.
pub open spec fn sig_of(exp_field: nat, frac: nat, mb: nat) -> nat {
    if exp_field == 0 {
        frac
    } else {
        frac + pow2(mb)
    }
}

/// The power-of-two exponent of a finite value with the given fields, so
/// that the value is the significand times two to this power.
pub open spec fn exp_of(exp_field: nat, mb: nat, bias: nat) -> int {
    if exp_field == 0 {
        1 - bias - mb
    } else {
        exp_field - bias - mb
    }
}

/// The decimal rendering, with exactly six fraction digits and ties
/// rounded to even, of the unsigned value `m` times two to the `e`.
pub open spec fn fixed6_of_sig(m: nat, e: int) -> Seq<u8> {
    if e >= 0 {
        reversed(dbl_n_lsb(dec_digits_lsb(m), e as nat)) + seq![46u8] + fixed_digits(0, 6)
    } else {
        let j = (-e) as nat;
        let ip = m / pow2(j);
        let f = m % pow2(j);
        let t = div_round_even(f * pow10(6), pow2(j));
        if t == pow10(6) {
            reversed(dec_digits_lsb(ip + 1)) + seq![46u8] + fixed_digits(0, 6)
        } else {
            reversed(dec_digits_lsb(ip)) + seq![46u8] + fixed_digits(t, 6)
        }
    }
}

/// The bytes of "NaN".
pub open spec fn nan_token() -> Seq<u8> {
    seq![78u8, 97u8, 78u8]
}

/// The bytes of "inf".
pub open spec fn inf_token() -> Seq<u8> {
    seq![105u8, 110u8, 102u8]
}

/// The fixed-six-digit decimal rendering of a binary32 pattern: "NaN" or
/// "inf" for the non-finite classes, else the optionally signed exact
/// decimal of the value rounded to six fraction digits, ties to even.
pub open spec fn float32_fixed6(bits: u32) -> Seq<u8> {
    let s = f32_sign(bits);
    let e = f32_exp(bits);
    let f = f32_frac(bits);
    if e == 255 {
        if f != 0 {
            nan_token()
        } else if s {
            seq![45u8] + inf_token()
        } else {
            inf_token()
        }
    } else {
        let body = fixed6_of_sig(sig_of(e, f, 23), exp_of(e, 23, 127));
        if s {
            seq![45u8] + body
        } else {
            body
        }
    }
}

/// The fixed-six-digit decimal rendering of a binary64 pattern.
pub open spec fn float64_fixed6(bits: u64) -> Seq<u8> {
    let s = f64_sign(bits);
    let e = f64_exp(bits);
    let f = f64_frac(bits);
    if e == 2047 {
        if f != 0 {
            nan_token()
        } else if s {
            seq![45u8] + inf_token()
        } else {
            inf_token()
        }
    } else {
        let body = fixed6_of_sig(sig_of(e, f, 52), exp_of(e, 52, 1023));
        if s {
            seq![45u8] + body
        } else {
            body
        }
    }
}

/// Appends exactly `w` digits of `n`, most significant first.
fn push_fixed_digits(out: &mut Vec<u8>, n: u64, w: usize)
    ensures
        final(out)@ == old(out)@ + fixed_digits(n as nat, w as nat),
    decreases w,
{
    if w == 0 {
        proof {
            assert(out@ =~= old(out)@ + fixed_digits(n as nat, 0));
        }
    } else {
        push_fixed_digits(out, n / 10, w - 1);
        out.push(48 + (n % 10) as u8);
        proof {
            assert(out@ =~= old(out)@ + fixed_digits(n as nat, w as nat));
        }
    }
}

/// The decimal digits of `n`, least significant first.
fn dec_digits_lsb_u64(n: u64) -> (r: Vec<u8>)
    ensures
        r@ == dec_digits_lsb(n as nat),
    decreases n,
{
    let mut out: Vec<u8> = Vec::new();
    if n < 10 {
        out.push(48 + n as u8);
        proof {
            assert(out@ =~= dec_digits_lsb(n as nat));
        }
    } else {
        out.push(48 + (n % 10) as u8);
        let mut rest = dec_digits_lsb_u64(n / 10);
        out.append(&mut rest);
        proof {
            assert(out@ =~= dec_digits_lsb(n as nat));
        }
    }
    out
}

/// The digit string of `d` from position `i`, doubled once with `carry`.
fn dbl_from(d: &Vec<u8>, i: usize, carry: u8) -> (r: Vec<u8>)
    requires
        i <= d@.len(),
        carry <= 1,
        forall|k: int| 0 <= k < d@.len() ==> is_digit(#[trigger] d@[k]),
    ensures
        r@ == dbl_lsb(d@.skip(i as int), carry as nat),
        forall|k: int| 0 <= k < r@.len() ==> is_digit(#[trigger] r@[k]),
    decreases d@.len() - i,
{
    let mut out: Vec<u8> = Vec::new();
    if i == d.len() {
        if carry > 0 {
            out.push(48 + carry);
        }
        proof {
            assert(d@.skip(i as int) =~= Seq::<u8>::empty());
            assert(out@ =~= dbl_lsb(d@.skip(i as int), carry as nat));
        }
    } else {
        let v: u8 = (d[i] - 48) * 2 + carry;
        out.push(48 + v % 10);
        let mut rest = dbl_from(d, i + 1, v / 10);
        out.append(&mut rest);
        proof {
            let sk = d@.skip(i as int);
            assert(sk[0] == d@[i as int]);
            assert(sk.skip(1) =~= d@.skip(i + 1));
            assert(out@ =~= dbl_lsb(d@.skip(i as int), carry as nat));
        }
    }
    out
}

/// The digit string doubled `k` times.
fn dbl_n_exec(d: Vec<u8>, k: usize) -> (r: Vec<u8>)
    requires
        forall|t: int| 0 <= t < d@.len() ==> is_digit(#[trigger] d@[t]),
    ensures
        r@ == dbl_n_lsb(d@, k as nat),
    decreases k,
{
    if k == 0 {
        d
    } else {
        let d2 = dbl_from(&d, 0, 0);
        proof {
            assert(d@.skip(0) =~= d@);
        }
        dbl_n_exec(d2, k - 1)
    }
}

/// Appends `s` read back to front.
fn push_reversed(out: &mut Vec<u8>, s: &Vec<u8>)
    ensures
        final(out)@ == old(out)@ + reversed(s@),
{
    let n = s.len();
    let mut i: usize = 0;
    while i < n
        invariant
            i <= n,
            n == s@.len(),
            out@.len() == old(out)@.len() + i,
            forall|k: int| 0 <= k < old(out)@.len() ==> #[trigger] out@[k] == old(out)@[k],
            forall|k: int|
                old(out)@.len() <= k < old(out)@.len() + i ==> #[trigger] out@[k] == s@[n - 1 - (k
                    - old(out)@.len())],
        decreases n - i,
    {
        out.push(s[n - 1 - i]);
        i += 1;
    }
    proof {
        assert(out@ =~= old(out)@ + reversed(s@));
    }
}

/// Appends the fixed-six-digit decimal of the unsigned value `m` times
/// two to the `e`.
fn push_fixed6_sig(out: &mut Vec<u8>, m: u64, e: i32)
    requires
        m < pow2(53),
        -1075 <= e <= 1024,
    ensures
        final(out)@ == old(out)@ + fixed6_of_sig(m as nat, e as int),
{
    proof {
        vstd::arithmetic::power2::lemma2_to64();
        vstd::arithmetic::power2::lemma2_to64_rest();
    }
    if e >= 0 {
        let digits = dec_digits_lsb_u64(m);
        proof {
            lemma_dec_digits_lsb_are_digits(m as nat);
        }
        let doubled = dbl_n_exec(digits, e as usize);
        push_reversed(out, &doubled);
        out.push(46u8);
        push_fixed_digits(out, 0, 6);
        proof {
            assert(out@ =~= old(out)@ + fixed6_of_sig(m as nat, e as int));
        }
    } else {
        let j: usize = (-e) as usize;
        let ip: u64;
        let f: u64;
        if j >= 53 {
            ip = 0;
            f = m;
            proof {
                if j > 53 {
                    vstd::arithmetic::power2::lemma_pow2_strictly_increases(53, j as nat);
                }
                assert(m as nat / pow2(j as nat) == 0) by {
                    vstd::arithmetic::div_mod::lemma_basic_div(m as int, pow2(j as nat) as int);
                    if j > 53 {
                        vstd::arithmetic::power2::lemma_pow2_strictly_increases(53, j as nat);
                    }
                }
                assert(m as nat % pow2(j as nat) == m as nat) by {
                    if j > 53 {
                        vstd::arithmetic::power2::lemma_pow2_strictly_increases(53, j as nat);
                    }
                    vstd::arithmetic::div_mod::lemma_small_mod(m as nat, pow2(j as nat));
                }
            }
        } else {
            let p = pow2_u64(j);
            ip = m / p;
            f = m % p;
        }
        let x: u128 = (f as u128) * 1_000_000u128;
        proof {
            assert(pow10(6) == 1000000) by {
                lemma_pow10_unfold(6);
                lemma_pow10_unfold(5);
                lemma_pow10_unfold(4);
                lemma_pow10_unfold(3);
                lemma_pow10_unfold(2);
                lemma_pow10_unfold(1);
                vstd::arithmetic::power::lemma_pow0(10);
            }
            vstd::arithmetic::power2::lemma_pow2_adds(53, 20);
            assert(1000000 < pow2(20));
            assert(x < pow2(73)) by (nonlinear_arith)
                requires
                    f < pow2(53),
                    x == f * 1000000,
                    1000000 < pow2(20),
                    pow2(53) * pow2(20) == pow2(73),
            ;
        }
        proof {
            assert(f < pow2(j as nat)) by {
                if j >= 53 {
                    if j > 53 {
                        vstd::arithmetic::power2::lemma_pow2_strictly_increases(53, j as nat);
                    }
                } else {
                    vstd::arithmetic::div_mod::lemma_mod_bound(m as int, pow2(j as nat) as int);
                }
            }
            assert((x as nat) <= pow10(6) * pow2(j as nat)) by (nonlinear_arith)
                requires
                    f < pow2(j as nat),
                    x == f * 1000000,
                    pow10(6) == 1000000,
            ;
            lemma_round_even_bound(x as nat, pow2(j as nat), pow10(6));
        }
        let t: u64;
        if j >= 74 {
            proof {
                vstd::arithmetic::power2::lemma_pow2_adds(73, 1);
                vstd::arithmetic::power2::lemma2_to64();
                if j > 74 {
                    vstd::arithmetic::power2::lemma_pow2_strictly_increases(74, j as nat);
                }
                vstd::arithmetic::power2::lemma_pow2_strictly_increases(73, j as nat);
                let den = pow2(j as nat);
                vstd::arithmetic::div_mod::lemma_basic_div(x as int, den as int);
                vstd::arithmetic::div_mod::lemma_small_mod(x as nat, den);
                assert(2 * (x as nat) < den);
            }
            t = 0;
        } else {
            let den = pow2_u128(j);
            let q = x / den;
            let r = x % den;
            proof {
                if (j as nat) < 73 {
                    vstd::arithmetic::power2::lemma_pow2_strictly_increases(j as nat, 73);
                }
                vstd::arithmetic::power2::lemma_pow2_strictly_increases(73, 127);
                vstd::arithmetic::power2::lemma_pow2_adds(64, 63);
                vstd::arithmetic::power2::lemma2_to64();
                vstd::arithmetic::power2::lemma2_to64_rest();
                assert(r < den);
                assert(div_round_even(x as nat, den as nat) <= pow10(6));
            }
            if 2 * r < den {
                t = q as u64;
            } else if 2 * r > den {
                t = (q + 1) as u64;
            } else if q % 2 == 0 {
                t = q as u64;
            } else {
                t = (q + 1) as u64;
            }
        }
        proof {
            assert(ip <= m) by (nonlinear_arith)
                requires
                    ip as nat == m as nat / pow2(j as nat) || ip == 0,
                    m as nat / pow2(j as nat) <= m as nat,
            ;
        }
        let ipd: Vec<u8>;
        let t2: u64;
        if t == 1_000_000 {
            ipd = dec_digits_lsb_u64(ip + 1);
            t2 = 0;
        } else {
            ipd = dec_digits_lsb_u64(ip);
            t2 = t;
        }
        push_reversed(out, &ipd);
        out.push(46u8);
        push_fixed_digits(out, t2, 6);
        proof {
            assert(out@ =~= old(out)@ + fixed6_of_sig(m as nat, e as int));
        }
    }
}

/// Digit strings of values are digit bytes.
proof fn lemma_dec_digits_lsb_are_digits(n: nat)
    ensures
        forall|k: int| 0 <= k < dec_digits_lsb(n).len() ==> is_digit(#[trigger] dec_digits_lsb(n)[k]),
    decreases n,
{
    if n < 10 {
        assert(dec_digits_lsb(n) =~= seq![(48 + n) as u8]);
    } else {
        lemma_dec_digits_lsb_are_digits(n / 10);
        assert forall|k: int| 0 <= k < dec_digits_lsb(n).len() implies is_digit(
            #[trigger] dec_digits_lsb(n)[k],
        ) by {
            if k > 0 {
                assert(dec_digits_lsb(n)[k] == dec_digits_lsb(n / 10)[k - 1]);
            }
        }
    }
}

/// Rounding a quotient no greater than the scale yields at most the
/// scale.
proof fn lemma_round_even_bound(x: nat, den: nat, scale: nat)
    requires
        den >= 1,
        x <= scale * den,
    ensures
        div_round_even(x, den) <= scale,
{
    vstd::arithmetic::div_mod::lemma_fundamental_div_mod(x as int, den as int);
    let q = x / den;
    let r = x % den;
    assert(x == den * q + r);
    assert(q <= scale) by (nonlinear_arith)
        requires
            x == den * q + r,
            0 <= r,
            den >= 1,
            x <= scale * den,
            q >= 0,
            scale >= 0,
    ;
    if q == scale {
        assert(r == 0) by (nonlinear_arith)
            requires
                x == den * q + r,
                q == scale,
                x <= scale * den,
                r >= 0,
        ;
    }
}

/// The fixed-six-digit decimal rendering of a binary32 pattern, as
/// `float32_fixed6` describes it.
pub fn format_float32(bits: u32) -> (r: Vec<u8>)
    ensures
        r@ == float32_fixed6(bits),
{
    let sign: bool = bits / 0x8000_0000 == 1;
    let e: u32 = (bits / 0x80_0000) % 0x100;
    let f: u32 = bits % 0x80_0000;
    let mut out: Vec<u8> = Vec::new();
    if e == 255 {
        if f != 0 {
            out.push(78);
            out.push(97);
            out.push(78);
            proof {
                assert(out@ =~= float32_fixed6(bits));
            }
        } else {
            if sign {
                out.push(45);
            }
            out.push(105);
            out.push(110);
            out.push(102);
            proof {
                assert(out@ =~= float32_fixed6(bits));
            }
        }
        return out;
    }
    if sign {
        out.push(45);
    }
    let m: u64 = if e == 0 {
        f as u64
    } else {
        proof {
            vstd::arithmetic::power2::lemma2_to64();
        }
        f as u64 + 0x80_0000u64
    };
    let ee: i32 = if e == 0 {
        -149
    } else {
        e as i32 - 150
    };
    proof {
        vstd::arithmetic::power2::lemma2_to64();
        vstd::arithmetic::power2::lemma2_to64_rest();
        assert(m < pow2(53)) by {
            vstd::arithmetic::power2::lemma_pow2_strictly_increases(24, 53);
        }
    }
    push_fixed6_sig(&mut out, m, ee);
    proof {
        assert(out@ =~= float32_fixed6(bits));
    }
    out
}

/// The fixed-six-digit decimal rendering of a binary64 pattern, as
/// `float64_fixed6` describes it.
pub fn format_float64(bits: u64) -> (r: Vec<u8>)
    ensures
        r@ == float64_fixed6(bits),
{
    let sign: bool = bits / 0x8000_0000_0000_0000 == 1;
    let e: u64 = (bits / 0x10_0000_0000_0000) % 0x800;
    let f: u64 = bits % 0x10_0000_0000_0000;
    let mut out: Vec<u8> = Vec::new();
    if e == 2047 {
        if f != 0 {
            out.push(78);
            out.push(97);
            out.push(78);
            proof {
                assert(out@ =~= float64_fixed6(bits));
            }
        } else {
            if sign {
                out.push(45);
            }
            out.push(105);
            out.push(110);
            out.push(102);
            proof {
                assert(out@ =~= float64_fixed6(bits));
            }
        }
        return out;
    }
    if sign {
        out.push(45);
    }
    let m: u64 = if e == 0 {
        f
    } else {
        proof {
            vstd::arithmetic::power2::lemma2_to64();
            vstd::arithmetic::power2::lemma2_to64_rest();
        }
        f + 0x10_0000_0000_0000u64
    };
    let ee: i32 = if e == 0 {
        -1074
    } else {
        e as i32 - 1075
    };
    proof {
        vstd::arithmetic::power2::lemma2_to64();
        vstd::arithmetic::power2::lemma2_to64_rest();
    }
    push_fixed6_sig(&mut out, m, ee);
    proof {
        assert(out@ =~= float64_fixed6(bits));
    }
    out
}


/// Sign prefix of a token: whether it is negative, and where the digits
/// start.
pub open spec fn sign_split(s: Seq<u8>) -> (bool, int) {
    if s.len() > 0 && s[0] == 45 {
        (true, 1)
    } else if s.len() > 0 && s[0] == 43 {
        (false, 1)
    } else {
        (false, 0)
    }
}

/// Position of the first dot at or after `from`, or the length.
pub open spec fn dot_pos(s: Seq<u8>, from: int) -> int
    recommends
        0 <= from <= s.len(),
    decreases s.len() - from,
{
    if from < 0 || from >= s.len() {
        s.len() as int
    } else if s[from] == 46 {
        from
    } else {
        dot_pos(s, from + 1)
    }
}

/// Largest end position at most `to` with no trailing zero digits in
/// `[from, end)`.
pub open spec fn trim_end_zeros(s: Seq<u8>, from: int, to: int) -> int
    decreases to - from,
{
    if to <= from {
        from
    } else if s[to - 1] == 48 {
        trim_end_zeros(s, from, to - 1)
    } else {
        to
    }
}

/// Smallest start position at least `from` with no leading zero digits in
/// `[start, to)`.
pub open spec fn trim_start_zeros(s: Seq<u8>, from: int, to: int) -> int
    decreases to - from,
{
    if from >= to {
        to
    } else if s[from] == 48 {
        trim_start_zeros(s, from + 1, to)
    } else {
        from
    }
}

/// Whether `[from, to)` of `s` holds only zero digits.
pub open spec fn all_zero_digits(s: Seq<u8>, from: int, to: int) -> bool {
    forall|k: int| from <= k < to ==> s[k] == 48
}

/// Reads a token as a plain decimal number: an optional sign, integer
/// digits, and an optional dot with fraction digits.  Yields the sign, at
/// most the nineteen leading significant digits as an integer `n`, the
/// decimal exponent `e10` so that the kept digits are worth `n` times ten
/// to the `e10`, and a sticky flag set exactly when dropped digits make
/// the true value strictly larger.  Rejects tokens that do not follow the
/// grammar and fraction-only tokens with more than nineteen places.  An
/// integer part beyond four hundred nineteen digits keeps the exponent
/// pinned at four hundred, already past every supported format's finite
/// range.
pub open spec fn decimal_token(s: Seq<u8>) -> Option<(bool, nat, int, bool)> {
    let (neg, b) = sign_split(s);
    let d = dot_pos(s, b);
    let fstart = if d < s.len() {
        d + 1
    } else {
        d
    };
    let fend0 = s.len() as int;
    if !(all_digits(s, b, d) && all_digits(s, fstart, fend0)) {
        None
    } else if (d - b) + (fend0 - fstart) < 1 {
        None
    } else {
        let fend = trim_end_zeros(s, fstart, fend0);
        let istart = trim_start_zeros(s, b, d);
        let ilen = d - istart;
        let q = (fend - fstart) as nat;
        if ilen >= 20 {
            // keep the nineteen leading digits; the rest is sticky
            let e10 = if ilen - 19 > 400 {
                400int
            } else {
                ilen - 19
            };
            Some(
                (
                    neg,
                    digits_val(s, istart, istart + 19),
                    e10,
                    !all_zero_digits(s, istart + 19, d) || fend > fstart,
                ),
            )
        } else if ilen >= 1 && ilen + q > 19 {
            // keep the fraction digits that fit; the rest is sticky
            let t = 19 - ilen;
            Some(
                (
                    neg,
                    digits_val(s, istart, d) * pow10(t as nat) + digits_val(s, fstart, fstart + t),
                    -t,
                    fend > fstart + t,
                ),
            )
        } else if ilen + q > 19 {
            None
        } else {
            let n = digits_val(s, istart, d) * pow10(q) + digits_val(s, fstart, fend);
            Some((neg, n, -(q as int), false))
        }
    }
}

/// One upward normalization pass: doubles the denominator until the
/// scaled numerator is below the denominator times two to the `mb + 1`;
/// yields the denominator and the binary exponent.
pub open spec fn norm_up(num: nat, den: nat, e: int, mb: nat) -> (nat, int)
    decreases num - den,
{
    if den >= 1 && num >= 2 * den && num >= den * pow2(mb + 1) {
        norm_up(num, 2 * den, e + 1, mb)
    } else {
        (den, e)
    }
}

/// One downward normalization pass: doubles the numerator until it
/// reaches the denominator times two to the `mb`; yields the numerator
/// and the binary exponent.
pub open spec fn norm_down(num: nat, den: nat, e: int, mb: nat) -> (nat, int)
    decreases den * pow2(mb) - num,
{
    if num >= 1 && 2 * num < den * pow2(mb) {
        norm_down(2 * num, den, e - 1, mb)
    } else if num >= 1 && num < den * pow2(mb) {
        (2 * num, e - 1)
    } else {
        (num, e)
    }
}

/// The quotient rounded to nearest; a tie goes up when dropped input
/// digits say the true value lies strictly above, else to even.
pub open spec fn div_round_sticky(num: nat, den: nat, sticky: bool) -> nat
    recommends
        den >= 1,
{
    let q = num / den;
    let r = num % den;
    if 2 * r < den {
        q
    } else if 2 * r > den {
        q + 1
    } else if sticky {
        q + 1
    } else if q % 2 == 0 {
        q
    } else {
        q + 1
    }
}

/// The binary significand and exponent nearest to `n` times ten to the
/// `e10`, with a significand of `mb + 1` bits: fold the power of ten into
/// an exact numerator and denominator, normalize the rational into the
/// significand range, divide with sticky-aware rounding, and renormalize
/// after a carry.
pub open spec fn binary_of_rational(n: nat, e10: int, sticky: bool, mb: nat) -> (nat, int) {
    let num0 = if e10 >= 0 {
        n * crate::numtext::pow5(e10 as nat)
    } else {
        n
    };
    let den0 = if e10 >= 0 {
        1nat
    } else {
        pow10((-e10) as nat)
    };
    let e0 = if e10 >= 0 {
        e10
    } else {
        0
    };
    let (den1, e1) = norm_up(num0, den0, e0, mb);
    let r2 = norm_down(num0, den1, e1, mb);
    let num2 = r2.0;
    let e2 = r2.1;
    let m0 = div_round_sticky(num2, den1, sticky);
    if m0 == pow2(mb + 1) {
        (pow2(mb), e2 + 1)
    } else {
        (m0, e2)
    }
}

/// One halving pass: halves `m`, folding dropped bits into the sticky
/// flag, until it is below two to the ninety-six; yields the reduced
/// value, the number of halvings, and the sticky flag.
pub open spec fn halve96(m: nat, sticky: bool) -> (nat, nat, bool)
    decreases m,
{
    if m < pow2(96) || m == 0 {
        (m, 0, sticky)
    } else {
        let r = halve96(m / 2, sticky || m % 2 == 1);
        (r.0, r.1 + 1, r.2)
    }
}

/// Scales `n` by five, `k` times, keeping the running product below two
/// to the ninety-six by halving with a sticky flag; yields the scaled
/// value, the total number of halvings, and the sticky flag.  The value
/// `n` times five to the `k` equals the result times two to the halvings,
/// up to the dropped sticky bits.
pub open spec fn scale5(n: nat, k: nat, sticky: bool) -> (nat, nat, bool)
    decreases k,
{
    if k == 0 {
        (n, 0, sticky)
    } else {
        let h = halve96(n * 5, sticky);
        let r = scale5(h.0, (k - 1) as nat, h.2);
        (r.0, r.1 + h.1, r.2)
    }
}

/// The number of halvings that bring `num` under two to the `mb + 1`.
pub open spec fn shift_for(num: nat, mb: nat) -> nat
    decreases num,
{
    if num < pow2(mb + 1) || num == 0 {
        0
    } else {
        1 + shift_for(num / 2, mb)
    }
}

/// Rounds `num` to an `mb + 1` bit significand, nearest, sticky ties
/// upward, even otherwise; yields the significand and the binary exponent
/// the rounding added.
pub open spec fn round_bits(num: nat, sticky: bool, mb: nat) -> (nat, int) {
    let k = shift_for(num, mb);
    let m0 = div_round_sticky(num, pow2(k), sticky);
    if m0 == pow2(mb + 1) {
        (pow2(mb), k + 1int)
    } else {
        (m0, k as int)
    }
}

/// The binary32 pattern with the given sign, significand and exponent.
pub open spec fn pack32(neg: bool, m: nat, e: int) -> u32
    recommends
        pow2(23) <= m < pow2(24),
        -149 <= e <= 104,
{
    (((if neg {
        0x8000_0000nat
    } else {
        0nat
    }) + (e + 150) * 0x80_0000 + (m - 0x80_0000)) as u32)
}

/// The binary64 pattern with the given sign, significand and exponent.
pub open spec fn pack64(neg: bool, m: nat, e: int) -> u64
    recommends
        pow2(52) <= m < pow2(53),
        -1074 <= e <= 971,
{
    (((if neg {
        0x8000_0000_0000_0000nat
    } else {
        0nat
    }) + (e + 1075) * 0x10_0000_0000_0000 + (m - 0x10_0000_0000_0000)) as u64)
}

/// The binary32 pattern a decimal token names: "NaN"/"nan" and signed
/// "inf" map to the canonical non-finite patterns; a plain decimal maps
/// to the nearest binary32 value, ties to even, and a magnitude beyond
/// the largest finite value overflows to the signed infinity.
#[verifier::opaque]
pub open spec fn float32_of_decimal(s: Seq<u8>) -> Option<u32> {
    if s == nan_token() || s == seq![110u8, 97u8, 110u8] {
        Some(0x7FC0_0000u32)
    } else if s == inf_token() {
        Some(0x7F80_0000u32)
    } else if s == seq![45u8] + inf_token() {
        Some(0xFF80_0000u32)
    } else {
        match decimal_token(s) {
            None => None,
            Some((neg, n, e10, sticky)) => {
                if n == 0 {
                    Some(
                        if neg {
                            0x8000_0000u32
                        } else {
                            0u32
                        },
                    )
                } else if e10 > 27 {
                    // at least ten to the forty-six: past the format's range
                    Some(
                        if neg {
                            0xFF80_0000u32
                        } else {
                            0x7F80_0000u32
                        },
                    )
                } else {
                    let (m, e) = binary_of_rational(n, e10, sticky, 23);
                    if e > 104 {
                        Some(
                            if neg {
                                0xFF80_0000u32
                            } else {
                                0x7F80_0000u32
                            },
                        )
                    } else {
                        Some(pack32(neg, m, e))
                    }
                }
            },
        }
    }
}

/// The binary64 pattern a decimal token names.
#[verifier::opaque]
pub open spec fn float64_of_decimal(s: Seq<u8>) -> Option<u64> {
    if s == nan_token() || s == seq![110u8, 97u8, 110u8] {
        Some(0x7FF8_0000_0000_0000u64)
    } else if s == inf_token() {
        Some(0x7FF0_0000_0000_0000u64)
    } else if s == seq![45u8] + inf_token() {
        Some(0xFFF0_0000_0000_0000u64)
    } else {
        match decimal_token(s) {
            None => None,
            Some((neg, n, e10, sticky)) => {
                if n == 0 {
                    Some(
                        if neg {
                            0x8000_0000_0000_0000u64
                        } else {
                            0u64
                        },
                    )
                } else if e10 > 290 {
                    // at least ten to the three hundred eight and change:
                    // past the format's range
                    Some(
                        if neg {
                            0xFFF0_0000_0000_0000u64
                        } else {
                            0x7FF0_0000_0000_0000u64
                        },
                    )
                } else if e10 > 27 {
                    // too wide for the exact rational path: scale by fives
                    // with a sticky flag, then round the binary significand
                    let sc = scale5(n, e10 as nat, sticky);
                    let rb = round_bits(sc.0, sc.2, 52);
                    let e = e10 + sc.1 + rb.1;
                    if e > 971 {
                        Some(
                            if neg {
                                0xFFF0_0000_0000_0000u64
                            } else {
                                0x7FF0_0000_0000_0000u64
                            },
                        )
                    } else {
                        Some(pack64(neg, rb.0, e))
                    }
                } else {
                    let (m, e) = binary_of_rational(n, e10, sticky, 52);
                    if e > 971 {
                        Some(
                            if neg {
                                0xFFF0_0000_0000_0000u64
                            } else {
                                0x7FF0_0000_0000_0000u64
                            },
                        )
                    } else {
                        Some(pack64(neg, m, e))
                    }
                }
            },
        }
    }
}

/// Executable upward normalization, mirroring `norm_up`.
fn norm_up_exec(num: u128, den: u128, e: i32, mb: usize) -> (r: (u128, i32))
    requires
        23 <= mb <= 52,
        1 <= den,
        1 <= num,
        num < pow2(127),
        den * pow2((mb + 1) as nat) < pow2(128),
        0 <= e,
        pow2(e as nat) <= den * pow2(27),
    ensures
        (r.0 as nat, r.1 as int) == norm_up(num as nat, den as nat, e as int, mb as nat),
        r.0 >= 1,
        e <= r.1,
        num < r.0 * pow2((mb + 1) as nat),
        pow2(r.1 as nat) <= r.0 * pow2(27),
        r.0 == den || r.0 <= num,
        r.0 * pow2((mb + 1) as nat) < pow2(128),
    decreases num - den,
{
    proof {
        vstd::arithmetic::power2::lemma2_to64();
        vstd::arithmetic::power2::lemma2_to64_rest();
        vstd::arithmetic::power2::lemma_pow2_adds(mb as nat, 1);
        vstd::arithmetic::power2::lemma_pow2_pos(mb as nat);
        vstd::arithmetic::power2::lemma_pow2_pos((mb + 1) as nat);
        vstd::arithmetic::power2::lemma_pow2_adds(64, 64);
        vstd::arithmetic::power2::lemma_pow2_adds(127, 1);
        vstd::arithmetic::power2::lemma_pow2_adds(127, 27);
        vstd::arithmetic::power2::lemma_pow2_adds(64, 63);
    }
    let pm = pow2_u128(mb + 1);
    proof {
        assert(pow2(128) == pow2(64) * pow2(64));
        assert(den * pm < pow2(128));
        assert(pm >= 2) by {
            vstd::arithmetic::power2::lemma_pow2_strictly_increases(1, (mb + 1) as nat);
        }
        assert(2 * den <= den * pm) by (nonlinear_arith)
            requires
                pm >= 2,
                den >= 1,
        ;
    }
    let t = den * pm;
    if num >= 2 * den && num >= t {
        proof {
            assert(2 * den <= num);
            assert(pow2((e + 1) as nat) == 2 * pow2(e as nat)) by {
                vstd::arithmetic::power2::lemma_pow2_unfold((e + 1) as nat);
            }
            // the exponent stays far below the loop's numeric headroom
            assert(e <= 154) by {
                if e >= 155 {
                    assert(den * pow2(27) <= num * pow2(27)) by (nonlinear_arith)
                        requires
                            den <= num,
                            pow2(27) >= 1,
                    ;
                    assert(num * pow2(27) < pow2(127) * pow2(27)) by (nonlinear_arith)
                        requires
                            num < pow2(127),
                            pow2(27) >= 1,
                    ;
                    if e > 155 {
                        vstd::arithmetic::power2::lemma_pow2_strictly_increases(155, e as nat);
                    }
                    vstd::arithmetic::power2::lemma_pow2_strictly_increases(154, 155);
                }
            }
            assert(2 * (den * pow2((mb + 1) as nat)) < pow2(128)) by (nonlinear_arith)
                requires
                    den * pow2((mb + 1) as nat) <= num,
                    num < pow2(127),
                    pow2(128) == 2 * pow2(127),
            ;
            assert(pow2((e + 1) as nat) <= (2 * den) * pow2(27)) by (nonlinear_arith)
                requires
                    pow2(e as nat) <= den * pow2(27),
                    pow2((e + 1) as nat) == 2 * pow2(e as nat),
            ;
            assert((2 * den) * pow2((mb + 1) as nat) == 2 * (den * pow2((mb + 1) as nat)))
                by (nonlinear_arith);
        }
        let rr = norm_up_exec(num, 2 * den, e + 1, mb);
        rr
    } else {
        proof {
            assert(num < den * pow2((mb + 1) as nat)) by (nonlinear_arith)
                requires
                    !(num >= 2 * den && num >= den * pow2((mb + 1) as nat)),
                    pow2((mb + 1) as nat) >= 2,
                    den >= 1,
            ;
        }
        (den, e)
    }
}

/// Executable downward normalization, mirroring `norm_down`.
fn norm_down_exec(num: u128, den: u128, e: i32, mb: usize) -> (r: (u128, i32))
    requires
        23 <= mb <= 52,
        1 <= den,
        1 <= num,
        num < pow2(127),
        num < den * pow2((mb + 1) as nat),
        den * pow2((mb + 1) as nat) < pow2(128),
        e <= 160,
        e >= 0 || pow2((-e) as nat) <= 2 * (num as nat),
    ensures
        (r.0 as nat, r.1 as int) == norm_down(num as nat, den as nat, e as int, mb as nat),
        r.0 >= 1,
        den * pow2(mb as nat) <= r.0,
        r.0 < den * pow2((mb + 1) as nat),
        r.1 <= e,
        -128 <= r.1,
        r.0 as nat == num as nat * pow2((e - r.1) as nat),
    decreases den * pow2(mb as nat) - num,
{
    proof {
        vstd::arithmetic::power2::lemma_pow2_adds(mb as nat, 1);
        vstd::arithmetic::power2::lemma_pow2_pos(mb as nat);
        vstd::arithmetic::power2::lemma2_to64();
        vstd::arithmetic::power2::lemma2_to64_rest();
        vstd::arithmetic::power2::lemma_pow2_adds(127, 1);
        vstd::arithmetic::power2::lemma_pow2_adds(64, 63);
        assert(e >= -128) by {
            if e < -128 {
                if (-e) as nat > 128 {
                    vstd::arithmetic::power2::lemma_pow2_strictly_increases(128, (-e) as nat);
                }
                assert(2 * (num as nat) < pow2(128));
            }
        }
    }
    let pm = pow2_u128(mb);
    proof {
        vstd::arithmetic::power2::lemma_pow2_strictly_increases(mb as nat, (mb + 1) as nat);
        assert(den * pow2(mb as nat) <= den * pow2((mb + 1) as nat)) by (nonlinear_arith)
            requires
                pow2(mb as nat) <= pow2((mb + 1) as nat),
                den >= 1,
        ;
        assert(2 * (den * pow2(mb as nat)) == den * pow2((mb + 1) as nat)) by (nonlinear_arith)
            requires
                pow2((mb + 1) as nat) == pow2(mb as nat) * 2,
        ;
    }
    let t = den * pm;
    if 2 * num < t {
        proof {
            if e - 1 < 0 {
                assert(pow2((-(e - 1)) as nat) <= 2 * ((2 * num) as nat)) by {
                    if e >= 0 {
                        assert(e == 0);
                        assert(pow2(1) == 2);
                    } else {
                        vstd::arithmetic::power2::lemma_pow2_adds((-e) as nat, 1);
                        assert(pow2(1) == 2);
                    }
                }
            }
            assert(2 * num < pow2(127)) by (nonlinear_arith)
                requires
                    2 * num < den * pow2(mb as nat),
                    2 * (den * pow2(mb as nat)) == den * pow2((mb + 1) as nat),
                    den * pow2((mb + 1) as nat) < pow2(128),
                    pow2(128) == 2 * pow2(127),
            ;
        }
        let rr = norm_down_exec(2 * num, den, e - 1, mb);
        proof {
            assert(pow2((e - rr.1) as nat) == 2 * pow2((e - 1 - rr.1) as nat)) by {
                vstd::arithmetic::power2::lemma_pow2_adds(1, (e - 1 - rr.1) as nat);
                vstd::arithmetic::power2::lemma2_to64();
            }
            assert(rr.0 as nat == num as nat * pow2((e - rr.1) as nat)) by (nonlinear_arith)
                requires
                    rr.0 as nat == (2 * num) as nat * pow2((e - 1 - rr.1) as nat),
                    pow2((e - rr.1) as nat) == 2 * pow2((e - 1 - rr.1) as nat),
        ;
        }
        rr
    } else if num < t {
        proof {
            vstd::arithmetic::power2::lemma2_to64();
            assert((2 * num) as nat == num as nat * pow2(1)) by (nonlinear_arith)
                requires
                    pow2(1) == 2,
            ;
            assert(2 * num < den * pow2((mb + 1) as nat));
        }
        (2 * num, e - 1)
    } else {
        proof {
            assert(num as nat * pow2(0) == num as nat) by (nonlinear_arith)
                requires
                    pow2(0) == 1,
            ;
        }
        (num, e)
    }
}

/// The nearest binary significand and exponent for the value `n` times
/// ten to the `e10`, as `binary_of_rational` describes it: dropped input
/// digits enter as the sticky flag.
fn rational_to_binary(n: u64, e10: i32, sticky: bool, mb: usize) -> (r: (u64, i32))
    requires
        1 <= n,
        -19 <= e10 <= 27,
        23 <= mb <= 52,
    ensures
        (r.0 as nat, r.1 as int) == binary_of_rational(n as nat, e10 as int, sticky, mb as nat),
        pow2(mb as nat) <= r.0 < pow2((mb + 1) as nat),
        -128 <= r.1 <= 134,
{
    proof {
        vstd::arithmetic::power2::lemma2_to64();
        vstd::arithmetic::power2::lemma2_to64_rest();
        vstd::arithmetic::power2::lemma_pow2_adds(64, 63);
        vstd::arithmetic::power2::lemma_pow2_adds(64, 64);
        vstd::arithmetic::power2::lemma_pow2_adds(105, 27);
    }
    let num0: u128;
    let den0: u128;
    let e0: i32;
    if e10 >= 0 {
        let p5 = crate::numtext::pow5_u128(e10 as usize);
        proof {
            crate::numtext::lemma_pow5_bound27(e10 as nat);
            assert((n as u128) * p5 < pow2(64) * pow2(63)) by (nonlinear_arith)
                requires
                    n < pow2(64),
                    p5 <= 7450580596923828125 < pow2(63),
            ;
            assert((n as u128) * p5 >= 1) by (nonlinear_arith)
                requires
                    n >= 1,
                    p5 >= 1,
            ;
            assert(pow2(e10 as nat) <= pow2(27)) by {
                if e10 < 27 {
                    vstd::arithmetic::power2::lemma_pow2_strictly_increases(e10 as nat, 27);
                }
            }
        }
        num0 = (n as u128) * p5;
        den0 = 1;
        e0 = e10;
    } else {
        proof {
            crate::numtext::lemma_pow10_bound19((-e10) as nat);
        }
        num0 = n as u128;
        den0 = pow10_u64((-e10) as usize) as u128;
        e0 = 0;
    }
    proof {
        vstd::arithmetic::power2::lemma_pow2_strictly_increases(127, 128);
        vstd::arithmetic::power2::lemma_pow2_strictly_increases((mb + 1) as nat, 54);
        vstd::arithmetic::power2::lemma_pow2_adds(64, 54);
        assert(den0 * pow2((mb + 1) as nat) < pow2(64) * pow2(54)) by (nonlinear_arith)
            requires
                den0 < pow2(64),
                pow2((mb + 1) as nat) < pow2(54),
                pow2((mb + 1) as nat) >= 1,
        ;
        vstd::arithmetic::power2::lemma_pow2_strictly_increases(118, 128);
        assert(pow2(e0 as nat) <= den0 * pow2(27)) by (nonlinear_arith)
            requires
                pow2(e0 as nat) <= pow2(27),
                den0 >= 1,
        ;
        vstd::arithmetic::power2::lemma_pow2_strictly_increases(127, 128);
    }
    let rn = norm_up_exec(num0, den0, e0, mb);
    let den1 = rn.0;
    let e1 = rn.1;
    proof {
        // the exponent after the upward pass is bounded by the headroom
        vstd::arithmetic::power2::lemma_pow2_adds(104, 24);
        vstd::arithmetic::power2::lemma_pow2_adds(104, 27);
        vstd::arithmetic::power2::lemma_pow2_strictly_increases(104, 105);
        assert(pow2(24) <= pow2((mb + 1) as nat)) by {
            if 24 < mb + 1 {
                vstd::arithmetic::power2::lemma_pow2_strictly_increases(24, (mb + 1) as nat);
            }
        }
        assert(den1 * pow2(24) <= den1 * pow2((mb + 1) as nat)) by (nonlinear_arith)
            requires
                pow2(24) <= pow2((mb + 1) as nat),
                den1 >= 1,
        ;
        assert(den1 < pow2(104)) by (nonlinear_arith)
            requires
                den1 * pow2(24) < pow2(104) * pow2(24),
                pow2(24) >= 1,
        ;
        assert(den1 * pow2(27) < pow2(104) * pow2(27)) by (nonlinear_arith)
            requires
                den1 < pow2(104),
                pow2(27) >= 1,
        ;
        assert(e1 <= 132) by {
            if e1 >= 133 {
                if e1 > 133 {
                    vstd::arithmetic::power2::lemma_pow2_strictly_increases(133, e1 as nat);
                }
                vstd::arithmetic::power2::lemma_pow2_strictly_increases(131, 133);
            }
        }
    }
    let nd = norm_down_exec(num0, den1, e1, mb);
    let num2 = nd.0;
    let e2 = nd.1;
    let q0 = num2 / den1;
    let r0 = num2 % den1;
    proof {
        vstd::arithmetic::div_mod::lemma_fundamental_div_mod(num2 as int, den1 as int);
        assert(q0 >= pow2(mb as nat)) by (nonlinear_arith)
            requires
                (num2 as nat) >= den1 as nat * pow2(mb as nat),
                num2 as nat == den1 as nat * (q0 as nat) + r0 as nat,
                r0 < den1,
                den1 >= 1,
        ;
        assert(q0 < pow2((mb + 1) as nat)) by (nonlinear_arith)
            requires
                (num2 as nat) < den1 as nat * pow2((mb + 1) as nat),
                num2 as nat == den1 as nat * (q0 as nat) + r0 as nat,
                r0 >= 0,
                den1 >= 1,
        ;
        vstd::arithmetic::power2::lemma_pow2_strictly_increases((mb + 1) as nat, 54);
        vstd::arithmetic::power2::lemma_pow2_adds(104, 1);
        assert(2 * r0 < pow2(105)) by (nonlinear_arith)
            requires
                r0 < den1,
                den1 < pow2(104),
                pow2(105) == 2 * pow2(104),
        ;
        vstd::arithmetic::power2::lemma_pow2_strictly_increases(105, 127);
    }
    let m0: u64 = if 2 * r0 < den1 {
        q0 as u64
    } else if 2 * r0 > den1 {
        (q0 + 1) as u64
    } else if sticky {
        (q0 + 1) as u64
    } else if q0 % 2 == 0 {
        q0 as u64
    } else {
        (q0 + 1) as u64
    };
    let pmb1 = pow2_u64(mb + 1);
    if m0 == pmb1 {
        let pmb = pow2_u64(mb);
        (pmb, e2 + 1)
    } else {
        (m0, e2)
    }
}

/// Executable halving pass, mirroring `halve96`.
fn halve96_exec(m: u128, sticky: bool) -> (r: (u128, usize, bool))
    requires
        m < pow2(99),
    ensures
        (r.0 as nat, r.1 as nat, r.2) == halve96(m as nat, sticky),
        r.0 < pow2(96),
        r.1 == 0 ==> r.0 == m,
        r.1 >= 1 ==> r.0 >= pow2(95) && pow2((95 + r.1) as nat) <= m,
    decreases m,
{
    proof {
        vstd::arithmetic::power2::lemma2_to64();
        vstd::arithmetic::power2::lemma2_to64_rest();
        vstd::arithmetic::power2::lemma_pow2_adds(64, 32);
        vstd::arithmetic::power2::lemma_pow2_adds(64, 31);
        vstd::arithmetic::power2::lemma_pow2_adds(64, 35);
    }
    let p96 = pow2_u128(96);
    if m < p96 {
        (m, 0, sticky)
    } else {
        let half = m / 2;
        proof {
            assert(m as nat == 2 * (half as nat) + (m as nat) % 2);
            assert(half >= pow2(95)) by {
                if half < pow2(95) {
                    assert(2 * (half as nat) + 1 < pow2(96));
                }
            }
        }
        let rr = halve96_exec(half, sticky || m % 2 == 1);
        proof {
            if rr.1 == 0 {
                assert(pow2(96) == 2 * pow2(95));
            } else {
                vstd::arithmetic::power2::lemma_pow2_adds((95 + rr.1) as nat, 1);
                assert(pow2((95 + rr.1 + 1) as nat) == 2 * pow2((95 + rr.1) as nat));
            }
            assert(half < pow2(98)) by {
                vstd::arithmetic::power2::lemma_pow2_adds(64, 34);
                assert(pow2(99) == 2 * pow2(98));
            }
            assert(rr.1 <= 2) by {
                if rr.1 >= 3 {
                    if 95 + rr.1 > 98 {
                        vstd::arithmetic::power2::lemma_pow2_strictly_increases(
                            98,
                            (95 + rr.1) as nat,
                        );
                    }
                    vstd::arithmetic::power2::lemma_pow2_adds(64, 34);
                }
            }
        }
        (rr.0, rr.1 + 1, rr.2)
    }
}

/// Executable scaling pass, mirroring `scale5`.
fn scale5_exec(n: u128, k: usize, sticky: bool) -> (r: (u128, usize, bool))
    requires
        pow2(59) <= n,
        n < pow2(96),
        k <= 290,
    ensures
        (r.0 as nat, r.1 as nat, r.2) == scale5(n as nat, k as nat, sticky),
        r.0 < pow2(96),
        pow2(59) <= r.0,
        r.1 <= 3 * k,
    decreases k,
{
    proof {
        vstd::arithmetic::power2::lemma2_to64();
        vstd::arithmetic::power2::lemma2_to64_rest();
        vstd::arithmetic::power2::lemma_pow2_adds(64, 32);
        vstd::arithmetic::power2::lemma_pow2_adds(64, 35);
        vstd::arithmetic::power2::lemma_pow2_adds(96, 3);
    }
    if k == 0 {
        (n, 0, sticky)
    } else {
        proof {
            assert(n * 5 < pow2(99)) by (nonlinear_arith)
                requires
                    n < pow2(96),
                    pow2(99) == pow2(96) * pow2(3),
                    pow2(3) == 8,
            ;
            assert(n <= n * 5) by (nonlinear_arith)
                requires
                    n >= 0,
            ;
        }
        let h = halve96_exec(n * 5, sticky);
        proof {
            if h.1 >= 1 {
                vstd::arithmetic::power2::lemma_pow2_strictly_increases(59, 95);
                assert(h.1 <= 3) by {
                    if h.1 >= 4 {
                        if 95 + h.1 > 99 {
                            vstd::arithmetic::power2::lemma_pow2_strictly_increases(
                                99,
                                (95 + h.1) as nat,
                            );
                        }
                    }
                }
            }
        }
        let rr = scale5_exec(h.0, k - 1, h.2);
        (rr.0, rr.1 + h.1, rr.2)
    }
}

/// Executable rounding to a bounded significand, mirroring `round_bits`.
fn round_bits_exec(num: u128, sticky: bool, mb: usize) -> (r: (u64, i32))
    requires
        23 <= mb <= 52,
        pow2((mb + 1) as nat) <= num,
        num < pow2(96),
    ensures
        (r.0 as nat, r.1 as int) == round_bits(num as nat, sticky, mb as nat),
        pow2(mb as nat) <= r.0 < pow2((mb + 1) as nat),
        1 <= r.1 <= 97,
{
    proof {
        vstd::arithmetic::power2::lemma2_to64();
        vstd::arithmetic::power2::lemma2_to64_rest();
        vstd::arithmetic::power2::lemma_pow2_adds(64, 32);
        vstd::arithmetic::power2::lemma_pow2_pos(mb as nat);
    }
    let pmb1 = pow2_u128(mb + 1);
    let mut k: usize = 0;
    let mut t: u128 = num;
    while t >= pmb1
        invariant
            23 <= mb <= 52,
            pow2((mb + 1) as nat) <= num < pow2(96),
            pmb1 as nat == pow2((mb + 1) as nat),
            t as nat == (num as nat) / pow2(k as nat),
            shift_for(num as nat, mb as nat) == k + shift_for(t as nat, mb as nat),
            k <= 96,
            k >= 1 ==> pow2(mb as nat) <= t,
            k == 0 ==> t == num,
        decreases t,
    {
        proof {
            vstd::arithmetic::power2::lemma2_to64();
            vstd::arithmetic::power2::lemma_pow2_pos(k as nat);
            vstd::arithmetic::power2::lemma_pow2_pos(mb as nat);
            vstd::arithmetic::power2::lemma_pow2_pos((mb + 1) as nat);
            vstd::arithmetic::power2::lemma_pow2_adds(k as nat, 1);
            vstd::arithmetic::power2::lemma_pow2_adds(mb as nat, 1);
            vstd::arithmetic::div_mod::lemma_div_denominator(
                num as int,
                pow2(k as nat) as int,
                2,
            );
            assert(shift_for(t as nat, mb as nat) == 1 + shift_for((t as nat) / 2, mb as nat));
            assert(pow2(k as nat) * (t as nat) <= num as nat) by (nonlinear_arith)
                requires
                    t as nat == (num as nat) / pow2(k as nat),
                    pow2(k as nat) >= 1,
            ;
            assert(2 * pow2(k as nat) <= num) by (nonlinear_arith)
                requires
                    pow2(k as nat) * (t as nat) <= num as nat,
                    t >= 2,
                    pow2(k as nat) >= 1,
            ;
            assert(k < 96) by {
                if k >= 96 {
                    if k > 96 {
                        vstd::arithmetic::power2::lemma_pow2_strictly_increases(96, k as nat);
                    }
                    assert(2 * pow2(k as nat) <= num);
                }
            }
            assert(t as nat == 2 * ((t as nat) / 2) + (t as nat) % 2);
            assert((t as nat) / 2 >= pow2(mb as nat)) by {
                if (t as nat) / 2 < pow2(mb as nat) {
                    assert(2 * ((t as nat) / 2) + 1 < pow2((mb + 1) as nat));
                }
            }
        }
        t = t / 2;
        k = k + 1;
    }
    proof {
        assert(k >= 1);
        assert(shift_for(t as nat, mb as nat) == 0);
        assert(shift_for(num as nat, mb as nat) == k as nat);
    }
    let p = pow2_u128(k);
    let q = num / p;
    let rm = num % p;
    proof {
        assert(q == t);
        assert(pow2(k as nat) <= pow2(96)) by {
            if k < 96 {
                vstd::arithmetic::power2::lemma_pow2_strictly_increases(k as nat, 96);
            }
        }
        vstd::arithmetic::power2::lemma_pow2_adds(96, 1);
    }
    let m0: u64 = if 2 * rm < p {
        q as u64
    } else if 2 * rm > p {
        q as u64 + 1
    } else if sticky {
        q as u64 + 1
    } else if q % 2 == 0 {
        q as u64
    } else {
        q as u64 + 1
    };
    proof {
        assert(m0 as nat == div_round_sticky(num as nat, pow2(k as nat), sticky));
    }
    let pm1 = pow2_u64(mb + 1);
    if m0 == pm1 {
        let pm = pow2_u64(mb);
        (pm, k as i32 + 1)
    } else {
        (m0, k as i32)
    }
}

/// Reads a token as a plain signed decimal: the sign, at most the
/// nineteen leading significant digits as an integer, the matching
/// decimal exponent, and the sticky flag for dropped digits, as
/// `decimal_token` describes it.
#[verifier::rlimit(100)]
#[verifier::spinoff_prover]
fn read_decimal_token(t: &[u8]) -> (r: Option<(bool, u64, i32, bool)>)
    ensures
        r is Some <==> decimal_token(t@) is Some,
        r matches Some(v) ==> decimal_token(t@) == Some((v.0, v.1 as nat, v.2 as int, v.3)),
        r matches Some(v) ==> -19 <= v.2 <= 400,
{
    let len = t.len();
    let mut b: usize = 0;
    let mut neg: bool = false;
    if len > 0 && t[0] == 45 {
        neg = true;
        b = 1;
    } else if len > 0 && t[0] == 43 {
        b = 1;
    }
    proof {
        assert(sign_split(t@) == (neg, b as int));
    }
    let mut d: usize = b;
    while d < len && t[d] != 46
        invariant
            b <= d <= len,
            len == t@.len(),
            dot_pos(t@, b as int) == dot_pos(t@, d as int),
        decreases len - d,
    {
        d += 1;
    }
    proof {
        assert(dot_pos(t@, b as int) == d);
    }
    let fstart: usize = if d < len {
        d + 1
    } else {
        d
    };
    let mut i: usize = b;
    while i < d
        invariant
            b <= i <= d <= len,
            len == t@.len(),
            all_digits(t@, b as int, i as int),
            sign_split(t@) == (neg, b as int),
            dot_pos(t@, b as int) == d as int,
        decreases d - i,
    {
        let c = t[i];
        if c < 48 || c > 57 {
            proof {
                assert(!is_digit(t@[i as int]));
                assert(!all_digits(t@, b as int, d as int));
                assert(sign_split(t@).1 == b as int);
                assert(dot_pos(t@, b as int) == d as int);
                assert(decimal_token(t@) is None);
            }
            return None;
        }
        i += 1;
    }
    let mut i2: usize = fstart;
    while i2 < len
        invariant
            fstart <= i2 <= len,
            b <= d <= len,
            len == t@.len(),
            all_digits(t@, fstart as int, i2 as int),
            all_digits(t@, b as int, d as int),
            sign_split(t@) == (neg, b as int),
            dot_pos(t@, b as int) == d as int,
            fstart == (if d < len { d + 1 } else { d as int }),
        decreases len - i2,
    {
        let c = t[i2];
        if c < 48 || c > 57 {
            proof {
                assert(!is_digit(t@[i2 as int]));
                assert(!all_digits(t@, fstart as int, len as int));
                assert(sign_split(t@).1 == b as int);
                assert(dot_pos(t@, b as int) == d as int);
                assert(decimal_token(t@) is None);
            }
            return None;
        }
        i2 += 1;
    }
    if d - b == 0 && len - fstart == 0 {
        return None;
    }
    let mut fend: usize = len;
    while fend > fstart && t[fend - 1] == 48
        invariant
            fstart <= fend <= len,
            len == t@.len(),
            trim_end_zeros(t@, fstart as int, len as int) == trim_end_zeros(
                t@,
                fstart as int,
                fend as int,
            ),
        decreases fend,
    {
        fend -= 1;
    }
    proof {
        assert(trim_end_zeros(t@, fstart as int, len as int) == fend);
    }
    let mut istart: usize = b;
    while istart < d && t[istart] == 48
        invariant
            b <= istart <= d <= len,
            len == t@.len(),
            trim_start_zeros(t@, b as int, d as int) == trim_start_zeros(
                t@,
                istart as int,
                d as int,
            ),
        decreases d - istart,
    {
        istart += 1;
    }
    proof {
        assert(trim_start_zeros(t@, b as int, d as int) == istart);
    }
    let q: usize = fend - fstart;
    let ilen: usize = d - istart;
    if ilen >= 20 {
        // a long integer part: keep the nineteen leading digits
        proof {
            crate::numtext::lemma_pow10_bound19(19);
            lemma_digits_val_bound(t@, istart as int, istart + 19);
        }
        let n: u64 = match crate::numtext::parse_u64_digits(t, istart, istart + 19) {
            Some(v) => v,
            None => {
                return None;
            },
        };
        let mut sticky: bool = fend > fstart;
        let mut k: usize = istart + 19;
        while k < d
            invariant
                istart + 19 <= k <= d <= t@.len(),
                sticky == (fend > fstart || !all_zero_digits(t@, istart + 19, k as int)),
            decreases d - k,
        {
            if t[k] != 48 {
                sticky = true;
            }
            k += 1;
        }
        let e10: i32 = if ilen - 19 > 400 {
            400
        } else {
            (ilen - 19) as i32
        };
        return Some((neg, n, e10, sticky));
    }
    if ilen >= 1 && ilen + q > 19 {
        // a long fraction: keep what fits beside the integer digits
        let tk: usize = 19 - ilen;
        proof {
            crate::numtext::lemma_pow10_bound19(ilen as nat);
            crate::numtext::lemma_pow10_bound19(tk as nat);
            lemma_digits_val_bound(t@, istart as int, d as int);
            lemma_digits_val_bound(t@, fstart as int, fstart + tk);
        }
        let iv: u64 = match crate::numtext::parse_u64_digits(t, istart, d) {
            Some(v) => v,
            None => {
                return None;
            },
        };
        let fv: u64 = if tk == 0 {
            0
        } else {
            match crate::numtext::parse_u64_digits(t, fstart, fstart + tk) {
                Some(v) => v,
                None => {
                    return None;
                },
            }
        };
        let p = pow10_u64(tk);
        proof {
            vstd::arithmetic::power::lemma_pow_adds(10, ilen as nat, tk as nat);
            crate::numtext::lemma_pow10_bound19((ilen + tk) as nat);
            vstd::arithmetic::power::lemma_pow_positive(10, ilen as nat);
            vstd::arithmetic::power::lemma_pow_positive(10, tk as nat);
            vstd::arithmetic::power::lemma_pow_positive(10, (ilen + tk) as nat);
            assert((iv as nat) * pow10(tk as nat) + (fv as nat) < pow10((ilen + tk) as nat))
                by (nonlinear_arith)
                requires
                    (iv as nat) < pow10(ilen as nat),
                    (fv as nat) < pow10(tk as nat),
                    pow10((ilen + tk) as nat) == pow10(ilen as nat) * pow10(tk as nat),
                    pow10(tk as nat) >= 1,
                    pow10(ilen as nat) >= 1,
            ;
            if tk == 0 {
                assert(digits_val(t@, fstart as int, fstart as int) == 0);
                vstd::arithmetic::power::lemma_pow0(10);
            }
        }
        let n: u64 = iv * p + fv;
        return Some((neg, n, -(tk as i32), true));
    }
    if ilen + q > 19 {
        return None;
    }
    proof {
        crate::numtext::lemma_pow10_bound19(ilen as nat);
        crate::numtext::lemma_pow10_bound19(q as nat);
        lemma_digits_val_bound(t@, istart as int, d as int);
        lemma_digits_val_bound(t@, fstart as int, fend as int);
    }
    let iv: u64 = if istart == d {
        0
    } else {
        match crate::numtext::parse_u64_digits(t, istart, d) {
            Some(v) => v,
            None => {
                return None;
            },
        }
    };
    let fv: u64 = if fstart == fend {
        0
    } else {
        match crate::numtext::parse_u64_digits(t, fstart, fend) {
            Some(v) => v,
            None => {
                return None;
            },
        }
    };
    let p = pow10_u64(q);
    proof {
        vstd::arithmetic::power::lemma_pow_adds(10, ilen as nat, q as nat);
        crate::numtext::lemma_pow10_bound19((ilen + q) as nat);
        vstd::arithmetic::power::lemma_pow_positive(10, ilen as nat);
        vstd::arithmetic::power::lemma_pow_positive(10, q as nat);
        vstd::arithmetic::power::lemma_pow_positive(10, (ilen + q) as nat);
        assert((iv as nat) * pow10(q as nat) + (fv as nat) < pow10((ilen + q) as nat))
            by (nonlinear_arith)
            requires
                (iv as nat) < pow10(ilen as nat),
                (fv as nat) < pow10(q as nat),
                pow10((ilen + q) as nat) == pow10(ilen as nat) * pow10(q as nat),
                pow10(q as nat) >= 1,
                pow10(ilen as nat) >= 1,
        ;
    }
    let n: u64 = iv * p + fv;
    Some((neg, n, -(q as i32), false))
}

/// The dot scan stays between its start and the end of the string.
proof fn lemma_dot_pos_range(s: Seq<u8>, from: int)
    requires
        0 <= from <= s.len(),
    ensures
        from <= dot_pos(s, from) <= s.len(),
    decreases s.len() - from,
{
    if from < s.len() && s[from] != 46 {
        lemma_dot_pos_range(s, from + 1);
    }
}

/// The start trim stays in its range and lands on the end or on a
/// nonzero byte.
proof fn lemma_trim_start_nonzero(s: Seq<u8>, from: int, to: int)
    requires
        from <= to,
    ensures
        from <= trim_start_zeros(s, from, to) <= to,
        trim_start_zeros(s, from, to) == to || s[trim_start_zeros(s, from, to)] != 48,
    decreases to - from,
{
    if from < to && s[from] == 48 {
        lemma_trim_start_nonzero(s, from + 1, to);
    }
}

/// A token's decimal exponent is positive only where nineteen leading
/// digits headed by a nonzero one were kept, so the kept value has
/// nineteen digits.
proof fn lemma_decimal_token_big(s: Seq<u8>)
    requires
        decimal_token(s) is Some,
        decimal_token(s)->Some_0.2 >= 1,
    ensures
        decimal_token(s)->Some_0.1 >= pow10(18),
{
    let (neg, b) = sign_split(s);
    let d = dot_pos(s, b);
    lemma_dot_pos_range(s, b);
    let istart = trim_start_zeros(s, b, d);
    lemma_trim_start_nonzero(s, b, d);
    assert(d - istart >= 20);
    assert(s[istart] != 48);
    assert(is_digit(s[istart]));
    crate::numtext::lemma_digits_val_lower(s, istart, istart + 19);
}

/// The binary32 pattern a decimal token names, as `float32_of_decimal`
/// describes it.
pub fn parse_float32(t: &[u8]) -> (r: Option<u32>)
    ensures
        r == float32_of_decimal(t@),
{
    proof {
        reveal(float32_of_decimal);
    }
    let len = t.len();
    if len == 3 && t[0] == 78 && t[1] == 97 && t[2] == 78 {
        proof {
            assert(t@ =~= nan_token());
        }
        return Some(0x7FC0_0000);
    }
    if len == 3 && t[0] == 110 && t[1] == 97 && t[2] == 110 {
        proof {
            assert(t@ =~= seq![110u8, 97u8, 110u8]);
        }
        return Some(0x7FC0_0000);
    }
    if len == 3 && t[0] == 105 && t[1] == 110 && t[2] == 102 {
        proof {
            assert(t@ =~= inf_token());
        }
        return Some(0x7F80_0000);
    }
    if len == 4 && t[0] == 45 && t[1] == 105 && t[2] == 110 && t[3] == 102 {
        proof {
            assert(t@ =~= seq![45u8] + inf_token());
        }
        return Some(0xFF80_0000);
    }
    proof {
        lemma_not_special(t@);
    }
    match read_decimal_token(t) {
        None => None,
        Some((neg, n, e10, sticky)) => {
            if n == 0 {
                Some(
                    if neg {
                        0x8000_0000
                    } else {
                        0
                    },
                )
            } else {
                let sign_part: u32 = if neg {
                    0x8000_0000
                } else {
                    0
                };
                if e10 > 27 {
                    Some(sign_part + 0x7F80_0000)
                } else {
                    let mr = rational_to_binary(n, e10, sticky, 23);
                    let m = mr.0;
                    let e = mr.1;
                    proof {
                        vstd::arithmetic::power2::lemma2_to64();
                    }
                    if e > 104 {
                        Some(sign_part + 0x7F80_0000)
                    } else {
                        let bits: u32 = sign_part + ((e + 150) as u32) * 0x80_0000 + (m as u32
                            - 0x80_0000);
                        Some(bits)
                    }
                }
            }
        },
    }
}

/// The binary64 pattern a decimal token names, as `float64_of_decimal`
/// describes it.
pub fn parse_float64(t: &[u8]) -> (r: Option<u64>)
    ensures
        r == float64_of_decimal(t@),
{
    proof {
        reveal(float64_of_decimal);
    }
    let len = t.len();
    if len == 3 && t[0] == 78 && t[1] == 97 && t[2] == 78 {
        proof {
            assert(t@ =~= nan_token());
        }
        return Some(0x7FF8_0000_0000_0000);
    }
    if len == 3 && t[0] == 110 && t[1] == 97 && t[2] == 110 {
        proof {
            assert(t@ =~= seq![110u8, 97u8, 110u8]);
        }
        return Some(0x7FF8_0000_0000_0000);
    }
    if len == 3 && t[0] == 105 && t[1] == 110 && t[2] == 102 {
        proof {
            assert(t@ =~= inf_token());
        }
        return Some(0x7FF0_0000_0000_0000);
    }
    if len == 4 && t[0] == 45 && t[1] == 105 && t[2] == 110 && t[3] == 102 {
        proof {
            assert(t@ =~= seq![45u8] + inf_token());
        }
        return Some(0xFFF0_0000_0000_0000);
    }
    proof {
        lemma_not_special(t@);
    }
    match read_decimal_token(t) {
        None => None,
        Some((neg, n, e10, sticky)) => {
            if n == 0 {
                Some(
                    if neg {
                        0x8000_0000_0000_0000
                    } else {
                        0
                    },
                )
            } else {
                let sign_part: u64 = if neg {
                    0x8000_0000_0000_0000
                } else {
                    0
                };
                if e10 > 290 {
                    Some(sign_part + 0x7FF0_0000_0000_0000)
                } else if e10 > 27 {
                    proof {
                        lemma_decimal_token_big(t@);
                        crate::numtext::lemma_pow10_bound19(18);
                        crate::numtext::lemma_pow10_unfold(18);
                        crate::numtext::lemma_pow10_unfold(17);
                        crate::numtext::lemma_pow10_18();
                        vstd::arithmetic::power2::lemma2_to64();
                        vstd::arithmetic::power2::lemma2_to64_rest();
                        vstd::arithmetic::power2::lemma_pow2_adds(64, 32);
                    }
                    let sc = scale5_exec(n as u128, e10 as usize, sticky);
                    let rb = round_bits_exec(sc.0, sc.2, 52);
                    let e: i32 = e10 + sc.1 as i32 + rb.1;
                    if e > 971 {
                        Some(sign_part + 0x7FF0_0000_0000_0000)
                    } else {
                        let bits: u64 = sign_part + ((e + 1075) as u64) * 0x10_0000_0000_0000 + (
                        rb.0 - 0x10_0000_0000_0000);
                        Some(bits)
                    }
                } else {
                    let mr = rational_to_binary(n, e10, sticky, 52);
                    let m = mr.0;
                    let e = mr.1;
                    proof {
                        vstd::arithmetic::power2::lemma2_to64();
                        vstd::arithmetic::power2::lemma2_to64_rest();
                    }
                    if e > 971 {
                        Some(sign_part + 0x7FF0_0000_0000_0000)
                    } else {
                        let bits: u64 = sign_part + ((e + 1075) as u64) * 0x10_0000_0000_0000 + (m
                            - 0x10_0000_0000_0000);
                        Some(bits)
                    }
                }
            }
        },
    }
}

/// A token that failed all four special-form checks is none of them.
proof fn lemma_not_special(s: Seq<u8>)
    requires
        !(s.len() == 3 && s[0] == 78 && s[1] == 97 && s[2] == 78),
        !(s.len() == 3 && s[0] == 110 && s[1] == 97 && s[2] == 110),
        !(s.len() == 3 && s[0] == 105 && s[1] == 110 && s[2] == 102),
        !(s.len() == 4 && s[0] == 45 && s[1] == 105 && s[2] == 110 && s[3] == 102),
    ensures
        s != nan_token(),
        s != seq![110u8, 97u8, 110u8],
        s != inf_token(),
        s != seq![45u8] + inf_token(),
{
    if s == nan_token() {
        assert(s.len() == 3 && s[0] == 78 && s[1] == 97 && s[2] == 78);
    }
    if s == seq![110u8, 97u8, 110u8] {
        assert(s.len() == 3 && s[0] == 110 && s[1] == 97 && s[2] == 110);
    }
    if s == inf_token() {
        assert(s.len() == 3 && s[0] == 105 && s[1] == 110 && s[2] == 102);
    }
    if s == seq![45u8] + inf_token() {
        assert(s.len() == 4 && s[0] == 45 && s[1] == 105 && s[2] == 110 && s[3] == 102);
    }
}

} // verus!

