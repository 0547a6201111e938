use vstd::prelude::*;
use vstd::arithmetic::power::pow;
use vstd::arithmetic::power2::pow2;

verus! {

/// Ten to the `q`.
pub open spec fn pow10(q: nat) -> nat {
    pow(10, q) as nat
}

/// Whether byte `b` is an ASCII decimal digit.
pub open spec fn is_digit(b: u8) -> bool {
    48 <= b <= 57
}

/// Whether the bytes of `s` in `[from, to)` are all ASCII decimal digits.
pub open spec fn all_digits(s: Seq<u8>, from: int, to: int) -> bool {
    forall|i: int| from <= i < to ==> is_digit(#[trigger] s[i])
}

/// The value of the decimal digits of `s` in `[from, to)`, most
/// significant first.
pub open spec fn digits_val(s: Seq<u8>, from: int, to: int) -> nat
    decreases to - from,
{
    if to <= from {
        0
    } else {
        digits_val(s, from, to - 1) * 10 + (if s[to - 1] >= 48 {
            (s[to - 1] - 48) as nat
        } else {
            0
        })
    }
}

/// The decimal digit bytes of `n`, most significant first, no leading
/// zeros.
pub open spec fn dec_digits(n: nat) -> Seq<u8>
    decreases n,
{
    if n < 10 {
        seq![(48 + n) as u8]
    } else {
        dec_digits(n / 10).push((48 + n % 10) as u8)
    }
}

/// The value of little-endian bytes: the first byte is least significant.
pub open spec fn le_val(s: Seq<u8>) -> nat
    decreases s.len(),
{
    if s.len() == 0 {
        0
    } else {
        le_val(s.drop_last()) + (s.last() as nat) * pow2((8 * (s.len() - 1)) as nat)
    }
}


/// Peeling one factor of ten off a power of ten.
pub proof fn lemma_pow10_unfold(q: nat)
    requires
        q >= 1,
    ensures
        pow10(q) == 10 * pow10((q - 1) as nat),
        pow10(q) >= 10,
{
    vstd::arithmetic::power::lemma_pow1(10);
    vstd::arithmetic::power::lemma_pow_adds(10, 1, (q - 1) as nat);
    vstd::arithmetic::power::lemma_pow_positive(10, (q - 1) as nat);
    vstd::arithmetic::power::lemma_pow_positive(10, q);
    assert(pow(10, q) == 10 * pow(10, (q - 1) as nat));
}

/// Ten to the `q`, in a 64-bit word; `q` at most 19.
pub fn pow10_u64(q: usize) -> (r: u64)
    requires
        q <= 19,
    ensures
        r == pow10(q as nat),
        r >= 1,
    decreases q,
{
    proof {
        vstd::arithmetic::power::lemma_pow_positive(10, q as nat);
        lemma_pow10_bound19(q as nat);
    }
    if q == 0 {
        proof {
            vstd::arithmetic::power::lemma_pow0(10);
        }
        1
    } else {
        let p = pow10_u64(q - 1);
        proof {
            lemma_pow10_unfold(q as nat);
        }
        10 * p
    }
}

/// Two to the `e`, in a 128-bit word; `e` below 128.
pub fn pow2_u128(e: usize) -> (r: u128)
    requires
        e < 128,
    ensures
        r == pow2(e as nat),
        r >= 1,
    decreases e,
{
    proof {
        vstd::arithmetic::power2::lemma_pow2_pos(e as nat);
        vstd::arithmetic::power2::lemma2_to64();
        vstd::arithmetic::power2::lemma2_to64_rest();
        assert(pow2(127) == 0x80000000000000000000000000000000) by {
            vstd::arithmetic::power2::lemma_pow2_adds(64, 63);
        }
        if e < 127 {
            vstd::arithmetic::power2::lemma_pow2_strictly_increases(e as nat, 127);
        }
    }
    if e == 0 {
        1
    } else {
        let p = pow2_u128(e - 1);
        proof {
            vstd::arithmetic::power2::lemma_pow2_unfold(e as nat);
        }
        2 * p
    }
}

/// Appends the decimal digits of `x`, most significant first.
pub fn push_dec_u64(out: &mut Vec<u8>, x: u64)
    ensures
        final(out)@ == old(out)@ + dec_digits(x as nat),
    decreases x,
{
    if x < 10 {
        out.push(48 + x as u8);
        proof {
            assert(out@ =~= old(out)@ + dec_digits(x as nat));
        }
    } else {
        push_dec_u64(out, x / 10);
        out.push(48 + (x % 10) as u8);
        proof {
            assert(out@ =~= old(out)@ + dec_digits(x as nat));
        }
    }
}

/// Digit values never decrease as a span grows to the right.
pub proof fn lemma_digits_val_monotonic(s: Seq<u8>, from: int, i: int, to: int)
    requires
        from <= i <= to,
    ensures
        digits_val(s, from, i) <= digits_val(s, from, to),
    decreases to - i,
{
    if i < to {
        lemma_digits_val_monotonic(s, from, i, to - 1);
        assert(digits_val(s, from, to - 1) <= digits_val(s, from, to - 1) * 10) by (nonlinear_arith);
    }
}

/// The digit span's value depends only on the bytes inside the span.
pub proof fn lemma_digits_val_frame(s: Seq<u8>, s2: Seq<u8>, from: int, to: int)
    requires
        forall|i: int| from <= i < to ==> s[i] == s2[i],
    ensures
        digits_val(s, from, to) == digits_val(s2, from, to),
    decreases to - from,
{
    if from < to {
        lemma_digits_val_frame(s, s2, from, to - 1);
    }
}

/// A span of `k` digits has value below ten to the `k`.
pub proof fn lemma_digits_val_bound(s: Seq<u8>, from: int, to: int)
    requires
        from <= to,
        all_digits(s, from, to),
    ensures
        digits_val(s, from, to) < pow10((to - from) as nat),
    decreases to - from,
{
    if from == to {
        assert(pow10(0) == 1) by {
            vstd::arithmetic::power::lemma_pow0(10);
        }
    } else {
        lemma_digits_val_bound(s, from, to - 1);
        lemma_pow10_unfold((to - from) as nat);
        assert(digits_val(s, from, to - 1) * 10 + 9 < 10 * pow10((to - from - 1) as nat))
            by (nonlinear_arith)
            requires
                digits_val(s, from, to - 1) < pow10((to - from - 1) as nat),
        ;
    }
}

/// The decimal digits of `n` are digits, start with a nonzero digit
/// unless `n` is zero, and read back as `n`.
pub proof fn lemma_dec_digits_roundtrip(n: nat)
    ensures
        dec_digits(n).len() >= 1,
        all_digits(dec_digits(n), 0, dec_digits(n).len() as int),
        digits_val(dec_digits(n), 0, dec_digits(n).len() as int) == n,
        n >= 10 ==> dec_digits(n).len() >= 2,
        dec_digits(n)[0] != 48 || n == 0,
    decreases n,
{
    if n < 10 {
        assert(dec_digits(n) =~= seq![(48 + n) as u8]);
        assert(digits_val(dec_digits(n), 0, 1) == digits_val(dec_digits(n), 0, 0) * 10 + n);
    } else {
        lemma_dec_digits_roundtrip(n / 10);
        let d = dec_digits(n);
        let dp = dec_digits(n / 10);
        assert(d == dp.push((48 + n % 10) as u8));
        lemma_digits_val_frame(d, dp, 0, dp.len() as int);
        assert(digits_val(d, 0, d.len() as int) == digits_val(d, 0, d.len() - 1) * 10 + n % 10);
        assert(n / 10 * 10 + n % 10 == n) by {
            vstd::arithmetic::div_mod::lemma_fundamental_div_mod(n as int, 10);
        }
    }
}

/// Parses `[from, to)` of `s` as an unsigned decimal number.  Succeeds
/// exactly when the span is nonempty, holds only digits, and its value
/// fits a 64-bit word.
pub fn parse_u64_digits(s: &[u8], from: usize, to: usize) -> (r: Option<u64>)
    requires
        from <= to <= s@.len(),
    ensures
        r is Some <==> from < to && all_digits(s@, from as int, to as int) && digits_val(
            s@,
            from as int,
            to as int,
        ) <= u64::MAX,
        r matches Some(v) ==> v == digits_val(s@, from as int, to as int),
{
    if from == to {
        return None;
    }
    let mut acc: u64 = 0;
    let mut i: usize = from;
    while i < to
        invariant
            from <= i <= to <= s@.len(),
            all_digits(s@, from as int, i as int),
            acc == digits_val(s@, from as int, i as int),
        decreases to - i,
    {
        let b = s[i];
        if b < 48 || b > 57 {
            return None;
        }
        let acc10 = match acc.checked_mul(10) {
            Some(v) => v,
            None => {
                proof {
                    lemma_digits_val_monotonic(s@, from as int, i + 1, to as int);
                }
                return None;
            },
        };
        let acc2 = match acc10.checked_add((b - 48) as u64) {
            Some(v) => v,
            None => {
                proof {
                    lemma_digits_val_monotonic(s@, from as int, i + 1, to as int);
                }
                return None;
            },
        };
        acc = acc2;
        i += 1;
    }
    Some(acc)
}

/// Two to the `e`, in a 64-bit word; `e` below 64.
pub fn pow2_u64(e: usize) -> (r: u64)
    requires
        e < 64,
    ensures
        r == pow2(e as nat),
        r >= 1,
    decreases e,
{
    proof {
        vstd::arithmetic::power2::lemma_pow2_pos(e as nat);
        vstd::arithmetic::power2::lemma2_to64();
        vstd::arithmetic::power2::lemma2_to64_rest();
        if e < 63 {
            vstd::arithmetic::power2::lemma_pow2_strictly_increases(e as nat, 63);
        }
    }
    if e == 0 {
        1
    } else {
        let p = pow2_u64(e - 1);
        proof {
            vstd::arithmetic::power2::lemma_pow2_unfold(e as nat);
        }
        2 * p
    }
}

/// The unsigned value of `w` little-endian bytes of `s` starting at
/// `from`.
pub fn le_bytes_to_u64(s: &[u8], from: usize, w: usize) -> (r: u64)
    requires
        1 <= w <= 8,
        from + w <= s@.len(),
    ensures
        r == le_val(s@.subrange(from as int, from + w)),
{
    let slen = s.len();
    let mut acc: u64 = 0;
    let mut j: usize = 0;
    proof {
        assert(from + w <= slen);
        assert(s@.subrange(from as int, from as int) =~= Seq::<u8>::empty());
        vstd::arithmetic::power2::lemma2_to64();
    }
    while j < w
        invariant
            j <= w <= 8,
            from + w <= slen,
            from + w <= s@.len(),
            acc == le_val(s@.subrange(from as int, from + j)),
            acc < pow2((8 * j) as nat),
        decreases w - j,
    {
        let p = pow2_u64(8 * j);
        let b = s[from + j];
        proof {
            let sub1 = s@.subrange(from as int, from + j + 1);
            assert(sub1.drop_last() =~= s@.subrange(from as int, from + j));
            assert(sub1.last() == s@[from + j]);
            assert(pow2((8 * j) as nat) * 256 == pow2((8 * (j + 1)) as nat)) by {
                vstd::arithmetic::power2::lemma_pow2_adds((8 * j) as nat, 8);
                vstd::arithmetic::power2::lemma2_to64();
            }
            assert(acc + b * pow2((8 * j) as nat) < pow2((8 * (j + 1)) as nat)) by (nonlinear_arith)
                requires
                    acc < pow2((8 * j) as nat),
                    b <= 255,
                    pow2((8 * j) as nat) * 256 == pow2((8 * (j + 1)) as nat),
            ;
            assert(pow2((8 * (j + 1)) as nat) <= pow2(64)) by {
                if 8 * (j + 1) < 64 {
                    vstd::arithmetic::power2::lemma_pow2_strictly_increases((8 * (j + 1)) as nat, 64);
                }
            }
            vstd::arithmetic::power2::lemma2_to64_rest();
        }
        acc = acc + b as u64 * p;
        j += 1;
    }
    proof {
        assert(s@.subrange(from as int, from + w) =~= s@.subrange(from as int, from + w));
    }
    acc
}

/// The `w` little-endian bytes of `x`, least significant first.
pub fn u64_to_le_bytes_w(x: u64, w: usize) -> (r: Vec<u8>)
    requires
        1 <= w <= 8,
        x < pow2((8 * w) as nat),
    ensures
        r@.len() == w,
        le_val(r@) == x,
{
    let mut out: Vec<u8> = Vec::new();
    let mut cur: u64 = x;
    let mut i: usize = 0;
    proof {
        vstd::arithmetic::power2::lemma2_to64();
        assert(out@ =~= Seq::<u8>::empty());
        assert(le_val(out@) == 0);
        assert(x * pow2(0) == x) by (nonlinear_arith)
            requires
                pow2(0) == 1,
        ;
    }
    while i < w
        invariant
            i <= w <= 8,
            out@.len() == i,
            cur < pow2((8 * (w - i)) as nat),
            le_val(out@) + cur * pow2((8 * i) as nat) == x,
        decreases w - i,
    {
        let b: u8 = (cur % 256) as u8;
        let ghost pre = out@;
        let ghost cur0 = cur;
        out.push(b);
        cur = cur / 256;
        proof {
            assert(out@.drop_last() =~= pre);
            assert(out@.last() == b);
            assert(le_val(out@) == le_val(pre) + b * pow2((8 * i) as nat));
            vstd::arithmetic::div_mod::lemma_fundamental_div_mod(cur0 as int, 256);
            assert(pow2((8 * i) as nat) * 256 == pow2((8 * (i + 1)) as nat)) by {
                vstd::arithmetic::power2::lemma_pow2_adds((8 * i) as nat, 8);
                vstd::arithmetic::power2::lemma2_to64();
            }
            assert(cur0 * pow2((8 * i) as nat) == b * pow2((8 * i) as nat) + cur * pow2(
                (8 * (i + 1)) as nat,
            )) by (nonlinear_arith)
                requires
                    cur0 == 256 * cur + b,
                    pow2((8 * i) as nat) * 256 == pow2((8 * (i + 1)) as nat),
            ;
            assert(pow2((8 * (w - i)) as nat) == pow2((8 * (w - i - 1)) as nat) * 256) by {
                vstd::arithmetic::power2::lemma_pow2_adds((8 * (w - i - 1)) as nat, 8);
                vstd::arithmetic::power2::lemma2_to64();
            }
            assert(cur < pow2((8 * (w - i - 1)) as nat)) by (nonlinear_arith)
                requires
                    cur0 < pow2((8 * (w - i)) as nat),
                    cur == cur0 / 256,
                    cur0 == 256 * cur + b,
                    b < 256,
                    pow2((8 * (w - i)) as nat) == pow2((8 * (w - i - 1)) as nat) * 256,
            ;
        }
        i += 1;
    }
    proof {
        vstd::arithmetic::power2::lemma2_to64();
    }
    out
}


/// The eighteenth power of ten, as a value.
pub proof fn lemma_pow10_18()
    ensures
        pow10(18) == 1000000000000000000,
{
    vstd::arithmetic::power::lemma_pow0(10);
    assert(pow10(0) == 1);
    lemma_pow10_unfold(1);
    assert(pow10(1) == 10);
    lemma_pow10_unfold(2);
    assert(pow10(2) == 100);
    lemma_pow10_unfold(3);
    assert(pow10(3) == 1000);
    lemma_pow10_unfold(4);
    assert(pow10(4) == 10000);
    lemma_pow10_unfold(5);
    assert(pow10(5) == 100000);
    lemma_pow10_unfold(6);
    assert(pow10(6) == 1000000);
    lemma_pow10_unfold(7);
    assert(pow10(7) == 10000000);
    lemma_pow10_unfold(8);
    assert(pow10(8) == 100000000);
    lemma_pow10_unfold(9);
    assert(pow10(9) == 1000000000);
    lemma_pow10_unfold(10);
    assert(pow10(10) == 10000000000);
    lemma_pow10_unfold(11);
    assert(pow10(11) == 100000000000);
    lemma_pow10_unfold(12);
    assert(pow10(12) == 1000000000000);
    lemma_pow10_unfold(13);
    assert(pow10(13) == 10000000000000);
    lemma_pow10_unfold(14);
    assert(pow10(14) == 100000000000000);
    lemma_pow10_unfold(15);
    assert(pow10(15) == 1000000000000000);
    lemma_pow10_unfold(16);
    assert(pow10(16) == 10000000000000000);
    lemma_pow10_unfold(17);
    assert(pow10(17) == 100000000000000000);
    lemma_pow10_unfold(18);
    assert(pow10(18) == 1000000000000000000);
}

/// A digit run with a nonzero leading digit is worth at least the power
/// of ten of its remaining length.
pub proof fn lemma_digits_val_lower(s: Seq<u8>, from: int, to: int)
    requires
        from < to,
        s[from] > 48,
        is_digit(s[from]),
    ensures
        digits_val(s, from, to) >= pow10((to - from - 1) as nat),
    decreases to - from,
{
    if to - from == 1 {
        vstd::arithmetic::power::lemma_pow0(10);
    } else {
        lemma_digits_val_lower(s, from, to - 1);
        lemma_pow10_unfold((to - from - 1) as nat);
        assert(digits_val(s, from, to - 1) * 10 >= pow10((to - from - 2) as nat) * 10)
            by (nonlinear_arith)
            requires
                digits_val(s, from, to - 1) >= pow10((to - from - 2) as nat),
        ;
    }
}

/// Powers of ten up to the nineteenth fit a 64-bit word.
pub proof fn lemma_pow10_bound19(k: nat)
    requires
        k <= 19,
    ensures
        pow10(k) <= 10000000000000000000,
{
    vstd::arithmetic::power::lemma_pow0(10);
    assert(pow10(0) == 1);
    lemma_pow10_unfold(1);
    assert(pow10(1) == 10);
    lemma_pow10_unfold(2);
    assert(pow10(2) == 100);
    lemma_pow10_unfold(3);
    assert(pow10(3) == 1000);
    lemma_pow10_unfold(4);
    assert(pow10(4) == 10000);
    lemma_pow10_unfold(5);
    assert(pow10(5) == 100000);
    lemma_pow10_unfold(6);
    assert(pow10(6) == 1000000);
    lemma_pow10_unfold(7);
    assert(pow10(7) == 10000000);
    lemma_pow10_unfold(8);
    assert(pow10(8) == 100000000);
    lemma_pow10_unfold(9);
    assert(pow10(9) == 1000000000);
    lemma_pow10_unfold(10);
    assert(pow10(10) == 10000000000);
    lemma_pow10_unfold(11);
    assert(pow10(11) == 100000000000);
    lemma_pow10_unfold(12);
    assert(pow10(12) == 1000000000000);
    lemma_pow10_unfold(13);
    assert(pow10(13) == 10000000000000);
    lemma_pow10_unfold(14);
    assert(pow10(14) == 100000000000000);
    lemma_pow10_unfold(15);
    assert(pow10(15) == 1000000000000000);
    lemma_pow10_unfold(16);
    assert(pow10(16) == 10000000000000000);
    lemma_pow10_unfold(17);
    assert(pow10(17) == 100000000000000000);
    lemma_pow10_unfold(18);
    assert(pow10(18) == 1000000000000000000);
    lemma_pow10_unfold(19);
    assert(pow10(19) == 10000000000000000000);
    vstd::arithmetic::power::lemma_pow_increases(10, k, 19);
}


/// Digit spans with equal bytes at an offset have equal values.
pub proof fn lemma_digits_val_shift(s1: Seq<u8>, s2: Seq<u8>, off: int, from: int, to: int)
    requires
        forall|i: int| from <= i < to ==> s1[off + i] == s2[i],
    ensures
        digits_val(s1, off + from, off + to) == digits_val(s2, from, to),
    decreases to - from,
{
    if from < to {
        lemma_digits_val_shift(s1, s2, off, from, to - 1);
    }
}


/// Five to the `e`.
pub open spec fn pow5(e: nat) -> nat {
    vstd::arithmetic::power::pow(5, e) as nat
}

/// Five to the `e`, in a 128-bit word; `e` at most 27.
pub fn pow5_u128(e: usize) -> (r: u128)
    requires
        e <= 27,
    ensures
        r == pow5(e as nat),
        r >= 1,
    decreases e,
{
    proof {
        vstd::arithmetic::power::lemma_pow_positive(5, e as nat);
        lemma_pow5_bound27(e as nat);
    }
    if e == 0 {
        proof {
            vstd::arithmetic::power::lemma_pow0(5);
        }
        1
    } else {
        let p = pow5_u128(e - 1);
        proof {
            lemma_pow5_unfold(e as nat);
        }
        5 * p
    }
}

/// Peeling one factor of five off a power of five.
pub proof fn lemma_pow5_unfold(e: nat)
    requires
        e >= 1,
    ensures
        pow5(e) == 5 * pow5((e - 1) as nat),
        pow5(e) >= 5,
{
    vstd::arithmetic::power::lemma_pow1(5);
    vstd::arithmetic::power::lemma_pow_adds(5, 1, (e - 1) as nat);
    vstd::arithmetic::power::lemma_pow_positive(5, (e - 1) as nat);
    vstd::arithmetic::power::lemma_pow_positive(5, e);
    assert(pow(5, e) == 5 * pow(5, (e - 1) as nat));
}

/// Powers of five up to the twenty-seventh stay below two to the 63.
pub proof fn lemma_pow5_bound27(e: nat)
    requires
        e <= 27,
    ensures
        pow5(e) <= 7450580596923828125,
{
    vstd::arithmetic::power::lemma_pow0(5);
    assert(pow5(0) == 1);
    lemma_pow5_unfold(1);
    assert(pow5(1) == 5);
    lemma_pow5_unfold(2);
    assert(pow5(2) == 25);
    lemma_pow5_unfold(3);
    assert(pow5(3) == 125);
    lemma_pow5_unfold(4);
    assert(pow5(4) == 625);
    lemma_pow5_unfold(5);
    assert(pow5(5) == 3125);
    lemma_pow5_unfold(6);
    assert(pow5(6) == 15625);
    lemma_pow5_unfold(7);
    assert(pow5(7) == 78125);
    lemma_pow5_unfold(8);
    assert(pow5(8) == 390625);
    lemma_pow5_unfold(9);
    assert(pow5(9) == 1953125);
    lemma_pow5_unfold(10);
    assert(pow5(10) == 9765625);
    lemma_pow5_unfold(11);
    assert(pow5(11) == 48828125);
    lemma_pow5_unfold(12);
    assert(pow5(12) == 244140625);
    lemma_pow5_unfold(13);
    assert(pow5(13) == 1220703125);
    lemma_pow5_unfold(14);
    assert(pow5(14) == 6103515625);
    lemma_pow5_unfold(15);
    assert(pow5(15) == 30517578125);
    lemma_pow5_unfold(16);
    assert(pow5(16) == 152587890625);
    lemma_pow5_unfold(17);
    assert(pow5(17) == 762939453125);
    lemma_pow5_unfold(18);
    assert(pow5(18) == 3814697265625);
    lemma_pow5_unfold(19);
    assert(pow5(19) == 19073486328125);
    lemma_pow5_unfold(20);
    assert(pow5(20) == 95367431640625);
    lemma_pow5_unfold(21);
    assert(pow5(21) == 476837158203125);
    lemma_pow5_unfold(22);
    assert(pow5(22) == 2384185791015625);
    lemma_pow5_unfold(23);
    assert(pow5(23) == 11920928955078125);
    lemma_pow5_unfold(24);
    assert(pow5(24) == 59604644775390625);
    lemma_pow5_unfold(25);
    assert(pow5(25) == 298023223876953125);
    lemma_pow5_unfold(26);
    assert(pow5(26) == 1490116119384765625);
    lemma_pow5_unfold(27);
    assert(pow5(27) == 7450580596923828125);
    vstd::arithmetic::power::lemma_pow_increases(5, e, 27);
}

} // verus!



