//! Reading a size that a person typed, such as `2.5 GB` or `700 kib`.
//!
//! The number is a decimal numeral (an optional sign, digits with an
//! optional fraction, an optional exponent), or `inf`, `infinity` or `nan`
//! in any ASCII case; its value is taken exactly. The unit is one of B, KB,
//! MB, GB or TB, binary multiples, in any ASCII case.
use crate::text::{
    chars_of, decimal_chars, denominator, digit_char, float_of, float_scale, size_choice, size_text,
    three_decimals, trim_zeros, unit_factor, unit_name,
};
use vstd::arithmetic::div_mod::{
    lemma_fundamental_div_mod, lemma_fundamental_div_mod_converse, lemma_small_mod,
};
use vstd::prelude::*;

verus! {

/// Ten to the power `n`.
pub open spec fn pow10(n: nat) -> nat
    decreases n,
{
    if n == 0 {
        1
    } else {
        10 * pow10((n - 1) as nat)
    }
}

/// The number that a run of decimal digits denotes.
pub open spec fn digits_value(d: Seq<u8>) -> nat
    decreases d.len(),
{
    if d.len() == 0 {
        0
    } else {
        digits_value(d.drop_last()) * 10 + d.last() as nat
    }
}

/// Every element is a decimal digit.
pub open spec fn all_digits(d: Seq<u8>) -> bool {
    forall|i: int| 0 <= i < d.len() ==> d[i] < 10
}

pub open spec fn two_to_64() -> nat {
    0x1_0000_0000_0000_0000
}

/// The whole part of `digits_value(d) * 10^x * factor`.
pub open spec fn scaled_floor(d: Seq<u8>, x: int, factor: nat) -> nat {
    if x >= 0 {
        digits_value(d) * pow10(x as nat) * factor
    } else {
        (digits_value(d) * factor) / pow10((-x) as nat)
    }
}

/// Whether `digits_value(d) * 10^x * factor` is a whole number.
pub open spec fn scaled_whole(d: Seq<u8>, x: int, factor: nat) -> bool {
    x >= 0 || (digits_value(d) * factor) % pow10((-x) as nat) == 0
}

/// Two to the power `n`.
pub open spec fn two_pow(n: nat) -> nat
    decreases n,
{
    if n == 0 {
        1
    } else {
        2 * two_pow((n - 1) as nat)
    }
}

/// The number of binary digits of `n`.
pub open spec fn bit_len(n: nat) -> nat
    decreases n,
{
    if n == 0 {
        0
    } else {
        1 + bit_len(n / 2)
    }
}

/// The 64-bit float nearest to a number `w` of at least 1/2, ties going to
/// the even significand, times 2^55. `p` is the whole part of `w * 2^55`
/// and `whole` says whether `w * 2^55` is whole. The float keeps the top
/// 53 binary digits of `w`; `unit` is the weight of the last of them at
/// this scale.
pub open spec fn float_scaled(p: nat, whole: bool) -> nat {
    let unit = two_pow((bit_len(p) - 53) as nat);
    let q = p / unit;
    let low = p % unit;
    let up = low > unit / 2 || (low == unit / 2 && (!whole || q % 2 == 1));
    (if up {
        q + 1
    } else {
        q
    }) * unit
}

/// The bytes that `digits_value(d) * 10^x` units of `f` bytes come to,
/// the number being read as the nearest 64-bit float: the whole part of
/// that float times `f` (held as `u64::MAX` when it is exactly 2^64), or
/// none when it exceeds 2^64. As `f` is a power of two, this is the whole
/// part of the float nearest to `w = digits_value(d) * 10^x * f`: below
/// 1/2 that is nothing, and from 2^66 on it exceeds 2^64.
pub open spec fn units_to_bytes(d: Seq<u8>, x: int, f: nat) -> Option<u64> {
    let m = f * two_pow(55);
    let p = scaled_floor(d, x, m);
    if p >= two_pow(121) {
        None
    } else if p < two_pow(54) {
        Some(0)
    } else {
        let r = float_scaled(p, scaled_whole(d, x, m));
        if r > two_pow(119) {
            None
        } else {
            Some(clipped(r / two_pow(55)))
        }
    }
}

/// Whether every binary digit of `b` after its first 53 is zero, so that a
/// 64-bit float holds `b` exactly.
pub open spec fn fits_double(b: nat) -> bool {
    bit_len(b) <= 53 || b % two_pow((bit_len(b) - 53) as nat) == 0
}

/// The whole part of `digits_value(f) * m / 10^|f|`, computed from the last
/// digit to the first.
pub open spec fn carry(f: Seq<u8>, m: nat) -> nat
    decreases f.len(),
{
    if f.len() == 0 {
        0
    } else {
        (f[0] as nat * m + carry(f.drop_first(), m)) / 10
    }
}

/// The remainder that goes with [`carry`].
pub open spec fn carry_rest(f: Seq<u8>, m: nat) -> nat
    decreases f.len(),
{
    if f.len() == 0 {
        0
    } else {
        ((f[0] as nat * m + carry(f.drop_first(), m)) % 10) * pow10((f.len() - 1) as nat)
            + carry_rest(f.drop_first(), m)
    }
}

/// `n` zero digits.
pub open spec fn zeros(n: nat) -> Seq<u8> {
    Seq::new(n, |i: int| 0u8)
}

proof fn lemma_pow10_positive(n: nat)
    ensures
        pow10(n) >= 1,
    decreases n,
{
    if n > 0 {
        lemma_pow10_positive((n - 1) as nat);
    }
}

proof fn lemma_pow10_add(a: nat, b: nat)
    ensures
        pow10(a + b) == pow10(a) * pow10(b),
    decreases a,
{
    if a == 0 {
        assert(pow10(0) == 1);
        assert(a + b == b);
    } else {
        lemma_pow10_add((a - 1) as nat, b);
        let ab1 = ((a - 1) as nat + b) as nat;
        assert(pow10(a + b) == 10 * pow10(ab1));
        let p = pow10((a - 1) as nat);
        let q = pow10(b);
        assert(pow10(ab1) == p * q);
        assert(pow10(a) == 10 * p);
        assert(10 * (p * q) == (10 * p) * q) by (nonlinear_arith);
    }
}

proof fn lemma_pow10_monotone(a: nat, b: nat)
    requires
        a <= b,
    ensures
        pow10(a) <= pow10(b),
{
    lemma_pow10_add(a, (b - a) as nat);
    lemma_pow10_positive((b - a) as nat);
    let p = pow10(a);
    let q = pow10((b - a) as nat);
    assert(p <= p * q) by (nonlinear_arith)
        requires
            q >= 1,
    ;
    assert((a + (b - a) as nat) as nat == b);
}

proof fn lemma_pow10_20()
    ensures
        pow10(20) == 100_000_000_000_000_000_000nat,
        pow10(21) == 1_000_000_000_000_000_000_000nat,
        pow10(13) == 10_000_000_000_000nat,
{
    reveal_with_fuel(pow10, 22);
}

proof fn lemma_value_concat(a: Seq<u8>, b: Seq<u8>)
    ensures
        digits_value(a + b) == digits_value(a) * pow10(b.len()) + digits_value(b),
    decreases b.len(),
{
    if b.len() == 0 {
        assert(a + b =~= a);
        assert(pow10(0) == 1);
        assert(digits_value(b) == 0);
    } else {
        let b1 = b.drop_last();
        lemma_value_concat(a, b1);
        assert((a + b).drop_last() =~= a + b1);
        assert((a + b).last() == b.last());
        let va = digits_value(a);
        let vb = digits_value(b1);
        let p = pow10(b1.len());
        let l = b.last() as nat;
        assert(digits_value(a + b) == digits_value(a + b1) * 10 + l);
        assert(digits_value(a + b1) == va * p + vb);
        assert(digits_value(b) == vb * 10 + l);
        assert(pow10(b.len()) == 10 * p);
        assert((va * p + vb) * 10 + l == va * (10 * p) + (vb * 10 + l)) by (nonlinear_arith);
    }
}

proof fn lemma_value_bound(d: Seq<u8>)
    requires
        all_digits(d),
    ensures
        digits_value(d) < pow10(d.len()),
    decreases d.len(),
{
    if d.len() > 0 {
        let d1 = d.drop_last();
        assert(all_digits(d1));
        lemma_value_bound(d1);
        assert(d.last() < 10);
        assert(pow10(d.len()) == 10 * pow10(d1.len()));
    }
}

proof fn lemma_value_single(d: Seq<u8>)
    requires
        d.len() == 1,
    ensures
        digits_value(d) == d[0] as nat,
{
    assert(d.drop_last() =~= Seq::<u8>::empty());
    assert(digits_value(Seq::<u8>::empty()) == 0);
    assert(digits_value(d) == digits_value(d.drop_last()) * 10 + d.last() as nat);
}

proof fn lemma_value_leading(d: Seq<u8>)
    requires
        d.len() >= 1,
        d[0] >= 1,
    ensures
        digits_value(d) >= pow10((d.len() - 1) as nat),
{
    let first = d.take(1);
    let rest = d.skip(1);
    assert(d =~= first + rest);
    lemma_value_concat(first, rest);
    lemma_value_single(first);
    let p = pow10(rest.len());
    let f = d[0] as nat;
    assert(f * p >= p) by (nonlinear_arith)
        requires
            f >= 1,
    ;
}

proof fn lemma_value_zeros(d: Seq<u8>)
    requires
        forall|i: int| 0 <= i < d.len() ==> d[i] == 0,
    ensures
        digits_value(d) == 0,
    decreases d.len(),
{
    if d.len() > 0 {
        lemma_value_zeros(d.drop_last());
    }
}

/// Leading zeros do not change a numeral's value.
proof fn lemma_value_skip_zeros(d: Seq<u8>, z: int)
    requires
        0 <= z <= d.len(),
        forall|i: int| 0 <= i < z ==> d[i] == 0,
    ensures
        digits_value(d) == digits_value(d.skip(z)),
{
    assert(d =~= d.take(z) + d.skip(z));
    lemma_value_concat(d.take(z), d.skip(z));
    lemma_value_zeros(d.take(z));
}

proof fn lemma_carry(f: Seq<u8>, m: nat)
    requires
        all_digits(f),
    ensures
        digits_value(f) * m == carry(f, m) * pow10(f.len()) + carry_rest(f, m),
        carry_rest(f, m) < pow10(f.len()),
        carry(f, m) <= m,
    decreases f.len(),
{
    if f.len() == 0 {
        assert(digits_value(f) == 0);
        assert(pow10(0) == 1);
    } else {
        let r = f.drop_first();
        assert(all_digits(r));
        lemma_carry(r, m);
        assert(f =~= f.take(1) + r);
        lemma_value_concat(f.take(1), r);
        lemma_value_single(f.take(1));
        let p = pow10(r.len());
        lemma_pow10_positive(r.len());
        assert(pow10(f.len()) == 10 * p);
        let f0 = f[0] as nat;
        let cr = carry(r, m);
        let rr = carry_rest(r, m);
        let vr = digits_value(r);
        let w = f0 * m + cr;
        assert(f.take(1)[0] == f[0]);
        assert(digits_value(f) == f0 * p + vr);
        assert(carry(f, m) == w / 10);
        assert(carry_rest(f, m) == (w % 10) * p + rr);
        assert(f0 < 10);
        assert(w == 10 * (w / 10) + w % 10);
        assert((f0 * p + vr) * m == (w / 10) * (10 * p) + ((w % 10) * p + rr)) by (nonlinear_arith)
            requires
                vr * m == cr * p + rr,
                w == f0 * m + cr,
                w == 10 * (w / 10) + w % 10,
        ;
        assert((w % 10) * p + rr < 10 * p) by (nonlinear_arith)
            requires
                w % 10 < 10,
                rr < p,
        ;
        assert(w <= 10 * m) by (nonlinear_arith)
            requires
                f0 < 10,
                cr <= m,
                w == f0 * m + cr,
        ;
    }
}

/// A run of zero digits is exact when its remainder vanishes.
proof fn lemma_carry_rest_zero(f: Seq<u8>, m: nat)
    requires
        f.len() > 0,
    ensures
        (carry_rest(f, m) == 0) == ((f[0] as nat * m + carry(f.drop_first(), m)) % 10 == 0
            && carry_rest(f.drop_first(), m) == 0),
{
    let p = pow10((f.len() - 1) as nat);
    lemma_pow10_positive((f.len() - 1) as nat);
    let a = (f[0] as nat * m + carry(f.drop_first(), m)) % 10;
    assert(a * p == 0 <==> a == 0) by (nonlinear_arith)
        requires
            p >= 1,
    ;
}

proof fn lemma_two_pow_values()
    ensures
        two_pow(53) == 0x20_0000_0000_0000nat,
        two_pow(54) == 0x40_0000_0000_0000nat,
        two_pow(55) == 0x80_0000_0000_0000nat,
        two_pow(95) == 0x8000_0000_0000_0000_0000_0000nat,
        two_pow(119) == 0x80_0000_0000_0000_0000_0000_0000_0000nat,
        two_pow(121) == 0x200_0000_0000_0000_0000_0000_0000_0000nat,
{
    assert(two_pow(3) == 8) by {
        reveal_with_fuel(two_pow, 4);
    }
    assert(two_pow(4) == 16) by {
        reveal_with_fuel(two_pow, 5);
    }
    assert(two_pow(5) == 32) by {
        reveal_with_fuel(two_pow, 6);
    }
    assert(two_pow(2) == 4) by {
        reveal_with_fuel(two_pow, 3);
    }
    assert(two_pow(10) == 1024) by {
        reveal_with_fuel(two_pow, 11);
    }
    lemma_two_pow_add(10, 10);
    assert(two_pow(20) == 0x10_0000nat);
    lemma_two_pow_add(20, 20);
    assert(two_pow(40) == 0x100_0000_0000nat);
    lemma_two_pow_add(40, 10);
    assert(two_pow(50) == 0x4_0000_0000_0000nat);
    lemma_two_pow_add(50, 3);
    assert(two_pow(53) == 0x20_0000_0000_0000nat);
    lemma_two_pow_add(50, 4);
    assert(two_pow(54) == 0x40_0000_0000_0000nat);
    lemma_two_pow_add(50, 5);
    assert(two_pow(55) == 0x80_0000_0000_0000nat);
    lemma_two_pow_add(55, 40);
    assert(two_pow(95) == 0x8000_0000_0000_0000_0000_0000nat);
    lemma_two_pow_add(20, 4);
    assert(two_pow(24) == 0x100_0000nat);
    lemma_two_pow_add(95, 24);
    assert(two_pow(119) == 0x80_0000_0000_0000_0000_0000_0000_0000nat);
    lemma_two_pow_add(119, 2);
}

proof fn lemma_two_pow_positive(n: nat)
    ensures
        two_pow(n) >= 1,
    decreases n,
{
    if n > 0 {
        lemma_two_pow_positive((n - 1) as nat);
    }
}

proof fn lemma_two_pow_add(a: nat, b: nat)
    ensures
        two_pow(a + b) == two_pow(a) * two_pow(b),
    decreases b,
{
    if b > 0 {
        let c = (b - 1) as nat;
        lemma_two_pow_add(a, c);
        let pa = two_pow(a);
        let pc = two_pow(c);
        assert(two_pow(a + c) == pa * pc);
        assert(a + b == (a + c) + 1);
        assert(two_pow(((a + c) + 1) as nat) == 2 * two_pow(a + c));
        assert(two_pow(b) == 2 * pc);
        assert(pa * (2 * pc) == 2 * (pa * pc)) by (nonlinear_arith);
        assert(two_pow(a + b) == pa * two_pow(b));
    } else {
        assert(two_pow(b) == 1);
        assert(a + b == a);
        assert(two_pow(a) * 1 == two_pow(a));
    }
}

proof fn lemma_two_pow_monotone(a: nat, b: nat)
    requires
        a <= b,
    ensures
        two_pow(a) <= two_pow(b),
{
    lemma_two_pow_add(a, (b - a) as nat);
    lemma_two_pow_positive((b - a) as nat);
    lemma_two_pow_positive(a);
    assert(two_pow(a) * two_pow((b - a) as nat) >= two_pow(a)) by (nonlinear_arith)
        requires
            two_pow((b - a) as nat) >= 1,
    ;
}

/// A positive number lies between the powers of two its length names.
proof fn lemma_bit_len(n: nat)
    requires
        n >= 1,
    ensures
        bit_len(n) >= 1,
        two_pow((bit_len(n) - 1) as nat) <= n < two_pow(bit_len(n)),
    decreases n,
{
    if n == 1 {
        assert(bit_len(0) == 0);
        assert(bit_len(1) == 1);
        assert(two_pow(1) == 2) by {
            reveal_with_fuel(two_pow, 2);
        }
    } else {
        lemma_bit_len(n / 2);
        let b = bit_len(n / 2);
        assert(bit_len(n) == b + 1);
        assert(two_pow(b + 1) == 2 * two_pow(b));
        assert(two_pow(b) == 2 * two_pow((b - 1) as nat));
    }
}

/// Doubling adds one binary digit.
proof fn lemma_bit_len_shift(n: nat, k: nat)
    requires
        n >= 1,
    ensures
        bit_len(n * two_pow(k)) == bit_len(n) + k,
    decreases k,
{
    if k > 0 {
        lemma_bit_len_shift(n, (k - 1) as nat);
        let m = n * two_pow((k - 1) as nat);
        assert(n * two_pow(k) == 2 * m) by (nonlinear_arith)
            requires
                two_pow(k) == 2 * two_pow((k - 1) as nat),
                m == n * two_pow((k - 1) as nat),
        ;
        lemma_two_pow_positive((k - 1) as nat);
        assert(m >= 1) by (nonlinear_arith)
            requires
                n >= 1,
                two_pow((k - 1) as nat) >= 1,
                m == n * two_pow((k - 1) as nat),
        ;
        assert((2 * m) / 2 == m);
        assert(bit_len(m) == bit_len(n) + (k - 1) as nat);
        assert(bit_len(2 * m) == 1 + bit_len(m));
        assert(bit_len(n * two_pow(k)) == bit_len(2 * m));
    } else {
        assert(two_pow(k) == 1);
        assert(n * 1 == n);
    }
}

proof fn lemma_fixed_large(d: Seq<u8>, x: int, m: nat)
    requires
        d.len() >= 1,
        d[0] >= 1,
        m >= two_pow(55),
        d.len() + x >= 22,
    ensures
        scaled_floor(d, x, m) >= two_pow(121),
{
    let l = d.len();
    lemma_value_leading(d);
    lemma_pow10_20();
    lemma_two_pow_values();
    let v = digits_value(d);
    let big = 1_000_000_000_000_000_000_000nat;
    if x >= 0 {
        lemma_pow10_add((l - 1) as nat, x as nat);
        lemma_pow10_monotone(21, ((l - 1) as nat + x as nat) as nat);
        let p = pow10((l - 1) as nat);
        let q = pow10(x as nat);
        assert(v * q * m >= big * 0x80_0000_0000_0000nat) by (nonlinear_arith)
            requires
                v >= p,
                p * q >= big,
                m >= 0x80_0000_0000_0000nat,
        ;
    } else {
        let n = (-x) as nat;
        let rest = (l - 1 - 21 - n) as nat;
        lemma_pow10_add(21, n);
        lemma_pow10_add((21 + n) as nat, rest);
        assert((l - 1) as nat == ((21 + n) as nat + rest) as nat);
        lemma_pow10_positive(rest);
        lemma_pow10_positive(n);
        let pn = pow10(n);
        let pr = pow10(rest);
        let t = big * 0x80_0000_0000_0000nat;
        assert(v * m >= t * pn) by (nonlinear_arith)
            requires
                v >= big * pn * pr,
                pr >= 1,
                m >= 0x80_0000_0000_0000nat,
                t == big * 0x80_0000_0000_0000nat,
        ;
        lemma_fundamental_div_mod((v * m) as int, pn as int);
        let qq = (v * m) / pn;
        assert(qq >= t) by (nonlinear_arith)
            requires
                v * m >= t * pn,
                v * m == pn * qq + (v * m) % pn,
                (v * m) % pn < pn,
                pn >= 1,
        ;
    }
}

proof fn lemma_fixed_small(d: Seq<u8>, x: int, m: nat)
    requires
        all_digits(d),
        d.len() >= 1,
        d[0] >= 1,
        1 <= m <= two_pow(95),
        d.len() + x <= -29,
    ensures
        scaled_floor(d, x, m) == 0,
        !scaled_whole(d, x, m),
{
    let l = d.len();
    let n = (-x) as nat;
    lemma_value_bound(d);
    lemma_value_leading(d);
    lemma_pow10_positive((l - 1) as nat);
    lemma_two_pow_values();
    lemma_pow10_add(l, 29);
    lemma_pow10_monotone((l + 29) as nat, n);
    assert(pow10(29) == 100_000_000_000_000_000_000_000_000_000nat) by {
        reveal_with_fuel(pow10, 30);
    }
    let v = digits_value(d);
    let pl = pow10(l);
    let pn = pow10(n);
    assert(v * m < pn) by (nonlinear_arith)
        requires
            v < pl,
            m <= 0x8000_0000_0000_0000_0000_0000nat,
            pl * 100_000_000_000_000_000_000_000_000_000nat <= pn,
    ;
    assert(v * m >= 1) by (nonlinear_arith)
        requires
            v >= 1,
            m >= 1,
    ;
    lemma_small_mod(v * m, pn);
    lemma_fundamental_div_mod_converse((v * m) as int, pn as int, 0, (v * m) as int);
}

/// The value split at the decimal point: the whole digits `d[..s]`, then
/// the fraction `k` zeros followed by `d[s..]`.
proof fn lemma_scaled_split(d: Seq<u8>, x: int, factor: nat, s: nat, k: nat)
    requires
        all_digits(d),
        x < 0,
        s <= d.len(),
        s == 0 || k == 0,
        k + d.len() - s == -x,
    ensures
        ({
            let whole = digits_value(d.take(s as int)) * factor;
            let f = zeros(k) + d.skip(s as int);
            let t = whole + carry(f, factor);
            &&& scaled_floor(d, x, factor) == t
            &&& scaled_whole(d, x, factor) == (carry_rest(f, factor) == 0)
        }),
{
    let n = (-x) as nat;
    let f = zeros(k) + d.skip(s as int);
    let i = digits_value(d.take(s as int));
    assert(d =~= d.take(s as int) + d.skip(s as int));
    lemma_value_concat(d.take(s as int), d.skip(s as int));
    lemma_value_concat(zeros(k), d.skip(s as int));
    lemma_value_zeros(zeros(k));
    assert(all_digits(f));
    lemma_carry(f, factor);
    assert(f.len() == n);
    if s == 0 {
        assert(d.take(0) =~= Seq::<u8>::empty());
    }
    let v = digits_value(d);
    let vf = digits_value(f);
    let pn = pow10(n);
    let tail = d.skip(s as int);
    assert(vf == digits_value(tail));
    if s == 0 {
        assert(i == 0);
        assert(tail =~= d);
        assert(v == vf);
        assert(i * pn == 0) by (nonlinear_arith)
            requires
                i == 0,
        ;
    } else {
        assert(zeros(k) =~= Seq::<u8>::empty());
        assert(f =~= tail);
        assert(pn == pow10(tail.len()));
    }
    assert(v == i * pn + vf);
    let c = carry(f, factor);
    let rr = carry_rest(f, factor);
    let t = i * factor + c;
    lemma_pow10_positive(n);
    assert(v * factor == t * pn + rr) by (nonlinear_arith)
        requires
            v == i * pn + vf,
            vf * factor == c * pn + rr,
            t == i * factor + c,
    ;
    lemma_fundamental_div_mod_converse((v * factor) as int, pn as int, t as int, rr as int);
}


/// How far an exponent is read exactly; beyond it only its sign matters.
pub const EXPONENT_CAP: i128 = 1_000_000_000_000_000_000_000_000_000_000;

/// An exponent as read (`held`) stands for the one written: equal, or both
/// beyond the cap on the same side.
pub open spec fn exponent_agrees(held: int, written: int) -> bool {
    ||| held == written
    ||| (held > EXPONENT_CAP && written > EXPONENT_CAP)
    ||| (held < -EXPONENT_CAP && written < -EXPONENT_CAP)
}

/// A whole number of bytes as a `u64`, the largest one standing for any
/// larger count.
pub open spec fn clipped(q: nat) -> u64 {
    if q >= two_to_64() {
        u64::MAX
    } else {
        q as u64
    }
}

fn pow10_of(n: u32) -> (r: u128)
    requires
        n <= 21,
    ensures
        r == pow10(n as nat),
{
    let mut r: u128 = 1;
    let mut i: u32 = 0;
    while i < n
        invariant
            i <= n <= 21,
            r == pow10(i as nat),
        decreases n - i,
    {
        proof {
            lemma_pow10_monotone((i + 1) as nat, 21);
            lemma_pow10_20();
            assert(pow10((i + 1) as nat) == 10 * pow10(i as nat));
        }
        r = r * 10;
        i = i + 1;
    }
    r
}

fn value_of(d: &Vec<u8>, start: usize, end: usize) -> (r: u128)
    requires
        all_digits(d@),
        start <= end <= d.len(),
        end - start <= 21,
    ensures
        r == digits_value(d@.subrange(start as int, end as int)),
        r < pow10((end - start) as nat),
{
    let mut r: u128 = 0;
    let mut i = start;
    proof {
        assert(d@.subrange(start as int, start as int) =~= Seq::<u8>::empty());
        lemma_pow10_positive(0);
    }
    while i < end
        invariant
            start <= i <= end <= d.len(),
            end - start <= 21,
            all_digits(d@),
            r == digits_value(d@.subrange(start as int, i as int)),
            r < pow10((i - start) as nat),
        decreases end - i,
    {
        let ghost prev = d@.subrange(start as int, i as int);
        let ghost next = d@.subrange(start as int, i + 1);
        proof {
            assert(next.drop_last() =~= prev);
            assert(next.last() == d@[i as int]);
            lemma_pow10_monotone((i - start) as nat, 20);
            lemma_pow10_20();
            assert(pow10(21) == 10 * pow10(20));
            assert(pow10((i + 1 - start) as nat) == 10 * pow10((i - start) as nat));
        }
        r = r * 10 + d[i] as u128;
        i = i + 1;
    }
    r
}

/// The whole part of `digits * 10^(exponent - fraction) * factor * 2^55`,
/// whether it reaches 2^121, and whether the product is whole.
#[verifier::rlimit(40)]
fn scale_fixed(
    digits: &Vec<u8>,
    fraction: usize,
    exponent: i128,
    factor: u64,
    Ghost(written): Ghost<int>,
) -> (r: (u128, bool, bool))
    requires
        all_digits(digits@),
        exponent_agrees(exponent as int, written),
        -EXPONENT_CAP * 11 <= exponent <= EXPONENT_CAP * 11,
        1 <= factor <= 0x100_0000_0000,
    ensures
        r.1 == (scaled_floor(digits@, written - fraction, factor as nat * two_pow(55)) >= two_pow(121)),
        !r.1 ==> r.0 == scaled_floor(digits@, written - fraction, factor as nat * two_pow(55)),
        !r.1 ==> r.2 == scaled_whole(digits@, written - fraction, factor as nat * two_pow(55)),
{
    proof {
        lemma_two_pow_values();
    }
    let len = digits.len();
    let mut z: usize = 0;
    while z < len && digits[z] == 0
        invariant
            z <= len == digits.len(),
            forall|i: int| 0 <= i < z ==> digits@[i] == 0,
        decreases len - z,
    {
        z = z + 1;
    }
    let ghost x = written - fraction;
    let ghost fm: nat = factor as nat * two_pow(55);
    let ghost sig = digits@.skip(z as int);
    proof {
        lemma_value_skip_zeros(digits@, z as int);
    }
    if z == len {
        proof {
            lemma_value_zeros(digits@);
            lemma_pow10_positive((-x) as nat);
        }
        assert(scaled_floor(digits@, x, fm) == 0 && scaled_whole(digits@, x, fm)) by {
            if x >= 0 {
                assert(0 * pow10(x as nat) * fm == 0) by (nonlinear_arith);
            } else {
                assert(0 * fm == 0) by (nonlinear_arith);
                assert((0int / pow10((-x) as nat) as int) == 0);
                assert((0int % pow10((-x) as nat) as int) == 0);
            }
        }
        return (0, false, true);
    }
    assert(sig.len() >= 1 && sig[0] >= 1);
    assert(all_digits(sig));
    assert(scaled_floor(digits@, x, fm) == scaled_floor(sig, x, fm));
    assert(scaled_whole(digits@, x, fm) == scaled_whole(sig, x, fm));
    let l = len - z;
    let held_x: i128 = exponent - fraction as i128;
    let p: i128 = l as i128 + held_x;
    if p >= 22 {
        proof {
            assert(fm >= two_pow(55)) by (nonlinear_arith)
                requires
                    fm == factor * two_pow(55),
                    factor >= 1,
            ;
            lemma_fixed_large(sig, x, fm);
        }
        return (0, true, false);
    }
    if p <= -29 {
        proof {
            assert(1 <= fm <= two_pow(95)) by (nonlinear_arith)
                requires
                    fm == factor * two_pow(55),
                    1 <= factor <= 0x100_0000_0000,
                    two_pow(55) == 0x80_0000_0000_0000nat,
                    two_pow(95) == 0x8000_0000_0000_0000_0000_0000nat,
            ;
            lemma_fixed_small(sig, x, fm);
        }
        return (0, false, false);
    }
    assert(exponent as int == written);
    let f = factor as u128;
    let scale: u128 = 0x80_0000_0000_0000;
    let m: u128 = f * scale;
    if held_x >= 0 {
        let v = value_of(digits, z, len);
        assert(digits@.subrange(z as int, len as int) =~= sig);
        let e = pow10_of(held_x as u32);
        proof {
            lemma_pow10_add(l as nat, held_x as nat);
            lemma_pow10_monotone((l + held_x) as nat, 21);
            lemma_pow10_20();
            assert(v * e < 1_000_000_000_000_000_000_000nat) by (nonlinear_arith)
                requires
                    v < pow10(l as nat),
                    pow10(l as nat) * e <= 1_000_000_000_000_000_000_000nat,
            ;
            assert(v * e * f <= 1_000_000_000_000_000_000_000nat * 0x100_0000_0000) by (nonlinear_arith)
                requires
                    v * e < 1_000_000_000_000_000_000_000nat,
                    f <= 0x100_0000_0000,
            ;
            assert(v * e * fm == (v * e * f) * scale) by (nonlinear_arith)
                requires
                    fm == f * scale,
            ;
        }
        let vf = v * e * f;
        if vf >= 0x4_0000_0000_0000_0000u128 {
            assert(vf * scale >= 0x200_0000_0000_0000_0000_0000_0000_0000nat) by (nonlinear_arith)
                requires
                    vf >= 0x4_0000_0000_0000_0000nat,
                    scale == 0x80_0000_0000_0000nat,
            ;
            return (0, true, false);
        }
        let q = vf * scale;
        return (q, false, true);
    }
    let s: usize;
    let k: usize;
    if p >= 0 {
        s = p as usize;
        k = 0;
    } else {
        s = 0;
        k = (-p) as usize;
    }
    proof {
        lemma_scaled_split(sig, x, fm, s as nat, k as nat);
        assert(digits@.subrange(z as int, (z + s) as int) =~= sig.take(s as int));
        assert(digits@.subrange((z + s) as int, len as int) =~= sig.skip(s as int));
        assert(zeros(0) + sig.skip(s as int) =~= sig.skip(s as int));
    }
    let whole = value_of(digits, z, z + s);
    proof {
        lemma_pow10_monotone(s as nat, 21);
        lemma_pow10_20();
        assert(whole * f <= 1_000_000_000_000_000_000_000nat * 0x100_0000_0000) by (nonlinear_arith)
            requires
                whole < 1_000_000_000_000_000_000_000nat,
                f <= 0x100_0000_0000,
        ;
        assert(whole * fm == (whole * f) * scale) by (nonlinear_arith)
            requires
                fm == f * scale,
        ;
        assert(fm <= 0x8000_0000_0000_0000_0000_0000nat) by (nonlinear_arith)
            requires
                fm == f * scale,
                f <= 0x100_0000_0000,
                scale == 0x80_0000_0000_0000nat,
        ;
    }
    let wf = whole * f;
    if wf >= 0x4_0000_0000_0000_0000u128 {
        proof {
            lemma_carry(zeros(k as nat) + sig.skip(s as int), fm);
            assert(wf * scale >= 0x200_0000_0000_0000_0000_0000_0000_0000nat) by (nonlinear_arith)
                requires
                    wf >= 0x4_0000_0000_0000_0000nat,
                    scale == 0x80_0000_0000_0000nat,
            ;
        }
        return (0, true, false);
    }
    let mut c: u128 = 0;
    let mut exact = true;
    let mut i = len;
    proof {
        assert(digits@.subrange(len as int, len as int) =~= Seq::<u8>::empty());
    }
    while i > z + s
        invariant
            z + s <= i <= len == digits.len(),
            all_digits(digits@),
            m == fm,
            fm <= 0x8000_0000_0000_0000_0000_0000,
            c == carry(digits@.subrange(i as int, len as int), fm),
            exact == (carry_rest(digits@.subrange(i as int, len as int), fm) == 0),
            c <= m,
        decreases i,
    {
        let ghost prev = digits@.subrange(i as int, len as int);
        let ghost next = digits@.subrange(i - 1, len as int);
        proof {
            assert(next.drop_first() =~= prev);
            assert(next[0] == digits@[i - 1]);
            assert(all_digits(next));
            lemma_carry(next, fm);
            lemma_carry_rest_zero(next, fm);
        }
        let w = digits[i - 1] as u128 * m + c;
        c = w / 10;
        exact = exact && w % 10 == 0;
        i = i - 1;
    }
    let ghost tail = digits@.subrange((z + s) as int, len as int);
    proof {
        assert(zeros(0) + tail =~= tail);
    }
    let mut t: usize = 0;
    while t < k
        invariant
            t <= k,
            all_digits(tail),
            m == fm,
            c == carry(zeros(t as nat) + tail, fm),
            exact == (carry_rest(zeros(t as nat) + tail, fm) == 0),
            c <= m,
        decreases k - t,
    {
        let ghost prev = zeros(t as nat) + tail;
        let ghost next = zeros((t + 1) as nat) + tail;
        proof {
            assert(next.drop_first() =~= prev);
            assert(next[0] == 0);
            assert(all_digits(next));
            lemma_carry(next, fm);
            lemma_carry_rest_zero(next, fm);
            assert(0 * fm == 0) by (nonlinear_arith);
        }
        let w = c;
        c = w / 10;
        exact = exact && w % 10 == 0;
        t = t + 1;
    }
    let total = wf * scale + c;
    if total >= 0x200_0000_0000_0000_0000_0000_0000_0000u128 {
        return (0, true, false);
    }
    (total, false, exact)
}

/// The 64-bit float nearest to `w`, times 2^55, from `p`, the whole part of
/// `w * 2^55`, and whether `w * 2^55` is whole.
fn float_scaled_of(p: u128, whole: bool) -> (r: u128)
    requires
        two_pow(54) <= p < two_pow(121),
    ensures
        r == float_scaled(p as nat, whole),
{
    proof {
        lemma_two_pow_values();
        lemma_bit_len(p as nat);
    }
    let ghost bl = bit_len(p as nat);
    proof {
        if bl >= 122 {
            lemma_two_pow_monotone(121, (bl - 1) as nat);
        }
        if bl <= 54 {
            lemma_two_pow_monotone(bl, 54);
        }
        assert(55 <= bl <= 121);
    }
    let mut n = p;
    let mut b: u32 = 0;
    while n > 0
        invariant
            bl == b + bit_len(n as nat),
            bl <= 121,
        decreases n,
    {
        assert(bit_len(n as nat) == 1 + bit_len((n / 2) as nat));
        n = n / 2;
        b = b + 1;
    }
    assert(bl == b);
    let g = b - 53;
    let mut unit: u128 = 1;
    let mut i: u32 = 0;
    while i < g
        invariant
            i <= g,
            g == bl - 53,
            55 <= bl <= 121,
            unit == two_pow(i as nat),
            two_pow(121) == 0x200_0000_0000_0000_0000_0000_0000_0000nat,
        decreases g - i,
    {
        proof {
            lemma_two_pow_monotone((i + 1) as nat, 121);
        }
        unit = unit * 2;
        i = i + 1;
    }
    proof {
        lemma_two_pow_add(53, g as nat);
        assert((53 + g) as nat == bl);
        lemma_two_pow_monotone(bl, 121);
        lemma_two_pow_positive(g as nat);
    }
    let q = p / unit;
    let low = p % unit;
    let half = unit / 2;
    let up = low > half || (low == half && (!whole || q % 2 == 1));
    proof {
        assert(q < two_pow(53)) by (nonlinear_arith)
            requires
                p < two_pow(53) * unit,
                q == p / unit,
                unit >= 1,
        ;
        assert((q + 1) * unit <= two_pow(53) * unit) by (nonlinear_arith)
            requires
                q < two_pow(53),
                unit >= 1,
        ;
        assert(q * unit <= (q + 1) * unit) by (nonlinear_arith);
    }
    let r = if up {
        (q + 1) * unit
    } else {
        q * unit
    };
    r
}


// ---------------------------------------------------------------------------
// The ends of the float range.

/// Five to the power `n`.
pub open spec fn pow5(n: nat) -> nat
    decreases n,
{
    if n == 0 {
        1
    } else {
        5 * pow5((n - 1) as nat)
    }
}

/// The least number that a 64-bit float rounds up to infinity, halfway
/// between the largest float and 2^1024: 2^1024 - 2^970.
pub open spec fn float_overflow() -> nat {
    (two_pow(54) - 1) as nat * two_pow(970)
}

/// Whether `digits_value(d) * 10^x` is at least `t`.
pub open spec fn value_at_least(d: Seq<u8>, x: int, t: nat) -> bool {
    if x >= 0 {
        digits_value(d) * pow10(x as nat) >= t
    } else {
        digits_value(d) >= t * pow10((-x) as nat)
    }
}

/// Whether `digits_value(d) * 10^x` is at most 2^-1075, half the least
/// positive float, so that the float nearest to it is zero (a tie going to
/// the even zero).
pub open spec fn rounds_to_zero(d: Seq<u8>, x: int) -> bool {
    if x >= 0 {
        digits_value(d) * pow10(x as nat) * two_pow(1075) <= 1
    } else {
        digits_value(d) * two_pow(1075) <= pow10((-x) as nat)
    }
}

/// `digits_value(d) * 10^(x - base)`.
spec fn shifted_value(d: Seq<u8>, x: int, base: int) -> nat {
    digits_value(d) * pow10((x - base) as nat)
}

/// The sign of `digits_value(a) * 10^xa - digits_value(b) * 10^xb`.
spec fn decimal_order(a: Seq<u8>, xa: int, b: Seq<u8>, xb: int) -> int {
    let base = if xa <= xb {
        xa
    } else {
        xb
    };
    let va = shifted_value(a, xa, base);
    let vb = shifted_value(b, xb, base);
    if va < vb {
        -1
    } else if va == vb {
        0
    } else {
        1
    }
}

proof fn lemma_pow5_two_pow(n: nat)
    ensures
        pow5(n) * two_pow(n) == pow10(n),
        pow5(n) <= pow10(n),
        two_pow(n) <= pow10(n),
    decreases n,
{
    if n > 0 {
        let k = (n - 1) as nat;
        lemma_pow5_two_pow(k);
        assert(pow5(n) == 5 * pow5(k));
        assert(two_pow(n) == 2 * two_pow(k));
        assert(pow10(n) == 10 * pow10(k));
        assert(pow5(n) * two_pow(n) == 10 * (pow5(k) * two_pow(k))) by (nonlinear_arith)
            requires
                pow5(n) == 5 * pow5(k),
                two_pow(n) == 2 * two_pow(k),
        ;
    } else {
        assert(pow5(0) == 1 && two_pow(0) == 1 && pow10(0) == 1);
    }
}

proof fn lemma_value_pad(s: Seq<u8>, k: nat)
    ensures
        digits_value(s + zeros(k)) == digits_value(s) * pow10(k),
{
    lemma_value_concat(s, zeros(k));
    lemma_value_zeros(zeros(k));
}

/// Equal-length digit runs that agree up to `j`, where the first is lower,
/// are in that order.
proof fn lemma_lex(a: Seq<u8>, b: Seq<u8>, j: int)
    requires
        a.len() == b.len(),
        all_digits(a),
        all_digits(b),
        0 <= j < a.len(),
        forall|i: int| 0 <= i < j ==> a[i] == b[i],
        a[j] < b[j],
    ensures
        digits_value(a) < digits_value(b),
{
    let n = a.len();
    let r = (n - j - 1) as nat;
    let pa = a.take(j + 1);
    let pb = b.take(j + 1);
    assert(a =~= pa + a.skip(j + 1));
    assert(b =~= pb + b.skip(j + 1));
    lemma_value_concat(pa, a.skip(j + 1));
    lemma_value_concat(pb, b.skip(j + 1));
    assert(all_digits(a.skip(j + 1)));
    lemma_value_bound(a.skip(j + 1));
    assert(pa.drop_last() =~= pb.drop_last());
    assert(digits_value(pa) == digits_value(pa.drop_last()) * 10 + a[j] as nat);
    assert(digits_value(pb) == digits_value(pb.drop_last()) * 10 + b[j] as nat);
    let p = pow10(r);
    let ta = digits_value(a.skip(j + 1));
    let tb = digits_value(b.skip(j + 1));
    assert(digits_value(pa) + 1 <= digits_value(pb));
    assert(digits_value(pa) * p + ta < digits_value(pb) * p + tb) by (nonlinear_arith)
        requires
            digits_value(pa) + 1 <= digits_value(pb),
            ta < p,
    ;
}

/// A run with a nonzero leading digit, shifted down to `base`, lies between
/// the powers of ten its length and exponent name.
proof fn lemma_shifted_range(s: Seq<u8>, x: int, base: int)
    requires
        all_digits(s),
        s.len() >= 1,
        s[0] >= 1,
        base <= x,
    ensures
        pow10((s.len() - 1 + x - base) as nat) <= shifted_value(s, x, base),
        shifted_value(s, x, base) < pow10((s.len() + x - base) as nat),
{
    let l = s.len();
    let k = (x - base) as nat;
    lemma_value_leading(s);
    lemma_value_bound(s);
    lemma_pow10_add((l - 1) as nat, k);
    lemma_pow10_add(l, k);
    let v = digits_value(s);
    let pk = pow10(k);
    lemma_pow10_positive(k);
    assert(pow10((l - 1) as nat) * pk <= v * pk) by (nonlinear_arith)
        requires
            pow10((l - 1) as nat) <= v,
    ;
    assert(v * pk < pow10(l) * pk) by (nonlinear_arith)
        requires
            v < pow10(l),
            pk >= 1,
    {
    }
    lemma_pow10_positive(k);
}

/// A run that reaches further up is the larger.
proof fn lemma_magnitude_order(a: Seq<u8>, xa: int, b: Seq<u8>, xb: int)
    requires
        all_digits(a),
        all_digits(b),
        a.len() >= 1,
        a[0] >= 1,
        b.len() >= 1,
        b[0] >= 1,
        a.len() + xa < b.len() + xb,
    ensures
        decimal_order(a, xa, b, xb) == -1,
        decimal_order(b, xb, a, xa) == 1,
{
    let base = if xa <= xb {
        xa
    } else {
        xb
    };
    lemma_shifted_range(a, xa, base);
    lemma_shifted_range(b, xb, base);
    lemma_pow10_monotone((a.len() + xa - base) as nat, (b.len() - 1 + xb - base) as nat);
}

fn first_nonzero(d: &Vec<u8>, start: usize) -> (r: usize)
    requires
        start <= d.len(),
    ensures
        start <= r <= d.len(),
        forall|i: int| start <= i < r ==> d@[i] == 0,
        r < d.len() ==> d@[r as int] != 0,
{
    let mut z = start;
    while z < d.len() && d[z] == 0
        invariant
            start <= z <= d.len(),
            forall|i: int| start <= i < z ==> d@[i] == 0,
        decreases d.len() - z,
    {
        z = z + 1;
    }
    z
}

/// The sign of `digits_value(a) * 10^wa - digits_value(b[zb..]) * 10^xb`,
/// where `xa` holds `wa` or, far beyond the range that matters here, has
/// its sign.
fn compare_decimal(a: &Vec<u8>, xa: i128, Ghost(wa): Ghost<int>, b: &Vec<u8>, zb: usize, xb: i128) -> (r: i8)
    requires
        all_digits(a@),
        all_digits(b@),
        zb < b.len() <= 2000,
        b@[zb as int] >= 1,
        -2000 <= xb <= 2000,
        -EXPONENT_CAP * 12 <= xa <= EXPONENT_CAP * 12,
        xa == wa || (xa > 100_000_000_000_000_000_000_000_000_000i128 && wa
            > 100_000_000_000_000_000_000_000_000_000i128) || (xa
            < -100_000_000_000_000_000_000_000_000_000i128 && wa
            < -100_000_000_000_000_000_000_000_000_000i128),
    ensures
        r == decimal_order(a@, wa, b@.skip(zb as int), xb as int),
{
    let ghost bs = b@.skip(zb as int);
    assert(all_digits(bs));
    let za = first_nonzero(a, 0);
    if za == a.len() {
        proof {
            lemma_value_zeros(a@);
            let base = if wa <= xb {
                wa
            } else {
                xb as int
            };
            lemma_shifted_range(bs, xb as int, base);
            lemma_pow10_positive((bs.len() - 1 + xb - base) as nat);
            assert(0 * pow10((wa - base) as nat) == 0) by (nonlinear_arith);
        }
        return -1;
    }
    let ghost sa = a@.skip(za as int);
    proof {
        lemma_value_skip_zeros(a@, za as int);
        assert(all_digits(sa));
        assert(sa[0] == a@[za as int]);
    }
    assert(decimal_order(a@, wa, bs, xb as int) == decimal_order(sa, wa, bs, xb as int));
    let la = a.len() - za;
    let lb = b.len() - zb;
    let ma: i128 = la as i128 + xa;
    let mb: i128 = lb as i128 + xb;
    if ma < mb {
        proof {
            lemma_magnitude_order(sa, wa, bs, xb as int);
        }
        return -1;
    }
    if ma > mb {
        proof {
            lemma_magnitude_order(bs, xb as int, sa, wa);
        }
        return 1;
    }
    assert(xa == wa);
    let k: usize = if la >= lb {
        la
    } else {
        lb
    };
    let ghost base: int = if wa <= xb {
        wa
    } else {
        xb as int
    };
    let ghost pa = sa + zeros((k - la) as nat);
    let ghost pb = bs + zeros((k - lb) as nat);
    proof {
        assert(k - la == wa - base);
        assert(k - lb == xb - base);
        lemma_value_pad(sa, (k - la) as nat);
        lemma_value_pad(bs, (k - lb) as nat);
        assert(all_digits(pa));
        assert(all_digits(pb));
        assert(digits_value(pa) == shifted_value(sa, wa, base));
        assert(digits_value(pb) == shifted_value(bs, xb as int, base));
    }
    let mut i: usize = 0;
    while i < k
        invariant
            i <= k,
            k == pa.len(),
            k == pb.len(),
            la == sa.len(),
            lb == bs.len(),
            za + la == a.len(),
            zb + lb == b.len(),
            sa == a@.skip(za as int),
            bs == b@.skip(zb as int),
            pa == sa + zeros((k - la) as nat),
            pb == bs + zeros((k - lb) as nat),
            all_digits(pa),
            all_digits(pb),
            decimal_order(a@, wa, b@.skip(zb as int), xb as int) == (if digits_value(pa)
                < digits_value(pb) {
                -1int
            } else if digits_value(pa) == digits_value(pb) {
                0int
            } else {
                1int
            }),
            forall|j: int| 0 <= j < i ==> pa[j] == pb[j],
        decreases k - i,
    {
        let da: u8 = if i < la {
            a[za + i]
        } else {
            0
        };
        let db: u8 = if i < lb {
            b[zb + i]
        } else {
            0
        };
        assert(pa[i as int] == da);
        assert(pb[i as int] == db);
        if da < db {
            proof {
                lemma_lex(pa, pb, i as int);
            }
            return -1;
        }
        if da > db {
            proof {
                assert forall|j: int| 0 <= j < i implies pb[j] == pa[j] by {}
                lemma_lex(pb, pa, i as int);
            }
            return 1;
        }
        i = i + 1;
    }
    assert(pa =~= pb);
    0
}

/// Multiplies a run of digits, padded with leading zeros, by `c` in place.
fn multiply_digits(v: &mut Vec<u8>, c: u64)
    requires
        all_digits(old(v)@),
        c <= 0x1000_0000_0000_0000,
        digits_value(old(v)@) * c < pow10(old(v)@.len()),
    ensures
        final(v)@.len() == old(v)@.len(),
        all_digits(final(v)@),
        digits_value(final(v)@) == digits_value(old(v)@) * c,
{
    let ghost o = v@;
    let n = v.len();
    let mut carry: u128 = 0;
    let mut i = n;
    proof {
        assert(o.skip(n as int) =~= Seq::<u8>::empty());
        assert(v@.skip(n as int) =~= Seq::<u8>::empty());
        assert(pow10(0) == 1);
        assert(0 * (c as nat) == 0) by (nonlinear_arith);
    }
    while i > 0
        invariant
            i <= n == v@.len() == o.len(),
            all_digits(o),
            all_digits(v@),
            c <= 0x1000_0000_0000_0000,
            carry <= c,
            forall|j: int| 0 <= j < i ==> v@[j] == o[j],
            digits_value(o.skip(i as int)) * c == carry * pow10((n - i) as nat) + digits_value(
                v@.skip(i as int),
            ),
        decreases i,
    {
        assert(v@[i - 1] < 10);
        assert((v@[i - 1] as u128) * (c as u128) <= 10 * 0x1000_0000_0000_0000) by (nonlinear_arith)
            requires
                v@[i - 1] < 10,
                c <= 0x1000_0000_0000_0000,
        ;
        let w: u128 = v[i - 1] as u128 * c as u128 + carry;
        let ghost prev_new = v@.skip(i as int);
        let ghost co = carry;
        let ghost d = o[i - 1];
        assert(v@[i - 1] == d);
        v.set(i - 1, (w % 10) as u8);
        let ghost p = pow10((n - i) as nat);
        proof {
            assert(v@.skip(i as int) =~= prev_new);
            assert(o.skip(i - 1) =~= seq![d] + o.skip(i as int));
            assert(v@.skip(i - 1) =~= seq![(w % 10) as u8] + v@.skip(i as int));
            lemma_value_concat(seq![d], o.skip(i as int));
            lemma_value_concat(seq![(w % 10) as u8], v@.skip(i as int));
            lemma_value_single(seq![d]);
            lemma_value_single(seq![(w % 10) as u8]);
            assert(all_digits(o.skip(i as int)));
            assert(pow10((n - i + 1) as nat) == 10 * p);
            let vo = digits_value(o.skip(i as int));
            let vn = digits_value(prev_new);
            assert((d as nat * p + vo) * c == (w / 10) * (10 * p) + ((w % 10) * p + vn)) by (nonlinear_arith)
                requires
                    vo * c == co * p + vn,
                    w == d * c + co,
                    w == 10 * (w / 10) + w % 10,
            ;
            assert(w / 10 <= c as u128) by (nonlinear_arith)
                requires
                    w == d * c + co,
                    d < 10,
                    co <= c,
            ;
        }
        carry = w / 10;
        i = i - 1;
    }
    proof {
        assert(o.skip(0) =~= o);
        assert(v@.skip(0) =~= v@);
        if carry > 0 {
            lemma_pow10_positive(n as nat);
            assert(carry * pow10(n as nat) >= pow10(n as nat)) by (nonlinear_arith)
                requires
                    carry >= 1,
            ;
        }
    }
}

/// `value` as `len` digits, leading zeros first.
fn padded_digits(len: usize, value: u8) -> (r: Vec<u8>)
    requires
        len >= 1,
        value < 10,
    ensures
        r@.len() == len,
        all_digits(r@),
        digits_value(r@) == value as nat,
{
    let mut r: Vec<u8> = Vec::new();
    let mut i: usize = 0;
    while i + 1 < len
        invariant
            i + 1 <= len,
            r@.len() == i,
            forall|j: int| 0 <= j < i ==> r@[j] == 0,
        decreases len - i,
    {
        r.push(0);
        i = i + 1;
    }
    let ghost zs = r@;
    r.push(value);
    proof {
        lemma_value_zeros(zs);
        assert(r@.drop_last() =~= zs);
    }
    r
}

/// The digits of [`float_overflow`], with leading zeros.
fn overflow_digits() -> (r: Vec<u8>)
    ensures
        r@.len() == 1100,
        all_digits(r@),
        digits_value(r@) == float_overflow(),
{
    let mut v = padded_digits(1100, 1);
    proof {
        lemma_two_pow_values();
        lemma_pow5_two_pow(1100);
        lemma_two_pow_monotone(54, 1100);
        assert(1 * 0x3f_ffff_ffff_ffff == 0x3f_ffff_ffff_ffffnat);
    }
    multiply_digits(&mut v, 0x3f_ffff_ffff_ffff);
    assert(two_pow(0) == 1);
    assert((two_pow(54) - 1) as nat == 0x3f_ffff_ffff_ffffnat);
    let mut i: u32 = 0;
    while i < 97
        invariant
            i <= 97,
            v@.len() == 1100,
            all_digits(v@),
            digits_value(v@) == (two_pow(54) - 1) as nat * two_pow((10 * i) as nat),
            two_pow(54) == 0x40_0000_0000_0000nat,
        decreases 97 - i,
    {
        proof {
            let e = (10 * i) as nat;
            lemma_two_pow_add(e, 10);
            lemma_two_pow_add(54, (e + 10) as nat);
            lemma_pow5_two_pow((54 + e + 10) as nat);
            lemma_pow10_monotone((54 + e + 10) as nat, 1100);
            assert(two_pow(10) == 1024) by {
                reveal_with_fuel(two_pow, 11);
            }
            let t = two_pow(e);
            lemma_two_pow_positive(e);
            assert((two_pow(54) - 1) as nat * t * 1024 < two_pow(54) * (t * 1024)) by (nonlinear_arith)
                requires
                    t >= 1,
                    two_pow(54) >= 1,
            ;
            assert(((two_pow(54) - 1) as nat * t) * 1024 == (two_pow(54) - 1) as nat * (t * 1024)) by (nonlinear_arith);
        }
        multiply_digits(&mut v, 1024);
        i = i + 1;
    }
    v
}

/// The digits of `5^1075`, with leading zeros.
fn half_tiny_digits() -> (r: Vec<u8>)
    ensures
        r@.len() == 1100,
        all_digits(r@),
        digits_value(r@) == pow5(1075),
{
    let mut v = padded_digits(1100, 1);
    proof {
        assert(pow5(25) == 298023223876953125nat) by {
            reveal_with_fuel(pow5, 26);
        }
    }
    let mut i: u32 = 0;
    while i < 43
        invariant
            i <= 43,
            v@.len() == 1100,
            all_digits(v@),
            digits_value(v@) == pow5((25 * i) as nat),
            pow5(25) == 298023223876953125nat,
        decreases 43 - i,
    {
        proof {
            let e = (25 * i) as nat;
            lemma_pow5_add(e, 25);
            lemma_pow5_two_pow((e + 25) as nat);
            lemma_pow10_monotone((e + 25) as nat, 1099);
            lemma_pow10_add(1099, 1);
            assert(pow10(1) == 10) by {
                reveal_with_fuel(pow10, 2);
            }
            lemma_pow5_positive(e);
        }
        multiply_digits(&mut v, 298023223876953125);
        i = i + 1;
    }
    v
}

proof fn lemma_pow5_add(a: nat, b: nat)
    ensures
        pow5(a + b) == pow5(a) * pow5(b),
    decreases b,
{
    if b > 0 {
        let c = (b - 1) as nat;
        lemma_pow5_add(a, c);
        assert(a + b == (a + c) + 1);
        assert(pow5(((a + c) + 1) as nat) == 5 * pow5(a + c));
        assert(pow5(b) == 5 * pow5(c));
        assert(pow5(a) * (5 * pow5(c)) == 5 * (pow5(a) * pow5(c))) by (nonlinear_arith);
        assert(pow5(a + b) == pow5(a) * pow5(b));
    } else {
        assert(pow5(b) == 1);
        assert(a + b == a);
    }
}

proof fn lemma_pow5_positive(n: nat)
    ensures
        pow5(n) >= 1,
    decreases n,
{
    if n > 0 {
        lemma_pow5_positive((n - 1) as nat);
    }
}

proof fn lemma_scale_le(x: nat, y: nat, k: nat)
    requires
        k > 0,
    ensures
        (x <= y) == (x * k <= y * k),
{
    if x <= y {
        assert(x * k <= y * k) by (nonlinear_arith)
            requires
                x <= y,
        ;
    } else {
        assert(x * k > y * k) by (nonlinear_arith)
            requires
                x > y,
                k > 0,
        ;
    }
}

/// Whether `digits_value(d) * 10^wx` is at least [`float_overflow`].
fn reaches_overflow(d: &Vec<u8>, x: i128, Ghost(wx): Ghost<int>) -> (r: bool)
    requires
        all_digits(d@),
        -EXPONENT_CAP * 12 <= x <= EXPONENT_CAP * 12,
        x == wx || (x > 100_000_000_000_000_000_000_000_000_000i128 && wx
            > 100_000_000_000_000_000_000_000_000_000i128) || (x
            < -100_000_000_000_000_000_000_000_000_000i128 && wx
            < -100_000_000_000_000_000_000_000_000_000i128),
    ensures
        r == value_at_least(d@, wx, float_overflow()),
{
    let c = overflow_digits();
    let zc = first_nonzero(&c, 0);
    proof {
        if zc == c.len() {
            lemma_value_zeros(c@);
            lemma_two_pow_values();
            lemma_two_pow_positive(970);
            assert((two_pow(54) - 1) as nat * two_pow(970) >= 1) by (nonlinear_arith)
                requires
                    (two_pow(54) - 1) as nat >= 1,
                    two_pow(970) >= 1,
            ;
        }
        lemma_value_skip_zeros(c@, zc as int);
        assert(pow10(0) == 1);
    }
    let o = compare_decimal(d, x, Ghost(wx), &c, zc, 0);
    proof {
        let v = digits_value(d@);
        let t = float_overflow();
        if wx >= 0 {
            assert(shifted_value(c@.skip(zc as int), 0, 0) == t * 1);
        } else {
            assert(shifted_value(d@, wx, wx) == v * 1);
        }
    }
    o >= 0
}

/// Whether the float nearest to `digits_value(d) * 10^wx` is zero.
fn rounds_to_zero_of(d: &Vec<u8>, x: i128, Ghost(wx): Ghost<int>) -> (r: bool)
    requires
        all_digits(d@),
        -EXPONENT_CAP * 12 <= x <= EXPONENT_CAP * 12,
        x == wx || (x > 100_000_000_000_000_000_000_000_000_000i128 && wx
            > 100_000_000_000_000_000_000_000_000_000i128) || (x
            < -100_000_000_000_000_000_000_000_000_000i128 && wx
            < -100_000_000_000_000_000_000_000_000_000i128),
    ensures
        r == rounds_to_zero(d@, wx),
{
    let c = half_tiny_digits();
    let zc = first_nonzero(&c, 0);
    proof {
        lemma_pow5_positive(1075);
        if zc == c.len() {
            lemma_value_zeros(c@);
        }
        lemma_value_skip_zeros(c@, zc as int);
    }
    let o = compare_decimal(d, x, Ghost(wx), &c, zc, -1075);
    proof {
        let v = digits_value(d@);
        let p5 = pow5(1075);
        let t2 = two_pow(1075);
        let p10 = pow10(1075);
        lemma_pow5_two_pow(1075);
        lemma_two_pow_positive(1075);
        assert(pow10(0) == 1);
        let cs = c@.skip(zc as int);
        if wx >= -1075 {
            let va = shifted_value(d@, wx, -1075);
            assert(shifted_value(cs, -1075, -1075) == p5 * 1);
            lemma_scale_le(va, p5, t2);
            if wx >= 0 {
                let e = pow10(wx as nat);
                lemma_pow10_add(wx as nat, 1075);
                assert(((wx + 1075) as nat) == (wx as nat + 1075) as nat);
                lemma_pow10_positive(1075);
                assert(va * t2 == (v * e * t2) * p10) by (nonlinear_arith)
                    requires
                        va == v * (e * p10),
                ;
                lemma_scale_le(v * e * t2, 1, p10);
                assert(1 * p10 == p5 * t2);
                assert((va <= p5) == rounds_to_zero(d@, wx));
            } else {
                let n = (-wx) as nat;
                let m = (1075 - n) as nat;
                lemma_pow10_add(m, n);
                lemma_pow10_positive(m);
                assert((m + n) as nat == 1075);
                assert((wx + 1075) as nat == m);
                let pm = pow10(m);
                assert(va * t2 == (v * t2) * pm) by (nonlinear_arith)
                    requires
                        va == v * pm,
                ;
                assert(p5 * t2 == pow10(n) * pm) by (nonlinear_arith)
                    requires
                        p5 * t2 == pm * pow10(n),
                ;
                lemma_scale_le(v * t2, pow10(n), pm);
                assert((va <= p5) == rounds_to_zero(d@, wx));
            }
            assert(decimal_order(d@, wx, cs, -1075) == (if va < p5 {
                -1int
            } else if va == p5 {
                0int
            } else {
                1int
            }));
        } else {
            let n = (-wx) as nat;
            let m = (n - 1075) as nat;
            lemma_pow10_add(1075, m);
            assert((1075 + m) as nat == n);
            assert(shifted_value(d@, wx, wx) == v * 1);
            let pm = pow10(m);
            assert(shifted_value(cs, -1075, wx) == p5 * pm);
            lemma_scale_le(v, p5 * pm, t2);
            assert((p5 * pm) * t2 == pow10(n)) by (nonlinear_arith)
                requires
                    p5 * t2 == p10,
                    pow10(n) == p10 * pm,
            ;
            assert((v <= p5 * pm) == rounds_to_zero(d@, wx));
        }
    }
    o <= 0
}

// ---------------------------------------------------------------------------
// The text: words, the numeral and the unit.

/// Unicode White_Space, the characters that separate the number from the
/// unit.
pub open spec fn is_space(c: char) -> bool {
    let v = c as u32;
    ||| 0x9 <= v <= 0xd
    ||| v == 0x20
    ||| v == 0x85
    ||| v == 0xa0
    ||| v == 0x1680
    ||| 0x2000 <= v <= 0x200a
    ||| v == 0x2028
    ||| v == 0x2029
    ||| v == 0x202f
    ||| v == 0x205f
    ||| v == 0x3000
}

pub(crate) fn space(c: char) -> (r: bool)
    ensures
        r == is_space(c),
{
    let v = c as u32;
    (0x9 <= v && v <= 0xd) || v == 0x20 || v == 0x85 || v == 0xa0 || v == 0x1680 || (0x2000 <= v
        && v <= 0x200a) || v == 0x2028 || v == 0x2029 || v == 0x202f || v == 0x205f || v == 0x3000
}

/// The first index at or after `i` that holds no white space.
pub open spec fn space_end(s: Seq<char>, i: int) -> int
    decreases s.len() - i,
{
    if 0 <= i < s.len() && is_space(s[i]) {
        space_end(s, i + 1)
    } else {
        i
    }
}

/// The first index at or after `i` that holds white space.
pub open spec fn word_end(s: Seq<char>, i: int) -> int
    decreases s.len() - i,
{
    if 0 <= i < s.len() && !is_space(s[i]) {
        word_end(s, i + 1)
    } else {
        i
    }
}

fn skip_space(s: &Vec<char>, start: usize) -> (r: usize)
    requires
        start <= s.len(),
    ensures
        r as int == space_end(s@, start as int),
        start <= r <= s.len(),
{
    let mut i = start;
    while i < s.len() && space(s[i])
        invariant
            start <= i <= s.len(),
            space_end(s@, i as int) == space_end(s@, start as int),
        decreases s.len() - i,
    {
        i = i + 1;
    }
    i
}

fn skip_word(s: &Vec<char>, start: usize) -> (r: usize)
    requires
        start <= s.len(),
    ensures
        r as int == word_end(s@, start as int),
        start <= r <= s.len(),
{
    let mut i = start;
    while i < s.len() && !space(s[i])
        invariant
            start <= i <= s.len(),
            word_end(s@, i as int) == word_end(s@, start as int),
        decreases s.len() - i,
    {
        i = i + 1;
    }
    i
}

/// The code of a character after ASCII upper-casing.
pub open spec fn upper_code(c: char) -> u32 {
    let v = c as u32;
    if 97 <= v <= 122 {
        (v - 32) as u32
    } else {
        v
    }
}

/// Whether `t`, upper-cased in ASCII, spells `name`.
pub open spec fn upper_matches(t: Seq<char>, name: Seq<char>) -> bool {
    &&& t.len() == name.len()
    &&& forall|i: int| 0 <= i < t.len() ==> upper_code(t[i]) == name[i] as u32
}

fn matches_name(t: &Vec<char>, start: usize, end: usize, name: &str) -> (r: bool)
    requires
        start <= end <= t.len(),
    ensures
        r == upper_matches(t@.subrange(start as int, end as int), name@),
{
    let n = chars_of(name);
    if end - start != n.len() {
        return false;
    }
    let mut i: usize = 0;
    while i < n.len()
        invariant
            start <= end <= t.len(),
            end - start == n.len(),
            n@ == name@,
            0 <= i <= n.len(),
            forall|j: int| 0 <= j < i ==> upper_code(t@[start + j]) == n@[j] as u32,
        decreases n.len() - i,
    {
        let v = t[start + i] as u32;
        let u = if 97 <= v && v <= 122 {
            v - 32
        } else {
            v
        };
        if u != n[i] as u32 {
            return false;
        }
        i = i + 1;
    }
    true
}

fn copy_chars(v: &Vec<char>, start: usize, end: usize) -> (r: Vec<char>)
    requires
        start <= end <= v.len(),
    ensures
        r@ == v@.subrange(start as int, end as int),
{
    let mut out: Vec<char> = Vec::new();
    let mut i = start;
    while i < end
        invariant
            start <= i <= end <= v.len(),
            out@ == v@.subrange(start as int, i as int),
        decreases end - i,
    {
        out.push(v[i]);
        i = i + 1;
        assert(out@ =~= v@.subrange(start as int, i as int));
    }
    out
}

pub open spec fn is_digit(c: char) -> bool {
    48 <= c as u32 <= 57
}

pub open spec fn digit_of(c: char) -> u8 {
    ((c as u32) - 48) as u8
}

/// The digits that a run of digit characters stands for.
pub open spec fn digit_values(t: Seq<char>) -> Seq<u8> {
    t.map_values(|c: char| digit_of(c))
}

/// The first index at or after `i` that holds no digit.
pub open spec fn digits_end(t: Seq<char>, i: int) -> int
    decreases t.len() - i,
{
    if 0 <= i < t.len() && is_digit(t[i]) {
        digits_end(t, i + 1)
    } else {
        i
    }
}

fn skip_digits(t: &Vec<char>, start: usize) -> (r: usize)
    requires
        start <= t.len(),
    ensures
        r as int == digits_end(t@, start as int),
        start <= r <= t.len(),
        forall|i: int| start <= i < r ==> is_digit(t@[i]),
{
    let mut i = start;
    while i < t.len() && (48 <= t[i] as u32 && t[i] as u32 <= 57)
        invariant
            start <= i <= t.len(),
            digits_end(t@, i as int) == digits_end(t@, start as int),
            forall|j: int| start <= j < i ==> is_digit(t@[j]),
        decreases t.len() - i,
    {
        i = i + 1;
    }
    i
}

/// What the first word of a size says as a number.
pub enum NumberText {
    /// Not a numeral.
    Malformed,
    /// `inf`, `infinity` or `nan`, with or without a sign.
    NotFinite,
    /// The value `digits_value(digits) * 10^(exponent - fraction)`, negated
    /// when `negative`.
    Decimal { negative: bool, digits: Seq<u8>, fraction: nat, exponent: int },
}

/// Reads a numeral: an optional sign, then `inf`, `infinity` or `nan` in
/// any ASCII case, or digits with an optional `.` and fraction digits (at
/// least one digit in all), followed by an optional exponent: `e` or `E`,
/// an optional sign and at least one digit.
pub open spec fn read_number(t: Seq<char>) -> NumberText {
    let s0: int = if t.len() > 0 && (t[0] == '+' || t[0] == '-') {
        1
    } else {
        0
    };
    let negative = s0 == 1 && t[0] == '-';
    let u = t.subrange(s0, t.len() as int);
    if upper_matches(u, "INF"@) || upper_matches(u, "INFINITY"@) || upper_matches(u, "NAN"@) {
        NumberText::NotFinite
    } else {
        let a = digits_end(t, s0);
        let fb = if a < t.len() && t[a] == '.' {
            a + 1
        } else {
            a
        };
        let fe = digits_end(t, fb);
        if (a - s0) + (fe - fb) == 0 {
            NumberText::Malformed
        } else {
            let digits = digit_values(t.subrange(s0, a) + t.subrange(fb, fe));
            let fraction = (fe - fb) as nat;
            if fe == t.len() {
                NumberText::Decimal { negative, digits, fraction, exponent: 0 }
            } else if t[fe] == 'e' || t[fe] == 'E' {
                let es = if fe + 1 < t.len() && (t[fe + 1] == '+' || t[fe + 1] == '-') {
                    fe + 2
                } else {
                    fe + 1
                };
                let ee = digits_end(t, es);
                if ee == es || ee != t.len() {
                    NumberText::Malformed
                } else {
                    let magnitude = digits_value(digit_values(t.subrange(es, ee))) as int;
                    let exponent = if es == fe + 2 && t[fe + 1] == '-' {
                        -magnitude
                    } else {
                        magnitude
                    };
                    NumberText::Decimal { negative, digits, fraction, exponent }
                }
            } else {
                NumberText::Malformed
            }
        }
    }
}

/// A numeral as read, the exponent held up to [`EXPONENT_CAP`].
enum Reading {
    Malformed,
    NotFinite,
    Decimal { negative: bool, digits: Vec<u8>, fraction: usize, exponent: i128 },
}

spec fn reads_as(r: Reading, n: NumberText) -> bool {
    match (r, n) {
        (Reading::Malformed, NumberText::Malformed) => true,
        (Reading::NotFinite, NumberText::NotFinite) => true,
        (
            Reading::Decimal { negative, digits, fraction, exponent },
            NumberText::Decimal { negative: n2, digits: d2, fraction: f2, exponent: e2 },
        ) => {
            &&& negative == n2
            &&& digits@ == d2
            &&& fraction == f2
            &&& all_digits(d2)
            &&& exponent_agrees(exponent as int, e2)
            &&& -EXPONENT_CAP * 11 <= exponent <= EXPONENT_CAP * 11
        },
        _ => false,
    }
}

proof fn lemma_digit_values_digits(t: Seq<char>)
    requires
        forall|i: int| 0 <= i < t.len() ==> is_digit(t[i]),
    ensures
        all_digits(digit_values(t)),
{
}

fn push_digits(out: &mut Vec<u8>, t: &Vec<char>, start: usize, end: usize)
    requires
        start <= end <= t.len(),
        forall|i: int| start <= i < end ==> is_digit(t@[i]),
    ensures
        final(out)@ == old(out)@ + digit_values(t@.subrange(start as int, end as int)),
{
    let ghost base = old(out)@;
    let mut i = start;
    assert(digit_values(t@.subrange(start as int, start as int)) =~= Seq::<u8>::empty());
    assert(out@ =~= base + digit_values(t@.subrange(start as int, start as int)));
    while i < end
        invariant
            start <= i <= end <= t.len(),
            forall|j: int| start <= j < end ==> is_digit(t@[j]),
            out@ == base + digit_values(t@.subrange(start as int, i as int)),
        decreases end - i,
    {
        let d = (t[i] as u32 - 48) as u8;
        out.push(d);
        i = i + 1;
        assert(out@ =~= base + digit_values(t@.subrange(start as int, i as int)));
    }
}

/// Reads exponent digits, holding the value once it passes the cap.
fn read_exponent(t: &Vec<char>, start: usize, end: usize) -> (r: i128)
    requires
        start <= end <= t.len(),
        forall|i: int| start <= i < end ==> is_digit(t@[i]),
    ensures
        ({
            let v = digits_value(digit_values(t@.subrange(start as int, end as int)));
            r == v || (r > EXPONENT_CAP && v > EXPONENT_CAP)
        }),
        0 <= r <= EXPONENT_CAP * 10 + 9,
{
    let mut e: i128 = 0;
    let mut i = start;
    assert(digit_values(t@.subrange(start as int, start as int)) =~= Seq::<u8>::empty());
    while i < end
        invariant
            start <= i <= end <= t.len(),
            forall|j: int| start <= j < end ==> is_digit(t@[j]),
            0 <= e <= EXPONENT_CAP * 10 + 9,
            ({
                let v = digits_value(digit_values(t@.subrange(start as int, i as int)));
                e == v || (e > EXPONENT_CAP && v > EXPONENT_CAP)
            }),
        decreases end - i,
    {
        let ghost prev = digit_values(t@.subrange(start as int, i as int));
        let ghost next = digit_values(t@.subrange(start as int, i + 1));
        assert(next.drop_last() =~= prev);
        assert(next.last() == digit_of(t@[i as int]));
        let d = (t[i] as u32 - 48) as i128;
        if e <= EXPONENT_CAP {
            e = e * 10 + d;
        }
        i = i + 1;
    }
    e
}

fn read_number_exec(t: &Vec<char>) -> (r: Reading)
    ensures
        reads_as(r, read_number(t@)),
{
    let len = t.len();
    let s0: usize = if len > 0 && (t[0] == '+' || t[0] == '-') {
        1
    } else {
        0
    };
    let negative = s0 == 1 && t[0] == '-';
    if matches_name(t, s0, len, "INF") || matches_name(t, s0, len, "INFINITY") || matches_name(
        t,
        s0,
        len,
        "NAN",
    ) {
        return Reading::NotFinite;
    }
    let a = skip_digits(t, s0);
    let fb = if a < len && t[a] == '.' {
        a + 1
    } else {
        a
    };
    let fe = skip_digits(t, fb);
    if (a - s0) + (fe - fb) == 0 {
        return Reading::Malformed;
    }
    let ghost spec_digits = digit_values(t@.subrange(s0 as int, a as int) + t@.subrange(
        fb as int,
        fe as int,
    ));
    let mut digits: Vec<u8> = Vec::new();
    push_digits(&mut digits, t, s0, a);
    push_digits(&mut digits, t, fb, fe);
    proof {
        assert(digits@ =~= spec_digits);
        lemma_digit_values_digits(t@.subrange(s0 as int, a as int) + t@.subrange(fb as int, fe as int));
    }
    let fraction = fe - fb;
    if fe == len {
        return Reading::Decimal { negative, digits, fraction, exponent: 0 };
    }
    if t[fe] == 'e' || t[fe] == 'E' {
        let es = if fe + 1 < len && (t[fe + 1] == '+' || t[fe + 1] == '-') {
            fe + 2
        } else {
            fe + 1
        };
        let ee = skip_digits(t, es);
        if ee == es || ee != len {
            return Reading::Malformed;
        }
        let magnitude = read_exponent(t, es, ee);
        let exponent = if es == fe + 2 && t[fe + 1] == '-' {
            -magnitude
        } else {
            magnitude
        };
        Reading::Decimal { negative, digits, fraction, exponent }
    } else {
        Reading::Malformed
    }
}


// ---------------------------------------------------------------------------
// The whole input.

/// Why a typed size was refused.
#[derive(Clone, Copy, Debug, PartialEq, Eq)]
pub enum SizeInputError {
    /// The first word is not a numeral.
    NotANumber,
    /// The number is infinite, not a number, or below zero.
    NotFiniteOrNegative,
    /// More than a number and a unit.
    TrailingText,
    /// The unit is not one of B, KB, MB, GB or TB.
    UnknownUnit,
    /// The size exceeds 2^64 bytes.
    TooLarge,
}

/// The number of bytes a unit stands for.
pub open spec fn unit_bytes(u: Seq<char>) -> Option<nat> {
    if upper_matches(u, "B"@) || upper_matches(u, "BYTE"@) || upper_matches(u, "BYTES"@) {
        Some(1)
    } else if upper_matches(u, "K"@) || upper_matches(u, "KB"@) || upper_matches(u, "KIB"@) {
        Some(0x400)
    } else if upper_matches(u, "M"@) || upper_matches(u, "MB"@) || upper_matches(u, "MIB"@) {
        Some(0x10_0000)
    } else if upper_matches(u, "G"@) || upper_matches(u, "GB"@) || upper_matches(u, "GIB"@) {
        Some(0x4000_0000)
    } else if upper_matches(u, "T"@) || upper_matches(u, "TB"@) || upper_matches(u, "TIB"@) {
        Some(0x100_0000_0000)
    } else {
        None
    }
}

fn unit_bytes_of(t: &Vec<char>, start: usize, end: usize) -> (r: Option<u64>)
    requires
        start <= end <= t.len(),
    ensures
        r matches Some(f) ==> unit_bytes(t@.subrange(start as int, end as int)) == Some(f as nat),
        r is None ==> unit_bytes(t@.subrange(start as int, end as int)) is None,
{
    if matches_name(t, start, end, "B") || matches_name(t, start, end, "BYTE") || matches_name(
        t,
        start,
        end,
        "BYTES",
    ) {
        Some(1)
    } else if matches_name(t, start, end, "K") || matches_name(t, start, end, "KB")
        || matches_name(t, start, end, "KIB") {
        Some(0x400)
    } else if matches_name(t, start, end, "M") || matches_name(t, start, end, "MB")
        || matches_name(t, start, end, "MIB") {
        Some(0x10_0000)
    } else if matches_name(t, start, end, "G") || matches_name(t, start, end, "GB")
        || matches_name(t, start, end, "GIB") {
        Some(0x4000_0000)
    } else if matches_name(t, start, end, "T") || matches_name(t, start, end, "TB")
        || matches_name(t, start, end, "TIB") {
        Some(0x100_0000_0000)
    } else {
        None
    }
}

/// What a typed size comes to: nothing when the input is blank, else a
/// number of bytes or the reason it was refused. The number is the first
/// word, the unit the second (bytes when there is none); the checks come in
/// this order: the numeral, its sign and finiteness, a third word, the unit,
/// the size. The number is read as the nearest 64-bit float: one that rounds
/// to infinity is refused as not finite, a negative one that rounds to zero
/// counts as zero, and the size is that float times the unit (see
/// [`units_to_bytes`]). A size of exactly 2^64 bytes is held as
/// `u64::MAX`; the whole part of a fractional count is kept.
pub open spec fn size_input_outcome(s: Seq<char>) -> Result<Option<u64>, SizeInputError> {
    let a = space_end(s, 0);
    if a == s.len() {
        Ok(None)
    } else {
        let b = word_end(s, a);
        match read_number(s.subrange(a, b)) {
            NumberText::Malformed => Err(SizeInputError::NotANumber),
            NumberText::NotFinite => Err(SizeInputError::NotFiniteOrNegative),
            NumberText::Decimal { negative, digits, fraction, exponent } => {
                let x = exponent - fraction;
                if (negative && !rounds_to_zero(digits, x)) || (!negative && value_at_least(
                    digits,
                    x,
                    float_overflow(),
                )) {
                    Err(SizeInputError::NotFiniteOrNegative)
                } else {
                    let c = space_end(s, b);
                    let d = word_end(s, c);
                    if space_end(s, d) < s.len() {
                        Err(SizeInputError::TrailingText)
                    } else {
                        let factor = if c < s.len() {
                            unit_bytes(s.subrange(c, d))
                        } else {
                            Some(1nat)
                        };
                        match factor {
                            None => Err(SizeInputError::UnknownUnit),
                            Some(f) => match units_to_bytes(digits, exponent - fraction, f) {
                                None => Err(SizeInputError::TooLarge),
                                Some(b) => Ok(Some(b)),
                            },
                        }
                    }
                }
            },
        }
    }
}

/// The message for a refused size typed into the field named `field`.
pub open spec fn size_input_message(field: Seq<char>, e: SizeInputError) -> Seq<char> {
    field + match e {
        SizeInputError::NotANumber => " must be a number followed by an optional unit (for example, 1 MB)."@,
        SizeInputError::NotFiniteOrNegative => " must be a finite, non-negative size."@,
        SizeInputError::TrailingText => " has unexpected trailing text."@,
        SizeInputError::UnknownUnit => " uses an unknown unit. Use B, KB, MB, GB, or TB."@,
        SizeInputError::TooLarge => " is too large."@,
    }
}

impl SizeInputError {
    /// The message for this refusal of a size typed into `field`.
    pub fn message(&self, field: &str) -> (r: String)
        ensures
            r@ == size_input_message(field@, *self),
    {
        let mut out = String::from_str(field);
        match self {
            SizeInputError::NotANumber => out.append(
                " must be a number followed by an optional unit (for example, 1 MB).",
            ),
            SizeInputError::NotFiniteOrNegative => out.append(
                " must be a finite, non-negative size.",
            ),
            SizeInputError::TrailingText => out.append(" has unexpected trailing text."),
            SizeInputError::UnknownUnit => out.append(
                " uses an unknown unit. Use B, KB, MB, GB, or TB.",
            ),
            SizeInputError::TooLarge => out.append(" is too large."),
        }
        out
    }
}

/// Reads a typed size such as `1 MB` or `2.5 gb`: `None` for a blank input.
pub fn read_size_input(value: &str) -> (r: Result<Option<u64>, SizeInputError>)
    ensures
        r == size_input_outcome(value@),
{
    let s = chars_of(value);
    let len = s.len();
    let a = skip_space(&s, 0);
    if a == len {
        return Ok(None);
    }
    let b = skip_word(&s, a);
    let token = copy_chars(&s, a, b);
    let reading = read_number_exec(&token);
    match reading {
        Reading::Malformed => Err(SizeInputError::NotANumber),
        Reading::NotFinite => Err(SizeInputError::NotFiniteOrNegative),
        Reading::Decimal { negative, digits, fraction, exponent } => {
            let ghost written = match read_number(token@) {
                NumberText::Decimal { exponent, .. } => exponent,
                _ => 0,
            };
            let held_x: i128 = exponent - fraction as i128;
            let refused = if negative {
                !rounds_to_zero_of(&digits, held_x, Ghost(written - fraction))
            } else {
                reaches_overflow(&digits, held_x, Ghost(written - fraction))
            };
            if refused {
                return Err(SizeInputError::NotFiniteOrNegative);
            }
            let c = skip_space(&s, b);
            let d = skip_word(&s, c);
            let e = skip_space(&s, d);
            if e < len {
                return Err(SizeInputError::TrailingText);
            }
            let factor = if c < len {
                unit_bytes_of(&s, c, d)
            } else {
                Some(1)
            };
            match factor {
                None => Err(SizeInputError::UnknownUnit),
                Some(f) => {
                    proof {
                        lemma_two_pow_values();
                    }
                    let (p, over, whole) = scale_fixed(&digits, fraction, exponent, f, Ghost(written));
                    if over {
                        Err(SizeInputError::TooLarge)
                    } else if p < 0x40_0000_0000_0000 {
                        Ok(Some(0))
                    } else {
                        let r = float_scaled_of(p, whole);
                        if r > 0x80_0000_0000_0000_0000_0000_0000_0000u128 {
                            Err(SizeInputError::TooLarge)
                        } else {
                            let b = r / 0x80_0000_0000_0000;
                            let bytes: u64 = if b >= 0x1_0000_0000_0000_0000u128 {
                                u64::MAX
                            } else {
                                b as u64
                            };
                            Ok(Some(bytes))
                        }
                    }
                },
            }
        },
    }
}

/// Reads a typed size such as `1 MB` or `2.5 gb` for the field named
/// `field`: `None` for a blank input, or the message that says why it was
/// refused.
pub fn parse_size_input(value: &str, field: &str) -> (r: Result<Option<u64>, String>)
    ensures
        size_input_outcome(value@) matches Ok(v) ==> r == Ok::<Option<u64>, String>(v),
        size_input_outcome(value@) matches Err(e) ==> r matches Err(m) && m@
            == size_input_message(field@, e),
{
    match read_size_input(value) {
        Ok(v) => Ok(v),
        Err(e) => Err(e.message(field)),
    }
}


// ---------------------------------------------------------------------------
// Written sizes read back.

proof fn lemma_digit_char(d: int)
    requires
        0 <= d <= 9,
    ensures
        is_digit(digit_char(d)),
        digit_of(digit_char(d)) == d,
        !is_space(digit_char(d)),
        digit_char(d) != '.',
        digit_char(d) != '+',
        digit_char(d) != '-',
{
}

/// Every character of a written number is a digit.
pub open spec fn all_digit_chars(t: Seq<char>) -> bool {
    forall|i: int| 0 <= i < t.len() ==> is_digit(t[i])
}

proof fn lemma_decimal_chars(m: nat)
    ensures
        decimal_chars(m).len() >= 1,
        all_digit_chars(decimal_chars(m)),
        digits_value(digit_values(decimal_chars(m))) == m,
    decreases m,
{
    if m < 10 {
        lemma_digit_char(m as int);
        let t = decimal_chars(m);
        assert(digit_values(t).drop_last() =~= Seq::<u8>::empty());
        assert(digits_value(Seq::<u8>::empty()) == 0);
        assert(digit_values(t).last() == m as u8);
        assert(digits_value(digit_values(t)) == digits_value(digit_values(t).drop_last()) * 10
            + digit_values(t).last() as nat);
    } else {
        lemma_decimal_chars(m / 10);
        lemma_digit_char((m % 10) as int);
        let t = decimal_chars(m);
        let t1 = decimal_chars(m / 10);
        assert(t == t1.push(digit_char((m % 10) as int)));
        assert(digit_values(t).drop_last() =~= digit_values(t1));
        assert(digit_values(t).last() == (m % 10) as u8);
        assert(digits_value(digit_values(t)) == digits_value(digit_values(t).drop_last()) * 10
            + digit_values(t).last() as nat);
        assert((m / 10) * 10 + m % 10 == m);
    }
}

proof fn lemma_digits_end_run(t: Seq<char>, i: int, j: int)
    requires
        0 <= i <= j <= t.len(),
        forall|k: int| i <= k < j ==> is_digit(t[k]),
        j == t.len() || !is_digit(t[j]),
    ensures
        digits_end(t, i) == j,
    decreases j - i,
{
    if i < j {
        lemma_digits_end_run(t, i + 1, j);
    }
}

proof fn lemma_word_end_run(s: Seq<char>, i: int, j: int)
    requires
        0 <= i <= j <= s.len(),
        forall|k: int| i <= k < j ==> !is_space(s[k]),
        j == s.len() || is_space(s[j]),
    ensures
        word_end(s, i) == j,
    decreases j - i,
{
    if i < j {
        lemma_word_end_run(s, i + 1, j);
    }
}

/// A written numeral: a run of digits, then, when `point`, a `.` and the
/// digits `frac`.
pub open spec fn numeral(whole: Seq<char>, point: bool, frac: Seq<char>) -> Seq<char> {
    if point {
        whole + seq!['.'] + frac
    } else {
        whole
    }
}

proof fn lemma_read_numeral(whole: Seq<char>, point: bool, frac: Seq<char>)
    requires
        whole.len() >= 1,
        all_digit_chars(whole),
        all_digit_chars(frac),
        !point ==> frac.len() == 0,
    ensures
        read_number(numeral(whole, point, frac)) == (NumberText::Decimal {
            negative: false,
            digits: digit_values(whole + frac),
            fraction: frac.len(),
            exponent: 0,
        }),
{
    reveal_strlit("INF");
    reveal_strlit("INFINITY");
    reveal_strlit("NAN");
    let t = numeral(whole, point, frac);
    let w = whole.len() as int;
    assert(t[0] == whole[0]);
    assert(t.subrange(0, t.len() as int) =~= t);
    assert(!upper_matches(t, "INF"@));
    assert(!upper_matches(t, "INFINITY"@));
    assert(!upper_matches(t, "NAN"@));
    if point {
        assert(t[w] == '.');
        lemma_digits_end_run(t, 0, w);
        lemma_digits_end_run(t, w + 1, t.len() as int);
        assert(t.subrange(0, w) =~= whole);
        assert(t.subrange(w + 1, t.len() as int) =~= frac);
    } else {
        lemma_digits_end_run(t, 0, w);
        assert(t.subrange(0, w) =~= whole);
        assert(t.subrange(w, w) =~= frac);
        assert(whole + frac =~= whole);
    }
}


proof fn lemma_space_end_stop(s: Seq<char>, i: int)
    requires
        0 <= i <= s.len(),
        i == s.len() || !is_space(s[i]),
    ensures
        space_end(s, i) == i,
{
}

/// What a written size `n unit` comes to.
proof fn lemma_outcome_written(n: Seq<char>, unit: Seq<char>, digits: Seq<u8>, fraction: nat)
    requires
        n.len() >= 1,
        forall|i: int| 0 <= i < n.len() ==> !is_space(n[i]),
        unit.len() >= 1,
        forall|i: int| 0 <= i < unit.len() ==> !is_space(unit[i]),
        read_number(n) == (NumberText::Decimal { negative: false, digits, fraction, exponent: 0 }),
        unit_bytes(unit) is Some,
    ensures
        ({
            let f = unit_bytes(unit)->0;
            let x = 0 - fraction;
            size_input_outcome(n + " "@ + unit) == if value_at_least(digits, x, float_overflow()) {
                Err::<Option<u64>, SizeInputError>(SizeInputError::NotFiniteOrNegative)
            } else {
                match units_to_bytes(digits, x, f) {
                    None => Err::<Option<u64>, SizeInputError>(SizeInputError::TooLarge),
                    Some(b) => Ok::<Option<u64>, SizeInputError>(Some(b)),
                }
            }
        }),
{
    reveal_strlit(" ");
    let s = n + " "@ + unit;
    let a = n.len() as int;
    assert(s[a] == ' ');
    lemma_space_end_stop(s, 0);
    lemma_word_end_run(s, 0, a);
    assert(s.subrange(0, a) =~= n);
    assert(space_end(s, a) == space_end(s, a + 1));
    lemma_space_end_stop(s, a + 1);
    lemma_word_end_run(s, a + 1, s.len() as int);
    lemma_space_end_stop(s, s.len() as int);
    assert(s.subrange(a + 1, s.len() as int) =~= unit);
}

proof fn lemma_unit_names(k: nat)
    requires
        k < 4,
    ensures
        unit_bytes(unit_name(k)) == Some(unit_factor(k)),
        unit_name(k).len() >= 1,
        forall|i: int| 0 <= i < unit_name(k).len() ==> !is_space(#[trigger] unit_name(k)[i]),
        unit_bytes("B"@) == Some(1nat),
        "B"@.len() >= 1,
        forall|i: int| 0 <= i < "B"@.len() ==> !is_space(#[trigger] "B"@[i]),
{
    reveal_strlit("B");
    reveal_strlit("BYTE");
    reveal_strlit("BYTES");
    reveal_strlit("K");
    reveal_strlit("KB");
    reveal_strlit("KIB");
    reveal_strlit("M");
    reveal_strlit("MB");
    reveal_strlit("MIB");
    reveal_strlit("G");
    reveal_strlit("GB");
    reveal_strlit("GIB");
    reveal_strlit("T");
    reveal_strlit("TB");
    reveal_strlit("TIB");
    let u = unit_name(k);
    assert(!upper_matches(u, "B"@));
    assert(!upper_matches(u, "BYTE"@));
    assert(!upper_matches(u, "BYTES"@));
    assert(!upper_matches(u, "K"@));
    assert(!upper_matches(u, "KIB"@));
    assert(!upper_matches(u, "M"@));
    assert(!upper_matches(u, "MIB"@));
    assert(!upper_matches(u, "G"@));
    assert(!upper_matches(u, "GIB"@));
    assert(!upper_matches(u, "T"@));
    assert(!upper_matches(u, "TIB"@));
    if k == 0 {
        assert(upper_code(u[0]) != "KB"@[0] as u32);
        assert(upper_code(u[0]) != "MB"@[0] as u32);
        assert(upper_code(u[0]) != "GB"@[0] as u32);
        assert(upper_matches(u, "TB"@));
    } else if k == 1 {
        assert(upper_code(u[0]) != "KB"@[0] as u32);
        assert(upper_code(u[0]) != "MB"@[0] as u32);
        assert(upper_matches(u, "GB"@));
    } else if k == 2 {
        assert(upper_code(u[0]) != "KB"@[0] as u32);
        assert(upper_matches(u, "MB"@));
    } else {
        assert(upper_matches(u, "KB"@));
    }
    assert(upper_matches("B"@, "B"@));
}

proof fn lemma_size_choice(bytes: nat, c: nat)
    ensures
        size_choice(bytes, c) matches Some((k, j)) ==> k < 4 && j < 4 && (bytes * denominator(j))
            % unit_factor(k) == 0,
    decreases 16 - c,
{
    if c < 16 && (bytes * denominator(c % 4)) % unit_factor(c / 4) != 0 {
        lemma_size_choice(bytes, c + 1);
    }
}

proof fn lemma_trim_stop(x: Seq<char>)
    requires
        x.len() > 0,
        x.last() != '0',
    ensures
        trim_zeros(x) == x,
{
}

proof fn lemma_trim_pop(x: Seq<char>)
    requires
        x.len() > 0,
        x.last() == '0',
    ensures
        trim_zeros(x) == trim_zeros(x.drop_last()),
{
}

proof fn lemma_digit_char_zero(d: int)
    requires
        0 <= d <= 9,
    ensures
        (digit_char(d) == '0') == (d == 0),
{
}

/// `m / d` in three decimals is the whole part, a point and the fraction
/// digits up to the last that is not zero.
proof fn lemma_three_decimals(m: nat, d: nat) -> (r: (bool, Seq<char>))
    requires
        d == 2 || d == 4 || d == 8,
    ensures
        three_decimals(m, d) == numeral(decimal_chars(m / d), r.0, r.1),
        all_digit_chars(r.1),
        r.0,
        r.1.len() <= 3,
        digits_value(digit_values(r.1)) * pow10((3 - r.1.len()) as nat) * d == (m % d) * 1000,
{
    let w = decimal_chars(m / d);
    let frac = (m % d) * 1000 / d;
    assert((m % d) * 1000 % d == 0) by {
        if d == 2 {
            assert((m % 2) * 1000 == 2 * ((m % 2) * 500));
        } else if d == 4 {
            assert((m % 4) * 1000 == 4 * ((m % 4) * 250));
        } else {
            assert((m % 8) * 1000 == 8 * ((m % 8) * 125));
        }
    }
    assert(frac * d == (m % d) * 1000) by (nonlinear_arith)
        requires
            (m % d) * 1000 % d == 0,
            frac == (m % d) * 1000 / d,
            d > 0,
    ;
    assert(frac < 1000) by (nonlinear_arith)
        requires
            frac * d == (m % d) * 1000,
            m % d < d,
            d > 0,
    ;
    let a = (frac / 100) as int;
    let b = ((frac / 10) % 10) as int;
    let c = (frac % 10) as int;
    assert(frac == 100 * a + 10 * b + c);
    lemma_digit_char(a);
    lemma_digit_char(b);
    lemma_digit_char(c);
    lemma_digit_char_zero(a);
    lemma_digit_char_zero(b);
    lemma_digit_char_zero(c);
    let ca = digit_char(a);
    let cb = digit_char(b);
    let cc = digit_char(c);
    let x3 = w + seq!['.'] + seq![ca, cb, cc];
    let x2 = w + seq!['.'] + seq![ca, cb];
    let x1 = w + seq!['.'] + seq![ca];
    let x0 = w + seq!['.'];
    assert(x3.drop_last() =~= x2);
    assert(x2.drop_last() =~= x1);
    assert(x1.drop_last() =~= x0);
    assert(three_decimals(m, d) == trim_zeros(x3));
    reveal_with_fuel(pow10, 4);
    if c != 0 {
        lemma_trim_stop(x3);
        let f = seq![ca, cb, cc];
        assert(x3 =~= numeral(w, true, f));
        assert(digit_values(f) =~= seq![a as u8, b as u8, c as u8]);
        assert(digit_values(f).drop_last().drop_last().drop_last() =~= Seq::<u8>::empty());
        assert(digits_value(digit_values(f)) == 100 * a + 10 * b + c) by {
            reveal_with_fuel(digits_value, 4);
        }
        let v = digits_value(digit_values(f));
        assert(v * pow10(0) * d == (m % d) * 1000) by (nonlinear_arith)
            requires
                v == frac,
                pow10(0) == 1,
                frac * d == (m % d) * 1000,
        ;
        (true, f)
    } else if b != 0 {
        lemma_trim_pop(x3);
        lemma_trim_stop(x2);
        let f = seq![ca, cb];
        assert(x2 =~= numeral(w, true, f));
        assert(digit_values(f) =~= seq![a as u8, b as u8]);
        assert(digit_values(f).drop_last().drop_last() =~= Seq::<u8>::empty());
        assert(digits_value(digit_values(f)) == 10 * a + b) by {
            reveal_with_fuel(digits_value, 3);
        }
        let v = digits_value(digit_values(f));
        assert(v * pow10(1) * d == (m % d) * 1000) by (nonlinear_arith)
            requires
                v * 10 == frac,
                pow10(1) == 10,
                frac * d == (m % d) * 1000,
        ;
        (true, f)
    } else if a != 0 {
        lemma_trim_pop(x3);
        lemma_trim_pop(x2);
        lemma_trim_stop(x1);
        let f = seq![ca];
        assert(x1 =~= numeral(w, true, f));
        assert(digit_values(f) =~= seq![a as u8]);
        assert(digit_values(f).drop_last() =~= Seq::<u8>::empty());
        assert(digits_value(digit_values(f)) == a) by {
            reveal_with_fuel(digits_value, 2);
        }
        let v = digits_value(digit_values(f));
        assert(v * pow10(2) * d == (m % d) * 1000) by (nonlinear_arith)
            requires
                v * 100 == frac,
                pow10(2) == 100,
                frac * d == (m % d) * 1000,
        ;
        (true, f)
    } else {
        lemma_trim_pop(x3);
        lemma_trim_pop(x2);
        lemma_trim_pop(x1);
        lemma_trim_stop(x0);
        let f = Seq::<char>::empty();
        assert(x0 =~= numeral(w, true, f));
        assert(digit_values(f) =~= Seq::<u8>::empty());
        assert(digits_value(digit_values(f)) == 0);
        assert(0 * pow10(3) * d == (m % d) * 1000) by (nonlinear_arith)
            requires
                frac == 0,
                frac * d == (m % d) * 1000,
        ;
        (true, f)
    }
}


proof fn lemma_float_of_small(n: nat)
    requires
        n < 0x20_0000_0000_0000,
    ensures
        float_of(n) == n,
{
    assert(float_scale(n) == 1);
}

proof fn lemma_digit_values_concat(a: Seq<char>, b: Seq<char>)
    ensures
        digit_values(a + b) == digit_values(a) + digit_values(b),
{
    assert(digit_values(a + b) =~= digit_values(a) + digit_values(b));
}

proof fn lemma_numeral_unspaced(whole: Seq<char>, point: bool, frac: Seq<char>)
    requires
        all_digit_chars(whole),
        all_digit_chars(frac),
    ensures
        forall|i: int|
            0 <= i < numeral(whole, point, frac).len() ==> !is_space(
                #[trigger] numeral(whole, point, frac)[i],
            ),
{
    let t = numeral(whole, point, frac);
    assert forall|i: int| 0 <= i < t.len() implies !is_space(#[trigger] t[i]) by {
        if i < whole.len() {
            assert(t[i] == whole[i]);
        } else if point && i == whole.len() {
            assert(t[i] == '.');
        } else {
            assert(point);
            assert(t[i] == frac[i - whole.len() - 1]);
        }
    }
}

/// A size is written exactly when the number in its text is: a whole
/// number of units, or a fraction whose count of halves, quarters or eighths
/// is below 2^53, so that the 64-bit float it is printed through holds it.
pub open spec fn written_exactly(bytes: nat) -> bool {
    match size_choice(bytes, 0) {
        Some((k, j)) => j == 0 || bytes * denominator(j) / unit_factor(k) < 0x20_0000_0000_0000,
        None => true,
    }
}

/// A count of bytes that a 64-bit float holds, written exactly, reads as
/// itself.
proof fn lemma_units_exact(d: Seq<u8>, x: int, f: nat, b: nat)
    requires
        f >= 1,
        b < two_to_64(),
        fits_double(b),
        x >= 0 ==> digits_value(d) * pow10(x as nat) * f == b,
        x < 0 ==> digits_value(d) * f == b * pow10((-x) as nat),
    ensures
        units_to_bytes(d, x, f) == Some(b as u64),
        !value_at_least(d, x, float_overflow()),
{
    lemma_two_pow_values();
    lemma_two_pow_monotone(64, 970);
    lemma_two_pow_add(54, 10);
    lemma_two_pow_add(64, 0);
    assert(two_pow(64) == 0x1_0000_0000_0000_0000nat) by {
        lemma_two_pow_add(54, 10);
        assert(two_pow(10) == 1024) by {
            reveal_with_fuel(two_pow, 11);
        }
    }
    assert(float_overflow() >= two_pow(970)) by (nonlinear_arith)
        requires
            float_overflow() == (two_pow(54) - 1) as nat * two_pow(970),
            (two_pow(54) - 1) as nat >= 1,
    ;
    if x >= 0 {
        lemma_pow10_positive(x as nat);
        assert(digits_value(d) * pow10(x as nat) <= b) by (nonlinear_arith)
            requires
                digits_value(d) * pow10(x as nat) * f == b,
                f >= 1,
        ;
    } else {
        lemma_pow10_positive((-x) as nat);
        assert(digits_value(d) < float_overflow() * pow10((-x) as nat)) by (nonlinear_arith)
            requires
                digits_value(d) * f == b * pow10((-x) as nat),
                f >= 1,
                b < float_overflow(),
                pow10((-x) as nat) >= 1,
        ;
    }
    let s55 = two_pow(55);
    let m = f * s55;
    let big = b * s55;
    let v = digits_value(d);
    if x >= 0 {
        assert(v * pow10(x as nat) * m == big) by (nonlinear_arith)
            requires
                v * pow10(x as nat) * f == b,
                m == f * s55,
                big == b * s55,
        ;
    } else {
        let pn = pow10((-x) as nat);
        lemma_pow10_positive((-x) as nat);
        assert(v * m == big * pn) by (nonlinear_arith)
            requires
                v * f == b * pn,
                m == f * s55,
                big == b * s55,
        ;
        lemma_fundamental_div_mod_converse((v * m) as int, pn as int, big as int, 0);
    }
    assert(scaled_floor(d, x, m) == big);
    assert(scaled_whole(d, x, m));
    assert(big < two_pow(119)) by (nonlinear_arith)
        requires
            b < 0x1_0000_0000_0000_0000nat,
            big == b * s55,
            s55 == 0x80_0000_0000_0000nat,
            two_pow(119) == 0x80_0000_0000_0000_0000_0000_0000_0000nat,
    ;
    if b == 0 {
        assert(big == 0) by (nonlinear_arith)
            requires
                b == 0,
                big == b * s55,
        ;
    } else {
        assert(big >= two_pow(54)) by (nonlinear_arith)
            requires
                b >= 1,
                big == b * s55,
                s55 == 0x80_0000_0000_0000nat,
                two_pow(54) == 0x40_0000_0000_0000nat,
        ;
        lemma_bit_len(b);
        lemma_bit_len_shift(b, 55);
        let bl = bit_len(b);
        assert(bit_len(big) == bl + 55);
        let g = (bl + 2) as nat;
        assert((bit_len(big) - 53) as nat == g);
        let unit = two_pow(g);
        let q0: nat;
        if bl <= 53 {
            q0 = b * two_pow((53 - bl) as nat);
            lemma_two_pow_add((53 - bl) as nat, g);
            assert(((53 - bl) as nat + g) as nat == 55);
            assert(big == q0 * unit) by (nonlinear_arith)
                requires
                    big == b * s55,
                    s55 == two_pow((53 - bl) as nat) * unit,
                    q0 == b * two_pow((53 - bl) as nat),
            ;
        } else {
            let h = (bl - 53) as nat;
            lemma_two_pow_positive(h);
            q0 = b / two_pow(h);
            lemma_fundamental_div_mod(b as int, two_pow(h) as int);
            assert(b == two_pow(h) * q0);
            lemma_two_pow_add(h, 55);
            assert((h + 55) as nat == g);
            assert(big == q0 * unit) by (nonlinear_arith)
                requires
                    big == b * s55,
                    b == two_pow(h) * q0,
                    unit == two_pow(h) * s55,
            ;
        }
        lemma_two_pow_positive(g);
        lemma_fundamental_div_mod_converse(big as int, unit as int, q0 as int, 0);
        assert(unit >= 4) by {
            lemma_two_pow_monotone(2, g);
            reveal_with_fuel(two_pow, 3);
        }
        assert(float_scaled(big, true) == big);
        assert(big / s55 == b) by {
            lemma_fundamental_div_mod_converse(big as int, s55 as int, b as int, 0);
        }
    }
}

/// Reading back a size written in whole units.
proof fn lemma_whole_units_read_back(b: nat, num: nat, f: nat, unit: Seq<char>)
    requires
        b < two_to_64(),
        fits_double(b),
        num * f == b,
        unit_bytes(unit) == Some(f),
        unit.len() >= 1,
        forall|i: int| 0 <= i < unit.len() ==> !is_space(#[trigger] unit[i]),
    ensures
        size_input_outcome(decimal_chars(num) + " "@ + unit) == Ok::<Option<u64>, SizeInputError>(
            Some(b as u64),
        ),
{
    let d = decimal_chars(num);
    lemma_decimal_chars(num);
    lemma_read_numeral(d, false, Seq::empty());
    assert(d + Seq::<char>::empty() =~= d);
    assert(numeral(d, false, Seq::empty()) == d);
    lemma_numeral_unspaced(d, false, Seq::empty());
    lemma_outcome_written(d, unit, digit_values(d), 0);
    assert(pow10(0) == 1);
    assert(num * pow10(0) * f == b) by (nonlinear_arith)
        requires
            num * f == b,
            pow10(0) == 1,
    ;
    lemma_units_exact(digit_values(d), 0, f, b);
}

/// Reading back a size written as a fraction of a unit.
proof fn lemma_fraction_read_back(b: nat, num: nat, den: nat, f: nat, unit: Seq<char>)
    requires
        b < two_to_64(),
        fits_double(b),
        den == 2 || den == 4 || den == 8,
        num * f == b * den,
        unit_bytes(unit) == Some(f),
        unit.len() >= 1,
        forall|i: int| 0 <= i < unit.len() ==> !is_space(#[trigger] unit[i]),
    ensures
        size_input_outcome(three_decimals(num, den) + " "@ + unit) == Ok::<
            Option<u64>,
            SizeInputError,
        >(Some(b as u64)),
{
    let (point, fr) = lemma_three_decimals(num, den);
    let w = num / den;
    let rem = num % den;
    let wd = decimal_chars(w);
    lemma_decimal_chars(w);
    lemma_read_numeral(wd, point, fr);
    lemma_numeral_unspaced(wd, point, fr);
    let digits = digit_values(wd + fr);
    let q = fr.len();
    lemma_outcome_written(numeral(wd, point, fr), unit, digits, q);
    lemma_digit_values_concat(wd, fr);
    lemma_value_concat(digit_values(wd), digit_values(fr));
    let v = digits_value(digits);
    let vf = digits_value(digit_values(fr));
    let pq = pow10(q);
    let pr = pow10((3 - q) as nat);
    lemma_pow10_add(q, (3 - q) as nat);
    assert((q + (3 - q) as nat) as nat == 3);
    assert(pow10(3) == 1000) by {
        reveal_with_fuel(pow10, 4);
    }
    assert(pq * pr == 1000);
    assert(v == w * pq + vf);
    assert(vf * pr * den == rem * 1000);
    lemma_fundamental_div_mod(num as int, den as int);
    assert(num == den * w + rem);
    assert(w * den == den * w) by (nonlinear_arith);
    assert(v * f * pr * den == (w * (pq * pr) * den + vf * pr * den) * f) by (nonlinear_arith)
        requires
            v == w * pq + vf,
    ;
    assert((w * (pq * pr) * den + vf * pr * den) * f == 1000 * (w * den + rem) * f) by (nonlinear_arith)
        requires
            vf * pr * den == rem * 1000,
            pq * pr == 1000,
    ;
    assert(1000 * (w * den + rem) * f == 1000 * (num * f)) by (nonlinear_arith)
        requires
            num == w * den + rem,
    ;
    assert(1000 * (num * f) == b * (pq * pr) * den) by (nonlinear_arith)
        requires
            num * f == b * den,
            pq * pr == 1000,
    ;
    assert(b * (pq * pr) * den == b * pq * pr * den) by (nonlinear_arith);
    lemma_pow10_positive((3 - q) as nat);
    lemma_pow10_positive(q);
    assert(v * f == b * pq) by (nonlinear_arith)
        requires
            v * f * pr * den == b * pq * pr * den,
            pr >= 1,
            den >= 2,
    ;
    if q == 0 {
        assert(pq == 1);
        assert(v * pow10(0) * f == b) by (nonlinear_arith)
            requires
                v * f == b * pq,
                pq == 1,
                pow10(0) == 1,
        ;
        lemma_units_exact(digits, 0, f, b);
    } else {
        lemma_units_exact(digits, 0 - q, f, b);
    }
}

/// A size written back into a size field reads back as the same size, when
/// the number in the text is exact (see [`written_exactly`]) and a 64-bit
/// float holds the size (see [`fits_double`]); beyond that, a count of
/// eighths of a kilobyte above 2^53 is rounded where it is printed, and a
/// size with more than 53 significant binary digits where it is read.
pub proof fn law_written_size_reads_back(bytes: u64)
    requires
        written_exactly(bytes as nat),
        fits_double(bytes as nat),
    ensures
        size_input_outcome(size_text(bytes as nat)) == Ok::<Option<u64>, SizeInputError>(
            Some(bytes),
        ),
{
    let b = bytes as nat;
    lemma_size_choice(b, 0);
    reveal_strlit(" B");
    reveal_strlit(" ");
    reveal_strlit("B");
    match size_choice(b, 0) {
        None => {
            lemma_unit_names(0);
            assert(size_text(b) =~= decimal_chars(b) + " "@ + "B"@);
            lemma_whole_units_read_back(b, b, 1, "B"@);
        },
        Some((k, j)) => {
            lemma_unit_names(k);
            let den = denominator(j);
            let f = unit_factor(k);
            let num = b * den / f;
            assert(num * f == b * den) by (nonlinear_arith)
                requires
                    (b * den) % f == 0,
                    num == b * den / f,
                    f > 0,
            ;
            if j == 0 {
                assert(num * f == b);
                lemma_whole_units_read_back(b, num, f, unit_name(k));
            } else {
                lemma_float_of_small(num);
                lemma_fraction_read_back(b, num, den, f, unit_name(k));
            }
        },
    }
}

} // verus!
