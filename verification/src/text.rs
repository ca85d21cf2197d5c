//! Text helpers.
use crate::models::{DuplicateFile, Timestamp};
use crate::storage::ScanStatus;
use vstd::prelude::*;

verus! {

/// The characters of a string.
pub fn chars_of(s: &str) -> (r: Vec<char>)
    ensures
        r@ == s@,
{
    let mut out: Vec<char> = Vec::new();
    for c in it: s.chars()
        invariant
            out@.len() == it.index(),
            forall|i: int| 0 <= i < out@.len() ==> out@[i] == it.seq()[i],
            it.seq() == s@,
    {
        out.push(c);
    }
    assert(out@ =~= s@);
    out
}

/// Whether the characters `a` spell the string `b`.
pub fn chars_equal(a: &[char], b: &str) -> (r: bool)
    ensures
        r == (a@ == b@),
{
    let bv = chars_of(b);
    if a.len() != bv.len() {
        return false;
    }
    let mut i: usize = 0;
    while i < a.len()
        invariant
            a@.len() == bv@.len(),
            bv@ == b@,
            0 <= i <= a@.len(),
            forall|j: int| 0 <= j < i ==> a@[j] == bv@[j],
        decreases a@.len() - i,
    {
        if a[i] != bv[i] {
            return false;
        }
        i = i + 1;
    }
    assert(a@ =~= bv@);
    true
}

/// The character of a decimal digit.
pub open spec fn digit_char(d: int) -> char {
    if d == 0 {
        '0'
    } else if d == 1 {
        '1'
    } else if d == 2 {
        '2'
    } else if d == 3 {
        '3'
    } else if d == 4 {
        '4'
    } else if d == 5 {
        '5'
    } else if d == 6 {
        '6'
    } else if d == 7 {
        '7'
    } else if d == 8 {
        '8'
    } else {
        '9'
    }
}

/// The decimal digits of `n`, without leading zeros.
pub open spec fn decimal_chars(n: nat) -> Seq<char>
    decreases n,
{
    if n < 10 {
        seq![digit_char(n as int)]
    } else {
        decimal_chars(n / 10).push(digit_char((n % 10) as int))
    }
}

/// The one-character string of a decimal digit.
fn digit_str(d: u8) -> (r: &'static str)
    requires
        d < 10,
    ensures
        r@ == seq![digit_char(d as int)],
{
    proof {
        reveal_strlit("0");
        reveal_strlit("1");
        reveal_strlit("2");
        reveal_strlit("3");
        reveal_strlit("4");
        reveal_strlit("5");
        reveal_strlit("6");
        reveal_strlit("7");
        reveal_strlit("8");
        reveal_strlit("9");
    }
    if d == 0 {
        "0"
    } else if d == 1 {
        "1"
    } else if d == 2 {
        "2"
    } else if d == 3 {
        "3"
    } else if d == 4 {
        "4"
    } else if d == 5 {
        "5"
    } else if d == 6 {
        "6"
    } else if d == 7 {
        "7"
    } else if d == 8 {
        "8"
    } else {
        "9"
    }
}

/// Appends the decimal digits of `n`.
pub fn push_decimal(out: &mut String, n: u128)
    ensures
        final(out)@ == old(out)@ + decimal_chars(n as nat),
    decreases n,
{
    if n >= 10 {
        push_decimal(out, n / 10);
    }
    let d = (n % 10) as u8;
    out.append(digit_str(d));
    assert(n < 10 ==> decimal_chars(n as nat) == seq![digit_char(n as int)]);
}

/// The decimal text of `n`.
pub fn decimal(n: u64) -> (r: String)
    ensures
        r@ == decimal_chars(n as nat),
{
    let mut out = String::new();
    push_decimal(&mut out, n as u128);
    assert(out@ =~= decimal_chars(n as nat));
    out
}

/// The scale at which a whole number is held in a 64-bit float: one while
/// it fits the 53-bit significand, else the power of two that brings it
/// into that range.
pub open spec fn float_scale(n: nat) -> nat
    decreases n,
{
    if n < 0x20_0000_0000_0000 {
        1
    } else {
        2 * float_scale(n / 2)
    }
}

/// The whole number `n` converted to a 64-bit float: rounded to the
/// nearest multiple of its scale, ties to an even multiple.
pub open spec fn float_of(n: nat) -> nat {
    let p = float_scale(n);
    let q = n / p;
    let r = n % p;
    if p > 1 && (r > p / 2 || (r == p / 2 && q % 2 == 1)) {
        (q + 1) * p
    } else {
        q * p
    }
}

proof fn lemma_float_scale(n: nat)
    ensures
        1 <= float_scale(n) <= n + 1,
        n >= 1 ==> float_scale(n) <= n,
    decreases n,
{
    if n >= 0x20_0000_0000_0000 {
        lemma_float_scale(n / 2);
    }
}

fn float_scale_of(n: u64) -> (p: u128)
    ensures
        p == float_scale(n as nat),
        1 <= p <= n + 1,
    decreases n,
{
    proof {
        lemma_float_scale(n as nat);
    }
    if n < 0x20_0000_0000_0000 {
        1
    } else {
        2 * float_scale_of(n / 2)
    }
}

/// `n` as a 64-bit float holds it (see [`float_of`]).
fn float_value(n: u64) -> (r: u128)
    ensures
        r == float_of(n as nat),
        r <= 2 * n + 1,
{
    let p = float_scale_of(n);
    let q = n as u128 / p;
    let rem = n as u128 % p;
    proof {
        vstd::arithmetic::div_mod::lemma_fundamental_div_mod(n as int, p as int);
        assert(q * p <= n) by (nonlinear_arith)
            requires
                p * q + rem == n,
                0 <= rem,
        ;
    }
    if p > 1 && (rem > p / 2 || (rem == p / 2 && q % 2 == 1)) {
        assert((q + 1) * p == q * p + p) by (nonlinear_arith);
        (q + 1) * p
    } else {
        q * p
    }
}

/// `s` without its trailing `0` characters.
pub open spec fn trim_zeros(s: Seq<char>) -> Seq<char>
    decreases s.len(),
{
    if s.len() > 0 && s.last() == '0' {
        trim_zeros(s.drop_last())
    } else {
        s
    }
}

/// `m / d` written with three decimals (exact for `d` of 2, 4 or 8), with
/// trailing zeros removed.
pub open spec fn three_decimals(m: nat, d: nat) -> Seq<char> {
    let whole = m / d;
    let frac = (m % d) * 1000 / d;
    trim_zeros(
        decimal_chars(whole) + seq!['.'] + seq![
            digit_char((frac / 100) as int),
            digit_char(((frac / 10) % 10) as int),
            digit_char((frac % 10) as int),
        ],
    )
}

/// The size units, largest first: TB, GB, MB, KB.
pub open spec fn unit_factor(k: nat) -> nat {
    if k == 0 {
        0x100_0000_0000
    } else if k == 1 {
        0x4000_0000
    } else if k == 2 {
        0x10_0000
    } else {
        0x400
    }
}

pub open spec fn unit_name(k: nat) -> Seq<char> {
    if k == 0 {
        "TB"@
    } else if k == 1 {
        "GB"@
    } else if k == 2 {
        "MB"@
    } else {
        "KB"@
    }
}

/// The denominators tried for each unit: whole, halves, quarters, eighths.
pub open spec fn denominator(j: nat) -> nat {
    if j == 0 {
        1
    } else if j == 1 {
        2
    } else if j == 2 {
        4
    } else {
        8
    }
}

/// The first unit and denominator, in order, in which `bytes` is a whole
/// number of units divided by the denominator.
pub open spec fn size_choice(bytes: nat, c: nat) -> Option<(nat, nat)>
    decreases 16 - c,
{
    if c >= 16 {
        None
    } else if (bytes * denominator(c % 4)) % unit_factor(c / 4) == 0 {
        Some((c / 4, c % 4))
    } else {
        size_choice(bytes, c + 1)
    }
}

/// The text a size is written back as: in the largest unit in which it is
/// a whole number of halves, quarters or eighths, else in bytes. A
/// fraction is computed as the 64-bit float division prints it.
pub open spec fn size_text(bytes: nat) -> Seq<char> {
    match size_choice(bytes, 0) {
        None => decimal_chars(bytes) + " B"@,
        Some((k, j)) => {
            let num = bytes * denominator(j) / unit_factor(k);
            if j == 0 {
                decimal_chars(num) + " "@ + unit_name(k)
            } else {
                three_decimals(float_of(num), denominator(j)) + " "@ + unit_name(k)
            }
        },
    }
}

fn unit_str(k: u8) -> (r: &'static str)
    requires
        k < 4,
    ensures
        r@ == unit_name(k as nat),
{
    if k == 0 {
        "TB"
    } else if k == 1 {
        "GB"
    } else if k == 2 {
        "MB"
    } else {
        "KB"
    }
}

/// Writes `s` without its trailing zeros.
fn push_trimmed(out: &mut String, s: &[char])
    ensures
        final(out)@ == old(out)@ + trim_zeros(s@),
{
    let mut end = s.len();
    assert(s@.take(s@.len() as int) =~= s@);
    while end > 0 && s[end - 1] == '0'
        invariant
            0 <= end <= s@.len(),
            trim_zeros(s@) == trim_zeros(s@.take(end as int)),
        decreases end,
    {
        assert(s@.take(end as int).drop_last() =~= s@.take(end - 1));
        end = end - 1;
    }
    assert(trim_zeros(s@.take(end as int)) == s@.take(end as int));
    let mut i: usize = 0;
    while i < end
        invariant
            0 <= i <= end <= s@.len(),
            out@ == old(out)@ + s@.take(i as int),
        decreases end - i,
    {
        push_char(out, s[i]);
        assert(s@.take(i + 1) =~= s@.take(i as int).push(s@[i as int]));
        i = i + 1;
    }
}

/// Appends the characters `s`.
pub(crate) fn push_chars(out: &mut String, s: &[char])
    ensures
        final(out)@ == old(out)@ + s@,
{
    let mut i: usize = 0;
    while i < s.len()
        invariant
            0 <= i <= s@.len(),
            out@ == old(out)@ + s@.take(i as int),
        decreases s@.len() - i,
    {
        push_char(out, s[i]);
        assert(s@.take(i + 1) =~= s@.take(i as int).push(s@[i as int]));
        i = i + 1;
    }
    assert(s@.take(s@.len() as int) =~= s@);
}

/// Calls `String::push`, which appends the character to the string: the
/// contract states that the string's characters gain `c` at the end.
#[verifier::external_body]
fn push_char(out: &mut String, c: char)
    ensures
        final(out)@ == old(out)@.push(c),
{
    out.push(c);
}

fn unit_factor_of(k: u8) -> (r: u128)
    requires
        k < 4,
    ensures
        r == unit_factor(k as nat),
{
    if k == 0 {
        0x100_0000_0000
    } else if k == 1 {
        0x4000_0000
    } else if k == 2 {
        0x10_0000
    } else {
        0x400
    }
}

fn denominator_of(j: u8) -> (r: u128)
    requires
        j < 4,
    ensures
        r == denominator(j as nat),
{
    if j == 0 {
        1
    } else if j == 1 {
        2
    } else if j == 2 {
        4
    } else {
        8
    }
}

/// Writes `m / d` with three decimals and trailing zeros removed.
fn push_three_decimals(out: &mut String, m: u128, d: u128)
    requires
        d == 2 || d == 4 || d == 8,
    ensures
        final(out)@ == old(out)@ + three_decimals(m as nat, d as nat),
{
    let whole = m / d;
    let frac = (m % d) * 1000 / d;
    assert(frac < 1000) by (nonlinear_arith)
        requires
            frac == ((m % d) * 1000) as int / (d as int),
            m % d < d,
            d > 0,
    ;
    let mut text = String::new();
    push_decimal(&mut text, whole);
    text.append(".");
    text.append(digit_str((frac / 100) as u8));
    text.append(digit_str(((frac / 10) % 10) as u8));
    text.append(digit_str((frac % 10) as u8));
    proof {
        reveal_strlit(".");
    }
    let chars = chars_of(text.as_str());
    assert(chars@ =~= decimal_chars(whole as nat) + seq!['.'] + seq![
        digit_char((frac / 100) as int),
        digit_char(((frac / 10) % 10) as int),
        digit_char((frac % 10) as int),
    ]);
    push_trimmed(out, chars.as_slice());
}

/// The text a size in bytes is written back as in a size field, such that
/// reading it back gives the same size: `1 MB`, `2.5 GB`, `1.25 MB`,
/// `1023 B`.
pub fn size_input_value(bytes: u64) -> (r: String)
    ensures
        r@ == size_text(bytes as nat),
{
    let mut c: u8 = 0;
    while c < 16
        invariant
            0 <= c <= 16,
            size_choice(bytes as nat, 0) == size_choice(bytes as nat, c as nat),
        decreases 16 - c,
    {
        let k = c / 4;
        let j = c % 4;
        let factor = unit_factor_of(k);
        let den = denominator_of(j);
        let scaled = bytes as u128 * den;
        if scaled % factor == 0 {
            let num = scaled / factor;
            assert(num < 0x1_0000_0000_0000_0000) by (nonlinear_arith)
                requires
                    num == scaled as int / factor as int,
                    scaled == bytes * den,
                    den <= 8,
                    factor >= 0x400,
                    bytes < 0x1_0000_0000_0000_0000,
            ;
            let mut out = String::new();
            if j == 0 {
                push_decimal(&mut out, num);
            } else {
                let m = float_value(num as u64);
                push_three_decimals(&mut out, m, den);
            }
            out.append(" ");
            out.append(unit_str(k));
            return out;
        }
        c = c + 1;
    }
    let mut out = String::new();
    push_decimal(&mut out, bytes as u128);
    out.append(" B");
    out
}

/// 1024 to the power `i`, for `i` up to 4.
pub open spec fn kib_power(i: nat) -> nat {
    if i == 0 {
        1
    } else if i == 1 {
        0x400
    } else if i == 2 {
        0x10_0000
    } else if i == 3 {
        0x4000_0000
    } else {
        0x100_0000_0000
    }
}

/// How many times a size is divided by 1024 for display: while it is at
/// least 1024, up to four times.
pub open spec fn label_steps(m: nat, i: nat) -> nat
    decreases 4 - i,
{
    if i < 4 && m >= kib_power(i + 1) {
        label_steps(m, i + 1)
    } else {
        i
    }
}

/// `m / d` in tenths, rounded to the nearest, ties to even.
pub open spec fn rounded_tenths(m: nat, d: nat) -> nat {
    let q = m * 10 / d;
    let r = m * 10 % d;
    if 2 * r > d || (2 * r == d && q % 2 == 1) {
        q + 1
    } else {
        q
    }
}

pub open spec fn label_unit(i: nat) -> Seq<char> {
    if i == 1 {
        "KB"@
    } else if i == 2 {
        "MB"@
    } else if i == 3 {
        "GB"@
    } else {
        "TB"@
    }
}

/// The display text of a size: bytes below 1 KB, else the size as a 64-bit
/// float in the largest unit up to TB that keeps it at least 1, with one
/// decimal.
pub open spec fn bytes_text(bytes: nat) -> Seq<char> {
    let m = float_of(bytes);
    let i = label_steps(m, 0);
    if i == 0 {
        decimal_chars(bytes) + " B"@
    } else {
        let t = rounded_tenths(m, kib_power(i));
        decimal_chars(t / 10) + "."@ + seq![digit_char((t % 10) as int)] + " "@ + label_unit(i)
    }
}

/// Whether `t` ends with `suffix`.
pub open spec fn ends_with(t: Seq<char>, suffix: Seq<char>) -> bool {
    suffix.len() <= t.len() && t.subrange(t.len() - suffix.len(), t.len() as int) == suffix
}

proof fn lemma_float_scale_bound(n: nat)
    requires
        n >= 0x20_0000_0000_0000,
    ensures
        float_scale(n) * 0x10_0000_0000_0000 <= n,
    decreases n,
{
    if n / 2 >= 0x20_0000_0000_0000 {
        lemma_float_scale_bound(n / 2);
    } else {
        assert(float_scale(n / 2) == 1);
    }
}

/// A size of at least 1 TB stays at least 1 TB as a 64-bit float.
proof fn lemma_float_of_large(n: nat)
    requires
        n >= 0x100_0000_0000,
    ensures
        float_of(n) >= 0x100_0000_0000,
{
    if n < 0x20_0000_0000_0000 {
        assert(float_scale(n) == 1);
    } else {
        lemma_float_scale_bound(n);
        lemma_float_scale(n);
        let p = float_scale(n);
        let q = n / p;
        assert(q >= 0x10_0000_0000_0000) by (nonlinear_arith)
            requires
                p * 0x10_0000_0000_0000 <= n,
                p >= 1,
                q == n / p,
        ;
        assert(q * p >= 0x100_0000_0000) by (nonlinear_arith)
            requires
                q >= 0x10_0000_0000_0000,
                p >= 1,
        ;
        assert((q + 1) * p >= q * p) by (nonlinear_arith);
    }
}

proof fn lemma_label_tail(head: Seq<char>, unit: Seq<char>)
    requires
        unit.len() == 2,
    ensures
        ends_with(head + " "@ + unit, " "@ + unit),
{
    reveal_strlit(" ");
    let t = head + " "@ + unit;
    assert(t.subrange(t.len() - 3, t.len() as int) =~= " "@ + unit);
}

/// A size is labelled in the largest unit it reaches: bytes below 1 KB are
/// shown as a whole number of bytes, and a size of at least 1 KB, 1 MB,
/// 1 GB or 1 TB (but below the next unit) is shown in KB, MB, GB or TB.
pub proof fn law_size_label_unit(bytes: u64)
    ensures
        bytes < 0x400 ==> bytes_text(bytes as nat) == decimal_chars(bytes as nat) + " B"@,
        0x400 <= bytes < 0x10_0000 ==> ends_with(bytes_text(bytes as nat), " KB"@),
        0x10_0000 <= bytes < 0x4000_0000 ==> ends_with(bytes_text(bytes as nat), " MB"@),
        0x4000_0000 <= bytes < 0x100_0000_0000 ==> ends_with(bytes_text(bytes as nat), " GB"@),
        0x100_0000_0000 <= bytes ==> ends_with(bytes_text(bytes as nat), " TB"@),
{
    reveal_strlit(" ");
    reveal_strlit("KB");
    reveal_strlit("MB");
    reveal_strlit("GB");
    reveal_strlit("TB");
    reveal_strlit(" KB");
    reveal_strlit(" MB");
    reveal_strlit(" GB");
    reveal_strlit(" TB");
    let b = bytes as nat;
    let m = float_of(b);
    if b < 0x20_0000_0000_0000 {
        assert(float_scale(b) == 1);
        assert(m == b);
    } else {
        lemma_float_of_large(b);
    }
    if b >= 0x100_0000_0000 {
        lemma_float_of_large(b);
    }
    reveal_with_fuel(label_steps, 5);
    let i = label_steps(m, 0);
    if i > 0 {
        let t = rounded_tenths(m, kib_power(i));
        let head = decimal_chars(t / 10) + "."@ + seq![digit_char((t % 10) as int)];
        assert(bytes_text(b) == head + " "@ + label_unit(i));
        lemma_label_tail(head, label_unit(i));
        assert(" "@ + "KB"@ =~= " KB"@);
        assert(" "@ + "MB"@ =~= " MB"@);
        assert(" "@ + "GB"@ =~= " GB"@);
        assert(" "@ + "TB"@ =~= " TB"@);
    }
}

/// The tenths shown for a size are a nearest tenth: `m / d` and the shown
/// number `t / 10` differ by at most half a tenth.
pub proof fn law_shown_tenths_are_nearest(m: nat, d: nat)
    requires
        d > 0,
    ensures
        rounded_tenths(m, d) * d * 2 <= 20 * m + d,
        20 * m <= 2 * (rounded_tenths(m, d) * d) + d,
{
    let q = m * 10 / d;
    let r = m * 10 % d;
    vstd::arithmetic::div_mod::lemma_fundamental_div_mod((m * 10) as int, d as int);
    assert(m * 10 == d * q + r);
    if 2 * r > d || (2 * r == d && q % 2 == 1) {
        assert((q + 1) * d * 2 <= 20 * m + d && 20 * m <= 2 * ((q + 1) * d) + d) by (nonlinear_arith)
            requires
                m * 10 == d * q + r,
                2 * r >= d,
                r < d,
        ;
    } else {
        assert(q * d * 2 <= 20 * m + d && 20 * m <= 2 * (q * d) + d) by (nonlinear_arith)
            requires
                m * 10 == d * q + r,
                2 * r <= d,
        ;
    }
}

fn label_unit_str(i: u8) -> (r: &'static str)
    requires
        1 <= i <= 4,
    ensures
        r@ == label_unit(i as nat),
{
    if i == 1 {
        "KB"
    } else if i == 2 {
        "MB"
    } else if i == 3 {
        "GB"
    } else {
        "TB"
    }
}

fn kib_power_of(i: u8) -> (r: u128)
    requires
        i <= 4,
    ensures
        r == kib_power(i as nat),
{
    if i == 0 {
        1
    } else if i == 1 {
        0x400
    } else if i == 2 {
        0x10_0000
    } else if i == 3 {
        0x4000_0000
    } else {
        0x100_0000_0000
    }
}

/// A size for display: `512 B`, `1.5 KB`, `2.0 GB`.
pub fn bytes_label(bytes: u64) -> (r: String)
    ensures
        r@ == bytes_text(bytes as nat),
{
    let m = float_value(bytes);
    let mut i: u8 = 0;
    while i < 4 && m >= kib_power_of(i + 1)
        invariant
            0 <= i <= 4,
            label_steps(m as nat, 0) == label_steps(m as nat, i as nat),
        decreases 4 - i,
    {
        i = i + 1;
    }
    let mut out = String::new();
    if i == 0 {
        push_decimal(&mut out, bytes as u128);
        out.append(" B");
        return out;
    }
    let d = kib_power_of(i);
    let q = m * 10 / d;
    let rem = m * 10 % d;
    let t = if 2 * rem > d || (2 * rem == d && q % 2 == 1) {
        q + 1
    } else {
        q
    };
    push_decimal(&mut out, t / 10);
    out.append(".");
    out.append(digit_str((t % 10) as u8));
    out.append(" ");
    out.append(label_unit_str(i));
    out
}

/// The label shown for a scan status.
pub open spec fn status_label(status: ScanStatus) -> Seq<char> {
    match status {
        ScanStatus::Running => "Running"@,
        ScanStatus::Completed => "Completed"@,
        ScanStatus::Failed => "Failed"@,
        ScanStatus::Cancelled => "Cancelled"@,
    }
}

pub fn scan_status_label(status: ScanStatus) -> (r: &'static str)
    ensures
        r@ == status_label(status),
{
    match status {
        ScanStatus::Running => "Running",
        ScanStatus::Completed => "Completed",
        ScanStatus::Failed => "Failed",
        ScanStatus::Cancelled => "Cancelled",
    }
}

pub open spec fn nanos_per_second() -> int {
    1_000_000_000
}

/// The display text of a scan time: whole seconds since the epoch, or
/// `Unknown date` for a time before it.
pub open spec fn scan_time_text(time: Timestamp) -> Seq<char> {
    if time.nanos >= 0 {
        decimal_chars(((time.nanos as int) / nanos_per_second()) as nat) + " UTC"@
    } else {
        "Unknown date"@
    }
}

pub fn format_scan_time(time: Timestamp) -> (r: String)
    ensures
        r@ == scan_time_text(time),
{
    if time.nanos >= 0 {
        let mut out = String::new();
        push_decimal(&mut out, (time.nanos / 1_000_000_000) as u128);
        out.append(" UTC");
        out
    } else {
        String::from_str("Unknown date")
    }
}

/// The display text of a file's modification time: whole days since the
/// epoch, or `unknown date` when it is unknown or before the epoch.
pub open spec fn modified_text(modified: Option<Timestamp>) -> Seq<char> {
    match modified {
        Some(t) => if t.nanos >= 0 {
            "Unix + "@ + decimal_chars(((t.nanos as int) / nanos_per_second() / 86_400) as nat) + " days"@
        } else {
            "unknown date"@
        },
        None => "unknown date"@,
    }
}

pub fn modified_label(file: &DuplicateFile) -> (r: String)
    ensures
        r@ == modified_text(file.modified),
{
    match file.modified {
        Some(t) => {
            if t.nanos >= 0 {
                let mut out = String::from_str("Unix + ");
                push_decimal(&mut out, (t.nanos / 1_000_000_000 / 86_400) as u128);
                out.append(" days");
                out
            } else {
                String::from_str("unknown date")
            }
        },
        None => String::from_str("unknown date"),
    }
}

} // verus!
