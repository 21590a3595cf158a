//! Exact decimal arithmetic on numeric value strings.
//!
//! Upstream sample values travel as strings. Derived series reformat them to
//! exactly three decimal places; comparisons subtract and take percentages.
//! All of it is done here in fixed-point milli-units (the value scaled by
//! 1000), so every computation is exact integer arithmetic with a full
//! specification. A string that does not match the plain decimal grammar, or
//! whose integer part does not fit below 10^15, is read as zero: unparsable
//! input never raises an error.

use vstd::prelude::*;

verus! {

// ----------------------------------------------------------------------------
// Digits
// ----------------------------------------------------------------------------

pub open spec fn is_digit_char(c: char) -> bool {
    '0' <= c && c <= '9'
}

pub open spec fn digit_of(c: char) -> int {
    c as int - '0' as int
}

pub open spec fn digit_char(d: int) -> char {
    if d == 0 {
        '0'
    } else if d == 1 {
        '1'
    } else if d == 2 {
        '2'
    } else if d == 3 {
        '3'
    } else if d == 4 {
        '4'
    } else if d == 5 {
        '5'
    } else if d == 6 {
        '6'
    } else if d == 7 {
        '7'
    } else if d == 8 {
        '8'
    } else {
        '9'
    }
}

pub open spec fn all_digits(s: Seq<char>) -> bool {
    forall|i: int| 0 <= i < s.len() ==> is_digit_char(#[trigger] s[i])
}

/// The numeric value of a digit sequence, most significant digit first.
pub open spec fn dec_val(s: Seq<char>) -> int
    decreases s.len(),
{
    if s.len() == 0 {
        0
    } else {
        dec_val(s.drop_last()) * 10 + digit_of(s.last())
    }
}

/// The usual decimal rendering of a non-negative integer, no sign, no
/// leading zeros except for zero itself.
pub open spec fn u_digits(n: nat) -> Seq<char>
    decreases n,
{
    if n < 10 {
        seq![digit_char(n as int)]
    } else {
        u_digits(n / 10).push(digit_char((n % 10) as int))
    }
}

/// The decimal rendering of an integer, `-` prefix when negative.
pub open spec fn int_str(v: int) -> Seq<char> {
    if v < 0 {
        seq!['-'] + u_digits((-v) as nat)
    } else {
        u_digits(v as nat)
    }
}

pub proof fn lemma_dec_val_nonneg(s: Seq<char>)
    requires
        all_digits(s),
    ensures
        dec_val(s) >= 0,
    decreases s.len(),
{
    if s.len() > 0 {
        assert(all_digits(s.drop_last()));
        lemma_dec_val_nonneg(s.drop_last());
    }
}

/// A digit run is worth at least any of its prefixes.
pub proof fn lemma_dec_val_prefix(s: Seq<char>, k: int)
    requires
        all_digits(s),
        0 <= k <= s.len(),
    ensures
        dec_val(s) >= dec_val(s.take(k)),
    decreases s.len() - k,
{
    if k < s.len() {
        let t = s.take(k + 1);
        assert(t.drop_last() =~= s.take(k));
        assert(all_digits(s.take(k)));
        lemma_dec_val_nonneg(s.take(k));
        assert(dec_val(t) == dec_val(s.take(k)) * 10 + digit_of(t.last()));
        lemma_dec_val_prefix(s, k + 1);
    } else {
        assert(s.take(k) =~= s);
    }
}

// ----------------------------------------------------------------------------
// Executable digit helpers
// ----------------------------------------------------------------------------

fn is_digit_exec(c: char) -> (r: bool)
    ensures
        r == is_digit_char(c),
{
    '0' <= c && c <= '9'
}

fn digit_val_exec(c: char) -> (r: u8)
    requires
        is_digit_char(c),
    ensures
        r as int == digit_of(c),
        r < 10,
{
    if c == '0' {
        0
    } else if c == '1' {
        1
    } else if c == '2' {
        2
    } else if c == '3' {
        3
    } else if c == '4' {
        4
    } else if c == '5' {
        5
    } else if c == '6' {
        6
    } else if c == '7' {
        7
    } else if c == '8' {
        8
    } else {
        9
    }
}

fn digit_str(d: u8) -> (r: &'static str)
    requires
        d < 10,
    ensures
        r@ =~= seq![digit_char(d as int)],
{
    proof {
        reveal_strlit("0");
        reveal_strlit("1");
        reveal_strlit("2");
        reveal_strlit("3");
        reveal_strlit("4");
        reveal_strlit("5");
        reveal_strlit("6");
        reveal_strlit("7");
        reveal_strlit("8");
        reveal_strlit("9");
    }
    if d == 0 {
        "0"
    } else if d == 1 {
        "1"
    } else if d == 2 {
        "2"
    } else if d == 3 {
        "3"
    } else if d == 4 {
        "4"
    } else if d == 5 {
        "5"
    } else if d == 6 {
        "6"
    } else if d == 7 {
        "7"
    } else if d == 8 {
        "8"
    } else {
        "9"
    }
}

/// Renders a non-negative number in decimal.
pub fn fmt_u128(n: u128) -> (r: String)
    ensures
        r@ == u_digits(n as nat),
    decreases n,
{
    if n < 10 {
        let s = digit_str(n as u8).to_owned();
        proof {
            assert(s@ =~= u_digits(n as nat));
        }
        s
    } else {
        let mut s = fmt_u128(n / 10);
        s.append(digit_str((n % 10) as u8));
        proof {
            assert(s@ =~= u_digits(n as nat));
        }
        s
    }
}

/// Renders a signed number in decimal, `-` prefix when negative.
pub fn fmt_i64(v: i64) -> (r: String)
    ensures
        r@ == int_str(v as int),
{
    if v < 0 {
        let m: u128 = (-(v as i128)) as u128;
        let mut s = "-".to_owned();
        let digits = fmt_u128(m);
        s.append(digits.as_str());
        proof {
            reveal_strlit("-");
            assert(s@ =~= int_str(v as int));
        }
        s
    } else {
        fmt_u128(v as u128)
    }
}

// ----------------------------------------------------------------------------
// Parsing integers
// ----------------------------------------------------------------------------

/// The digits of a numeric string once a leading sign is stripped.
pub open spec fn sign_body(s: Seq<char>) -> Seq<char> {
    if s.len() > 0 && (s[0] == '+' || s[0] == '-') {
        s.drop_first()
    } else {
        s
    }
}

pub open spec fn is_neg(s: Seq<char>) -> bool {
    s.len() > 0 && s[0] == '-'
}

/// A signed decimal integer: optional sign, one or more digits, and a value
/// within the `i64` range. This is the grammar of the time parameters.
pub open spec fn valid_i64_str(s: Seq<char>) -> bool {
    let b = sign_body(s);
    b.len() > 0 && all_digits(b) && i64::MIN <= signed_val(s) <= i64::MAX
}

pub open spec fn signed_val(s: Seq<char>) -> int {
    if is_neg(s) {
        -dec_val(sign_body(s))
    } else {
        dec_val(sign_body(s))
    }
}

pub open spec fn parse_i64_spec(s: Seq<char>) -> Option<int> {
    if valid_i64_str(s) {
        Some(signed_val(s))
    } else {
        None
    }
}

/// Reads the digit run `s[start..end]`. `None` when a non-digit appears or
/// the value reaches `cap`.
fn digits_val_capped(s: &str, start: usize, end: usize, cap: u128) -> (r: Option<u128>)
    requires
        start <= end <= s@.len(),
        0 < cap <= 0x1000_0000_0000_0000_0000_0000_0000_0000u128,
    ensures
        r matches Some(v) ==> all_digits(s@.subrange(start as int, end as int)) && v
            == dec_val(s@.subrange(start as int, end as int)) && v < cap,
        r is None ==> !all_digits(s@.subrange(start as int, end as int)) || dec_val(
            s@.subrange(start as int, end as int),
        ) >= cap,
{
    let ghost whole = s@.subrange(start as int, end as int);
    let mut i: usize = start;
    let mut acc: u128 = 0;
    while i < end
        invariant
            start <= i <= end <= s@.len(),
            0 < cap <= 0x1000_0000_0000_0000_0000_0000_0000_0000u128,
            whole == s@.subrange(start as int, end as int),
            all_digits(s@.subrange(start as int, i as int)),
            acc == dec_val(s@.subrange(start as int, i as int)),
            acc < cap,
        decreases end - i,
    {
        let c = s.get_char(i);
        proof {
            assert(s@.subrange(start as int, i as int + 1) =~= s@.subrange(
                start as int,
                i as int,
            ).push(s@[i as int]));
            assert(s@.subrange(start as int, i as int + 1).drop_last() =~= s@.subrange(
                start as int,
                i as int,
            ));
        }
        if !is_digit_exec(c) {
            proof {
                assert(whole[i - start] == s@[i as int]);
            }
            return None;
        }
        let d = digit_val_exec(c);
        let next = acc * 10 + (d as u128);
        if next >= cap {
            proof {
                assert(dec_val(s@.subrange(start as int, i as int + 1)) == next);
                if all_digits(whole) {
                    assert(whole.take(i + 1 - start) =~= s@.subrange(start as int, i as int + 1));
                    lemma_dec_val_prefix(whole, i + 1 - start);
                }
            }
            return None;
        }
        acc = next;
        i = i + 1;
    }
    proof {
        assert(s@.subrange(start as int, i as int) =~= whole);
    }
    Some(acc)
}

/// Reads a whole string as an `i64`: optional sign, digits, in range.
/// Anything else, the callers' "leave the parameter untouched" cases
/// included, is `None`.
pub fn parse_i64(s: &str) -> (r: Option<i64>)
    ensures
        r matches Some(v) ==> parse_i64_spec(s@) == Some(v as int),
        r is None ==> parse_i64_spec(s@) is None,
{
    let n = s.unicode_len();
    let ghost b = sign_body(s@);
    let (neg, start): (bool, usize) = if n > 0 {
        let c0 = s.get_char(0);
        if c0 == '-' {
            (true, 1)
        } else if c0 == '+' {
            (false, 1)
        } else {
            (false, 0)
        }
    } else {
        (false, 0)
    };
    proof {
        assert(b =~= s@.subrange(start as int, n as int));
        assert(neg == is_neg(s@));
    }
    if start >= n {
        return None;
    }
    // 10^19 is above every i64 magnitude.
    let cap: u128 = 10_000_000_000_000_000_000u128;
    match digits_val_capped(s, start, n, cap) {
        None => {
            proof {
                if all_digits(b) {
                    assert(dec_val(b) >= cap);
                }
            }
            None
        },
        Some(v) => {
            if neg {
                if v <= 9_223_372_036_854_775_808u128 {
                    Some((-(v as i128)) as i64)
                } else {
                    None
                }
            } else {
                if v <= 9_223_372_036_854_775_807u128 {
                    Some(v as i64)
                } else {
                    None
                }
            }
        },
    }
}

// ----------------------------------------------------------------------------
// Fixed-point decimals (milli-units)
// ----------------------------------------------------------------------------

/// Index of the first `.` in `s`, or `s.len()` when there is none.
pub open spec fn first_dot(s: Seq<char>) -> int
    decreases s.len(),
{
    if s.len() == 0 {
        0
    } else if s[0] == '.' {
        0
    } else {
        1 + first_dot(s.drop_first())
    }
}

pub proof fn lemma_first_dot(s: Seq<char>)
    ensures
        0 <= first_dot(s) <= s.len(),
        forall|i: int| 0 <= i < first_dot(s) ==> s[i] != '.',
        first_dot(s) < s.len() ==> s[first_dot(s)] == '.',
    decreases s.len(),
{
    if s.len() > 0 && s[0] != '.' {
        lemma_first_dot(s.drop_first());
        assert forall|i: int| 0 <= i < first_dot(s) implies s[i] != '.' by {
            if i > 0 {
                assert(s.drop_first()[i - 1] == s[i]);
            }
        }
        if first_dot(s) < s.len() {
            assert(s.drop_first()[first_dot(s) - 1] == s[first_dot(s)]);
        }
    }
}

pub proof fn lemma_first_dot_at(s: Seq<char>, m: int)
    requires
        0 <= m <= s.len(),
        forall|i: int| 0 <= i < m ==> s[i] != '.',
        m == s.len() || s[m] == '.',
    ensures
        first_dot(s) == m,
    decreases s.len(),
{
    if s.len() > 0 && s[0] != '.' {
        lemma_first_dot_at(s.drop_first(), m - 1);
    }
}

/// The digits before the first dot.
pub open spec fn int_part(b: Seq<char>) -> Seq<char> {
    b.take(first_dot(b))
}

/// The digits after the first dot; empty when there is no dot.
pub open spec fn frac_part(b: Seq<char>) -> Seq<char> {
    if first_dot(b) == b.len() {
        Seq::empty()
    } else {
        b.skip(first_dot(b) + 1)
    }
}

/// Ceiling on the integer part: values at or above 10^15 are read as zero.
pub open spec fn int_part_cap() -> int {
    1_000_000_000_000_000
}

/// The decimal grammar of a sample value: optional sign, digits with at most
/// one dot among them, at least one digit, and an integer part under the cap.
pub open spec fn dec3_valid(s: Seq<char>) -> bool {
    let b = sign_body(s);
    all_digits(int_part(b)) && all_digits(frac_part(b)) && int_part(b).len() + frac_part(b).len()
        > 0 && dec_val(int_part(b)) < int_part_cap()
}

/// Fractional digit `k` (0-based), 0 past the end.
pub open spec fn frac_digit(b: Seq<char>, k: int) -> int {
    if k < frac_part(b).len() {
        digit_of(frac_part(b)[k])
    } else {
        0
    }
}

/// Magnitude in milli-units: three fractional digits kept, the fourth
/// rounding half away from zero.
pub open spec fn millis_mag(b: Seq<char>) -> int {
    dec_val(int_part(b)) * 1000 + frac_digit(b, 0) * 100 + frac_digit(b, 1) * 10 + frac_digit(b, 2)
        + if frac_digit(b, 3) >= 5 {
        1int
    } else {
        0int
    }
}

/// The value of a sample string in milli-units; anything outside the grammar
/// is zero, as the lenient upstream policy demands.
pub open spec fn parse_millis_spec(s: Seq<char>) -> int {
    if dec3_valid(s) {
        if is_neg(s) {
            -millis_mag(sign_body(s))
        } else {
            millis_mag(sign_body(s))
        }
    } else {
        0
    }
}

pub proof fn lemma_parse_millis_bound(s: Seq<char>)
    ensures
        -1_000_000_000_000_000_000 <= parse_millis_spec(s) <= 1_000_000_000_000_000_000,
{
    if dec3_valid(s) {
        let b = sign_body(s);
        lemma_dec_val_nonneg(int_part(b));
        assert forall|k: int| 0 <= k < 4 implies 0 <= #[trigger] frac_digit(b, k) <= 9 by {
            if k < frac_part(b).len() {
                assert(is_digit_char(frac_part(b)[k]));
            }
        }
        assert(dec_val(int_part(b)) * 1000 <= 999_999_999_999_999_000);
    }
}

/// Reads a value string in milli-units.
#[verifier::rlimit(80)]
#[verifier::loop_isolation(false)]
pub fn parse_millis(s: &str) -> (r: i64)
    ensures
        r as int == parse_millis_spec(s@),
        -1_000_000_000_000_000_000 <= r <= 1_000_000_000_000_000_000,
{
    proof {
        lemma_parse_millis_bound(s@);
    }
    let n = s.unicode_len();
    let ghost b = sign_body(s@);
    let (neg, start): (bool, usize) = if n > 0 {
        let c0 = s.get_char(0);
        if c0 == '-' {
            (true, 1)
        } else if c0 == '+' {
            (false, 1)
        } else {
            (false, 0)
        }
    } else {
        (false, 0)
    };
    proof {
        assert(b =~= s@.subrange(start as int, n as int));
        assert(neg == is_neg(s@));
    }
    // Locate the first dot.
    let mut dot: usize = start;
    while dot < n && s.get_char(dot) != '.'
        invariant
            start <= dot <= n == s@.len(),
            forall|i: int| start <= i < dot ==> s@[i] != '.',
        decreases n - dot,
    {
        dot = dot + 1;
    }
    proof {
        assert forall|i: int| 0 <= i < dot - start implies b[i] != '.' by {
            assert(b[i] == s@[i + start]);
        }
        if dot < n {
            assert(b[dot - start] == s@[dot as int]);
        }
        lemma_first_dot_at(b, dot - start);
        assert(int_part(b) =~= s@.subrange(start as int, dot as int));
    }
    let int_val = match digits_val_capped(s, start, dot, 1_000_000_000_000_000u128) {
        None => {
            return 0;
        },
        Some(v) => v,
    };
    // Validate the fraction and pick up its first four digits.
    let fstart: usize = if dot < n {
        dot + 1
    } else {
        dot
    };
    proof {
        if dot < n {
            assert(frac_part(b) =~= s@.subrange(fstart as int, n as int));
        } else {
            assert(frac_part(b) =~= s@.subrange(fstart as int, n as int));
        }
    }
    let mut j: usize = fstart;
    let mut f: [u8; 4] = [0, 0, 0, 0];
    while j < n
        invariant
            fstart <= j <= n == s@.len(),
            fstart >= start,
            all_digits(s@.subrange(fstart as int, j as int)),
            frac_part(b) =~= s@.subrange(fstart as int, n as int),
            forall|k: int|
                0 <= k < 4 ==> f[k] as int == if k < j - fstart {
                    digit_of(s@[fstart + k])
                } else {
                    0
                },
        decreases n - j,
    {
        let c = s.get_char(j);
        proof {
            assert(s@.subrange(fstart as int, j as int + 1) =~= s@.subrange(
                fstart as int,
                j as int,
            ).push(s@[j as int]));
        }
        if !is_digit_exec(c) {
            proof {
                assert(frac_part(b)[j - fstart] == s@[j as int]);
                assert(!all_digits(frac_part(b)));
            }
            return 0;
        }
        if j - fstart < 4 {
            let d = digit_val_exec(c);
            f[j - fstart] = d;
        }
        j = j + 1;
    }
    proof {
        assert(s@.subrange(fstart as int, n as int) =~= frac_part(b));
    }
    if dot == start && fstart == n {
        // No digits at all.
        return 0;
    }
    proof {
        assert(int_part(b).len() + frac_part(b).len() > 0);
        assert(dec3_valid(s@));
        assert forall|k: int| 0 <= k < 4 implies f[k] as int == frac_digit(b, k) by {
            if k < n - fstart {
                assert(frac_part(b)[k] == s@[fstart + k]);
            }
        }
    }
    let mag: i64 = (int_val as i64) * 1000 + (f[0] as i64) * 100 + (f[1] as i64) * 10 + (
    f[2] as i64) + if f[3] >= 5 {
        1
    } else {
        0
    };
    proof {
        assert(mag == millis_mag(b));
        lemma_dec_val_nonneg(int_part(b));
    }
    if neg {
        -mag
    } else {
        mag
    }
}

// ----------------------------------------------------------------------------
// Rendering milli-units with three decimal places
// ----------------------------------------------------------------------------

pub open spec fn abs_val(v: int) -> int {
    if v < 0 {
        -v
    } else {
        v
    }
}

/// The three-decimal rendering of a milli-unit value: sign, integer part,
/// dot, exactly three fractional digits.
pub open spec fn fmt_millis_spec(v: int) -> Seq<char> {
    let m = abs_val(v);
    (if v < 0 {
        seq!['-']
    } else {
        Seq::<char>::empty()
    }) + u_digits((m / 1000) as nat) + seq!['.'] + seq![
        digit_char((m % 1000) / 100),
        digit_char(((m % 1000) / 10) % 10),
        digit_char(m % 10),
    ]
}

/// Renders a milli-unit value with exactly three decimal places.
pub fn fmt_millis(v: i128) -> (r: String)
    requires
        -1_000_000_000_000_000_000_000_000_000 <= v <= 1_000_000_000_000_000_000_000_000_000,
    ensures
        r@ == fmt_millis_spec(v as int),
{
    let mag: u128 = if v < 0 {
        (-v) as u128
    } else {
        v as u128
    };
    let mut s: String = if v < 0 {
        proof {
            reveal_strlit("-");
        }
        "-".to_owned()
    } else {
        String::new()
    };
    let whole = fmt_u128(mag / 1000);
    s.append(whole.as_str());
    proof {
        reveal_strlit(".");
    }
    s.append(".");
    let m = (mag % 1000) as u128;
    s.append(digit_str((m / 100) as u8));
    s.append(digit_str(((m / 10) % 10) as u8));
    s.append(digit_str((m % 10) as u8));
    proof {
        assert((mag % 1000) % 10 == mag % 10) by (nonlinear_arith);
        assert(s@ =~= fmt_millis_spec(v as int));
    }
    s
}

/// Reformats a value string to three decimal places, unparsable input read
/// as zero.
pub open spec fn fixed3(s: Seq<char>) -> Seq<char> {
    fmt_millis_spec(parse_millis_spec(s))
}

pub fn format_fixed3(s: &str) -> (r: String)
    ensures
        r@ == fixed3(s@),
{
    let v = parse_millis(s);
    fmt_millis(v as i128)
}

// ----------------------------------------------------------------------------
// Compare and percent values
// ----------------------------------------------------------------------------

/// current minus baseline, three decimal places.
pub open spec fn compare_val_spec(cur: Seq<char>, avg: Seq<char>) -> Seq<char> {
    fmt_millis_spec(parse_millis_spec(cur) - parse_millis_spec(avg))
}

pub fn compare_value(cur: &str, avg: &str) -> (r: String)
    ensures
        r@ == compare_val_spec(cur@, avg@),
{
    let c = parse_millis(cur);
    let a = parse_millis(avg);
    fmt_millis(c as i128 - a as i128)
}

/// Division rounded to the nearest integer, halves away from zero; both
/// arguments non-negative, `d` positive.
pub open spec fn half_up_div(n: int, d: int) -> int {
    (2 * n + d) / (2 * d)
}

/// `(current - baseline) / baseline * 100` in milli-units; a zero baseline
/// yields zero rather than a division error.
pub open spec fn percent_millis(c: int, a: int) -> int {
    if a == 0 {
        0
    } else {
        let n = (c - a) * 100000;
        let q = half_up_div(abs_val(n), abs_val(a));
        if (n < 0) == (a < 0) {
            q
        } else {
            -q
        }
    }
}

pub open spec fn percent_val_spec(cur: Seq<char>, avg: Seq<char>) -> Seq<char> {
    fmt_millis_spec(percent_millis(parse_millis_spec(cur), parse_millis_spec(avg)))
}

pub fn percent_value(cur: &str, avg: &str) -> (r: String)
    ensures
        r@ == percent_val_spec(cur@, avg@),
{
    let pc = parse_millis(cur);
    let pa = parse_millis(avg);
    if pa == 0 {
        return fmt_millis(0);
    }
    let diff: i128 = pc as i128 - pa as i128;
    let n: i128 = diff * 100000;
    let nm: u128 = if n < 0 {
        (-n) as u128
    } else {
        n as u128
    };
    let am: u128 = if pa < 0 {
        (-(pa as i128)) as u128
    } else {
        pa as u128
    };
    let q: u128 = (2 * nm + am) / (2 * am);
    proof {
        vstd::arithmetic::div_mod::lemma_div_is_ordered_by_denominator(
            2 * nm + am,
            2,
            2 * am as int,
        );
        vstd::arithmetic::div_mod::lemma_div_is_ordered(
            2 * nm + am,
            2 * (nm + am),
            2,
        );
        assert(2 * (nm + am) / 2 == nm + am);
        assert(q <= nm + am);
        assert(q == half_up_div(abs_val(n as int), abs_val(pa as int)));
    }
    let qi: i128 = q as i128;
    if (n < 0) != (pa < 0) {
        fmt_millis(-qi)
    } else {
        fmt_millis(qi)
    }
}

/// A string that ends in a dot followed by exactly three digits.
pub open spec fn three_decimal_form(r: Seq<char>) -> bool {
    r.len() >= 5 && r[r.len() - 4] == '.' && is_digit_char(r[r.len() - 3]) && is_digit_char(
        r[r.len() - 2],
    ) && is_digit_char(r[r.len() - 1])
}

proof fn lemma_u_digits_len(n: nat)
    ensures
        u_digits(n).len() >= 1,
        forall|i: int| 0 <= i < u_digits(n).len() ==> is_digit_char(#[trigger] u_digits(n)[i]),
    decreases n,
{
    if n >= 10 {
        lemma_u_digits_len(n / 10);
    }
}

/// Every rendered milli-unit value carries exactly three decimal places.
pub proof fn lemma_fmt_three_decimals(v: int)
    ensures
        three_decimal_form(fmt_millis_spec(v)),
{
    let m = abs_val(v);
    let u = u_digits((m / 1000) as nat);
    lemma_u_digits_len((m / 1000) as nat);
    let r = fmt_millis_spec(v);
    assert(r[r.len() - 4] == '.');
    assert(is_digit_char(digit_char((m % 1000) / 100)));
    assert(is_digit_char(digit_char(((m % 1000) / 10) % 10)));
    assert(is_digit_char(digit_char(m % 10)));
    assert(r[r.len() - 3] == digit_char((m % 1000) / 100));
    assert(r[r.len() - 2] == digit_char(((m % 1000) / 10) % 10));
    assert(r[r.len() - 1] == digit_char(m % 10));
}

/// Reformatting any value string yields exactly three decimal places.
pub proof fn lemma_fixed3_three_decimals(s: Seq<char>)
    ensures
        three_decimal_form(fixed3(s)),
{
    lemma_fmt_three_decimals(parse_millis_spec(s));
}

/// A zero baseline forces the percent value to `0.000`, whatever the
/// current value reads.
pub proof fn lemma_percent_zero_avg(cur: Seq<char>, avg: Seq<char>)
    requires
        parse_millis_spec(avg) == 0,
    ensures
        percent_val_spec(cur, avg) == "0.000"@,
{
    reveal_strlit("0.000");
    assert(percent_val_spec(cur, avg) =~= "0.000"@);
}

} // verus!
