use vstd::prelude::*;
use crate::text::push_char;

verus! {

/// Number of fractional decimal digits a reading keeps.
pub const FRACTION_DIGITS: usize = 8;


/// Cap on an exponent's magnitude; beyond it every outcome is already decided.
pub const EXPONENT_CAP: u128 = 36_893_488_147_419_103_232;

pub open spec fn pow10(n: nat) -> int
    decreases n,
{
    if n == 0 {
        1
    } else {
        10 * pow10((n - 1) as nat)
    }
}

pub open spec fn is_digit(c: char) -> bool {
    '0' <= c && c <= '9'
}

pub open spec fn digit_of(c: char) -> int {
    (c as int) - ('0' as int)
}

/// The value of a run of decimal digits, most significant first.
pub open spec fn digits_value(s: Seq<char>) -> int
    decreases s.len(),
{
    if s.len() == 0 {
        0
    } else {
        digits_value(s.drop_last()) * 10 + digit_of(s.last())
    }
}

/// The end of the longest run of digits of `t` that starts at `i`.
pub open spec fn digit_run_end(t: Seq<char>, i: int) -> int
    decreases t.len() - i,
{
    if 0 <= i < t.len() && is_digit(t[i]) {
        digit_run_end(t, i + 1)
    } else {
        i
    }
}

pub proof fn lemma_pow10_positive(n: nat)
    ensures
        pow10(n) >= 1,
    decreases n,
{
    if n > 0 {
        lemma_pow10_positive((n - 1) as nat);
    }
}

pub proof fn lemma_pow10_adds(a: nat, b: nat)
    ensures
        pow10(a + b) == pow10(a) * pow10(b),
    decreases b,
{
    if b > 0 {
        lemma_pow10_adds(a, (b - 1) as nat);
        assert(pow10(a + b) == 10 * pow10((a + b - 1) as nat));
        assert(pow10(a) * (10 * pow10((b - 1) as nat)) == 10 * (pow10(a) * pow10((b - 1) as nat)))
            by (nonlinear_arith);
    }
}

pub proof fn lemma_pow10_monotone(a: nat, b: nat)
    requires
        a <= b,
    ensures
        pow10(a) <= pow10(b),
{
    lemma_pow10_adds(a, (b - a) as nat);
    lemma_pow10_positive(a);
    lemma_pow10_positive((b - a) as nat);
    assert(pow10(a) * pow10((b - a) as nat) >= pow10(a) * 1) by (nonlinear_arith)
        requires pow10((b - a) as nat) >= 1, pow10(a) >= 1;
}

pub proof fn lemma_digits_bounds(s: Seq<char>)
    requires
        forall|i: int| 0 <= i < s.len() ==> is_digit(#[trigger] s[i]),
    ensures
        0 <= digits_value(s) < pow10(s.len()),
    decreases s.len(),
{
    if s.len() > 0 {
        lemma_digits_bounds(s.drop_last());
    }
}

/// The value of a concatenation of digit runs.
pub proof fn lemma_digits_concat(a: Seq<char>, b: Seq<char>)
    ensures
        digits_value(a + b) == digits_value(a) * pow10(b.len()) + digits_value(b),
    decreases b.len(),
{
    if b.len() == 0 {
        assert(a + b == a);
    } else {
        lemma_digits_concat(a, b.drop_last());
        assert((a + b).drop_last() == a + b.drop_last());
        assert((a + b).last() == b.last());
        let x = digits_value(a);
        let p = pow10((b.len() - 1) as nat);
        assert((x * p + digits_value(b.drop_last())) * 10 + digit_of(b.last()) == x * (10 * p)
            + (digits_value(b.drop_last()) * 10 + digit_of(b.last()))) by (nonlinear_arith);
    }
}

/// Scans from `i` to the end of the run of digits there.
pub fn scan_digits(t: &Vec<char>, i: usize) -> (r: usize)
    requires
        i <= t@.len(),
    ensures
        r as int == digit_run_end(t@, i as int),
        i <= r <= t@.len(),
{
    let mut j = i;
    while j < t.len() && '0' <= t[j] && t[j] <= '9'
        invariant
            i <= j <= t@.len(),
            digit_run_end(t@, j as int) == digit_run_end(t@, i as int),
        decreases t@.len() - j,
    {
        j = j + 1;
    }
    j
}

/// The value of the digits `t[from..to]`, or `cap` where that value reaches `cap`.
pub fn digits_value_capped(t: &Vec<char>, from: usize, to: usize, cap: u128) -> (r: u128)
    requires
        from <= to <= t@.len(),
        cap <= 0x1_0000_0000_0000_0000_0000,
        forall|i: int| from <= i < to ==> is_digit(#[trigger] t@[i]),
    ensures
        r as int == if digits_value(t@.subrange(from as int, to as int)) < cap {
            digits_value(t@.subrange(from as int, to as int))
        } else {
            cap as int
        },
{
    let mut acc: u128 = 0;
    let mut i = from;
    while i < to
        invariant
            from <= i <= to <= t@.len(),
            cap <= 0x1_0000_0000_0000_0000_0000,
            forall|k: int| from <= k < to ==> is_digit(#[trigger] t@[k]),
            acc <= cap,
            acc as int == if digits_value(t@.subrange(from as int, i as int)) < cap {
                digits_value(t@.subrange(from as int, i as int))
            } else {
                cap as int
            },
        decreases to - i,
    {
        let d = (t[i] as u32 - '0' as u32) as u128;
        let ghost prev = digits_value(t@.subrange(from as int, i as int));
        proof {
            let s = t@.subrange(from as int, i as int + 1);
            assert(s.drop_last() == t@.subrange(from as int, i as int));
            assert(s.last() == t@[i as int]);
            assert(forall|k: int| 0 <= k < s.len() - 1 ==> is_digit(#[trigger] s.drop_last()[k]));
            lemma_digits_bounds(s.drop_last());
        }
        let next = acc * 10 + d;
        acc = if next < cap { next } else { cap };
        proof {
            let s = t@.subrange(from as int, i as int + 1);
            assert(digits_value(s) == prev * 10 + d);
            if prev >= cap {
                assert(prev * 10 + d >= cap) by (nonlinear_arith) requires prev >= cap, d >= 0, cap >= 0;
            }
        }
        i = i + 1;
    }
    acc
}


/// `m * 10^k` rounded to an integer, halves away from zero.
pub open spec fn scaled_round(m: int, k: int) -> int {
    if k >= 0 {
        m * pow10(k as nat)
    } else {
        (m + 5 * pow10((-k - 1) as nat)) / pow10((-k) as nat)
    }
}

pub open spec fn all_digits(s: Seq<char>) -> bool {
    forall|i: int| 0 <= i < s.len() ==> is_digit(#[trigger] s[i])
}

proof fn lemma_single_digit(c: char)
    ensures
        digits_value(seq![c]) == digit_of(c),
{
    let s = seq![c];
    assert(s.drop_last() == Seq::<char>::empty());
    assert(s.last() == c);
    assert(digits_value(Seq::<char>::empty()) == 0);
    assert(digits_value(s) == digits_value(s.drop_last()) * 10 + digit_of(s.last()));
}

proof fn lemma_scaled_round_zero(k: int)
    ensures
        scaled_round(0, k) == 0,
{
    if k < 0 {
        let j = (-k) as nat;
        let p = pow10((j - 1) as nat);
        lemma_pow10_positive((j - 1) as nat);
        assert(pow10(j) == 10 * p);
        vstd::arithmetic::div_mod::lemma_fundamental_div_mod_converse(5 * p, 10 * p, 0, 5 * p);
    }
}

/// A value with fewer digits than the dropped places rounds to zero.
proof fn lemma_scaled_round_vanishes(m: int, n: nat, k: int)
    requires
        0 <= m < pow10(n),
        k < -(n as int),
    ensures
        scaled_round(m, k) == 0,
{
    let j = (-k) as nat;
    let p = pow10((j - 1) as nat);
    lemma_pow10_monotone(n, (j - 1) as nat);
    assert(pow10(j) == 10 * p);
    vstd::arithmetic::div_mod::lemma_fundamental_div_mod_converse(m + 5 * p, 10 * p, 0, m + 5 * p);
}

/// The count of units from which a wide value no longer fits: `2^128` whole units.
pub open spec fn wide_cap() -> int {
    (u128::MAX as int + 1) * 100_000_000
}

/// `r` holds `v` as `high * 10^8 + low` with `low < 10^8`, or is `None` where `v` reaches
/// `wide_cap()`.
pub open spec fn holds_wide(r: Option<(u128, u64)>, v: int) -> bool {
    match r {
        None => v >= wide_cap(),
        Some((high, low)) => low < 100_000_000 && v == high * 100_000_000 + low,
    }
}

/// A non-zero value scaled by at least `10^47` reaches the wide cap.
proof fn lemma_scaled_round_large(m: int, k: int)
    requires
        m >= 1,
        k >= 47,
    ensures
        scaled_round(m, k) >= wide_cap(),
{
    lemma_pow10_monotone(47, k as nat);
    reveal_with_fuel(pow10, 48);
    assert(pow10(47) == 100_000_000_000_000_000_000_000_000_000_000_000_000_000_000_000);
    assert(m * pow10(k as nat) >= 1 * pow10(k as nat)) by (nonlinear_arith)
        requires m >= 1, pow10(k as nat) >= 0;
}

/// Rounding away `j` digits keeps the leading digits and adds one when the first dropped digit is five or more.
proof fn lemma_scaled_round_digits(d: Seq<char>, r: int)
    requires
        all_digits(d),
        0 <= r < d.len(),
    ensures
        scaled_round(digits_value(d), r - d.len()) == digits_value(d.subrange(0, r)) + if digit_of(
            d[r],
        ) >= 5 {
            1int
        } else {
            0int
        },
{
    let n = d.len() as int;
    let j = (n - r) as nat;
    let a = d.subrange(0, r);
    let b = d.subrange(r, n);
    let c = d.subrange(r + 1, n);
    assert(a + b == d);
    lemma_digits_concat(a, b);
    assert(seq![d[r]] + c == b);
    lemma_digits_concat(seq![d[r]], c);
    lemma_single_digit(d[r]);
    assert(all_digits(c));
    lemma_digits_bounds(c);
    let p = pow10((j - 1) as nat);
    assert(c.len() == j - 1);
    assert(pow10(j) == 10 * p);
    let va = digits_value(a);
    let vc = digits_value(c);
    let dg = digit_of(d[r]);
    assert(0 <= dg <= 9);
    assert(digits_value(b) == dg * p + vc);
    let x = digits_value(d) + 5 * p;
    assert(x == va * (10 * p) + dg * p + vc + 5 * p) by (nonlinear_arith)
        requires
            x == digits_value(d) + 5 * p,
            digits_value(d) == va * pow10(j) + digits_value(b),
            pow10(j) == 10 * p,
            digits_value(b) == dg * p + vc,
    ;
    if dg >= 5 {
        assert(x == (va + 1) * (10 * p) + ((dg - 5) * p + vc)) by (nonlinear_arith)
            requires x == va * (10 * p) + dg * p + vc + 5 * p;
        assert(0 <= (dg - 5) * p + vc < 10 * p) by (nonlinear_arith)
            requires 5 <= dg <= 9, 0 <= vc < p;
        vstd::arithmetic::div_mod::lemma_fundamental_div_mod_converse(x, 10 * p, va + 1, (dg - 5) * p + vc);
    } else {
        assert(x == va * (10 * p) + ((dg + 5) * p + vc)) by (nonlinear_arith)
            requires x == va * (10 * p) + dg * p + vc + 5 * p;
        assert(0 <= (dg + 5) * p + vc < 10 * p) by (nonlinear_arith)
            requires 0 <= dg < 5, 0 <= vc < p;
        vstd::arithmetic::div_mod::lemma_fundamental_div_mod_converse(x, 10 * p, va, (dg + 5) * p + vc);
    }
}

/// `(high * 10^8 + low) * 10 + d`, or `None` where that reaches the wide cap.
fn wide_push_digit(high: u128, low: u64, d: u64) -> (r: Option<(u128, u64)>)
    requires
        low < 100_000_000,
        d < 10,
    ensures
        holds_wide(r, (high * 100_000_000 + low) * 10 + d),
{
    let t = low * 10 + d;
    let carry = t / 100_000_000;
    let rest = t % 100_000_000;
    proof {
        assert((high * 100_000_000 + low) * 10 + d == (high * 10 + carry) * 100_000_000 + rest)
            by (nonlinear_arith)
            requires t == low * 10 + d, t == carry * 100_000_000 + rest;
    }
    match high.checked_mul(10) {
        None => {
            proof {
                assert((high * 10 + carry) * 100_000_000 + rest >= wide_cap()) by (nonlinear_arith)
                    requires high * 10 >= u128::MAX as int + 1, carry >= 0, rest >= 0;
            }
            None
        },
        Some(h10) => match h10.checked_add(carry as u128) {
            None => {
                proof {
                    assert((high * 10 + carry) * 100_000_000 + rest >= wide_cap())
                        by (nonlinear_arith)
                        requires high * 10 + carry >= u128::MAX as int + 1, rest >= 0;
                }
                None
            },
            Some(h) => Some((h, rest)),
        },
    }
}

/// `high * 10^8 + low + 1`, or `None` where that reaches the wide cap.
fn wide_add_one(high: u128, low: u64) -> (r: Option<(u128, u64)>)
    requires
        low < 100_000_000,
    ensures
        holds_wide(r, high * 100_000_000 + low + 1),
{
    if low + 1 < 100_000_000 {
        Some((high, low + 1))
    } else if high == u128::MAX {
        None
    } else {
        Some((high + 1, 0))
    }
}

/// The value of the digits `d[0..to]` as a wide value.
fn digits_value_wide(d: &Vec<char>, to: usize) -> (r: Option<(u128, u64)>)
    requires
        to <= d@.len(),
        all_digits(d@),
    ensures
        holds_wide(r, digits_value(d@.subrange(0, to as int))),
{
    let mut acc: Option<(u128, u64)> = Some((0, 0));
    let mut i: usize = 0;
    assert(d@.subrange(0, 0) == Seq::<char>::empty());
    while i < to
        invariant
            i <= to <= d@.len(),
            all_digits(d@),
            holds_wide(acc, digits_value(d@.subrange(0, i as int))),
        decreases to - i,
    {
        let dg = (d[i] as u32 - '0' as u32) as u64;
        let ghost prev = digits_value(d@.subrange(0, i as int));
        proof {
            let s = d@.subrange(0, i as int + 1);
            assert(s.drop_last() == d@.subrange(0, i as int));
            assert(s.last() == d@[i as int]);
            assert(digits_value(s) == prev * 10 + dg);
        }
        acc = match acc {
            None => {
                proof {
                    assert(prev * 10 + dg >= wide_cap()) by (nonlinear_arith)
                        requires prev >= wide_cap(), dg >= 0, wide_cap() >= 0;
                }
                None
            },
            Some((h, l)) => wide_push_digit(h, l, dg),
        };
        i = i + 1;
    }
    acc
}

/// `digits_value(d@) * 10^k`, rounded, as a wide value, for `k` between `-2^66` and `2^66`.
fn scaled_magnitude(d: &Vec<char>, k: i128) -> (r: Option<(u128, u64)>)
    requires
        all_digits(d@),
        -73_786_976_294_838_206_464 <= k <= 73_786_976_294_838_206_464,
    ensures
        holds_wide(r, scaled_round(digits_value(d@), k as int)),
{
    let n = d.len();
    proof {
        lemma_digits_bounds(d@);
        assert(d@.subrange(0, n as int) == d@);
    }
    if k >= 0 {
        let ghost mv = digits_value(d@);
        match digits_value_wide(d, n) {
            None => {
                proof {
                    lemma_pow10_positive(k as nat);
                    assert(mv * pow10(k as nat) >= mv * 1) by (nonlinear_arith)
                        requires mv >= 0, pow10(k as nat) >= 1;
                }
                None
            },
            Some((high, low)) => {
                if high == 0 && low == 0 {
                    proof {
                        lemma_scaled_round_zero(k as int);
                    }
                    return Some((0, 0));
                }
                if k >= 47 {
                    proof {
                        lemma_scaled_round_large(mv, k as int);
                    }
                    return None;
                }
                let mut h = high;
                let mut l = low;
                let mut i: i128 = 0;
                while i < k
                    invariant
                        0 <= i <= k < 47,
                        mv == digits_value(d@),
                        mv >= 0,
                        l < 100_000_000,
                        h * 100_000_000 + l == mv * pow10(i as nat),
                    decreases k - i,
                {
                    proof {
                        assert(pow10((i + 1) as nat) == 10 * pow10(i as nat));
                        assert(mv * (10 * pow10(i as nat)) == (mv * pow10(i as nat)) * 10)
                            by (nonlinear_arith);
                    }
                    match wide_push_digit(h, l, 0) {
                        None => {
                            proof {
                                lemma_pow10_positive((k - i - 1) as nat);
                                lemma_pow10_adds((i + 1) as nat, (k - i - 1) as nat);
                                let big = mv * pow10((i + 1) as nat);
                                assert(big == (h * 100_000_000 + l) * 10 + 0);
                                assert(big >= wide_cap());
                                assert((i + 1) as nat + (k - i - 1) as nat == k as nat);
                                assert(mv * pow10(k as nat) == big * pow10((k - i - 1) as nat))
                                    by (nonlinear_arith)
                                    requires
                                        pow10(k as nat) == pow10((i + 1) as nat) * pow10(
                                            (k - i - 1) as nat,
                                        ),
                                        big == mv * pow10((i + 1) as nat),
                                ;
                                assert(big * pow10((k - i - 1) as nat) >= big * 1)
                                    by (nonlinear_arith)
                                    requires big >= 0, pow10((k - i - 1) as nat) >= 1;
                                assert(scaled_round(mv, k as int) == mv * pow10(k as nat));
                                assert(mv * pow10(k as nat) >= big);
                                assert(scaled_round(mv, k as int) >= wide_cap());
                            }
                            return None;
                        },
                        Some((nh, nl)) => {
                            h = nh;
                            l = nl;
                        },
                    }
                    i = i + 1;
                }
                Some((h, l))
            },
        }
    } else {
        let r = n as i128 + k;
        if r < 0 {
            proof {
                lemma_scaled_round_vanishes(digits_value(d@), n as nat, k as int);
            }
            Some((0, 0))
        } else {
            let ru = r as usize;
            proof {
                lemma_scaled_round_digits(d@, ru as int);
            }
            let p = digits_value_wide(d, ru);
            if d[ru] >= '5' {
                match p {
                    None => None,
                    Some((h, l)) => wide_add_one(h, l),
                }
            } else {
                p
            }
        }
    }
}

/// Why a text is not a reading.
#[derive(PartialEq, Eq, Structural, Clone, Copy, Debug)]
pub enum NumberError {
    /// The text is not a decimal number.
    Malformed,
    /// The number is too large for a reading.
    OutOfRange,
}

pub open spec fn is_sign(c: char) -> bool {
    c == '+' || c == '-'
}

pub open spec fn is_exponent_marker(c: char) -> bool {
    c == 'e' || c == 'E'
}

/// End of the optional leading sign.
pub open spec fn sign_end(t: Seq<char>) -> int {
    if t.len() > 0 && is_sign(t[0]) {
        1
    } else {
        0
    }
}

/// End of the integer digits.
pub open spec fn int_end(t: Seq<char>) -> int {
    digit_run_end(t, sign_end(t))
}

pub open spec fn has_point(t: Seq<char>) -> bool {
    int_end(t) < t.len() && t[int_end(t)] == '.'
}

/// Start of the fractional digits.
pub open spec fn frac_start(t: Seq<char>) -> int {
    if has_point(t) {
        int_end(t) + 1
    } else {
        int_end(t)
    }
}

/// End of the fractional digits.
pub open spec fn frac_end(t: Seq<char>) -> int {
    if has_point(t) {
        digit_run_end(t, frac_start(t))
    } else {
        int_end(t)
    }
}

/// The integer digits followed by the fractional digits.
pub open spec fn mantissa_digits(t: Seq<char>) -> Seq<char> {
    t.subrange(sign_end(t), int_end(t)) + t.subrange(frac_start(t), frac_end(t))
}

/// Start of the exponent's digits, past the marker and its optional sign.
pub open spec fn exp_digits_start(t: Seq<char>) -> int {
    let q = frac_end(t) + 1;
    if q < t.len() && is_sign(t[q]) {
        q + 1
    } else {
        q
    }
}

/// `t` is an optional sign, digits with an optional point among them (at least one digit),
/// then optionally an exponent marker, an optional sign and at least one digit.
pub open spec fn is_decimal(t: Seq<char>) -> bool {
    &&& mantissa_digits(t).len() > 0
    &&& (frac_end(t) == t.len() || (is_exponent_marker(t[frac_end(t)]) && exp_digits_start(t)
        < t.len() && digit_run_end(t, exp_digits_start(t)) == t.len()))
}

pub open spec fn exponent_value(t: Seq<char>) -> int {
    if frac_end(t) == t.len() {
        0
    } else {
        let v = digits_value(t.subrange(exp_digits_start(t), t.len() as int));
        if t[frac_end(t) + 1] == '-' {
            -v
        } else {
            v
        }
    }
}

pub open spec fn is_negative(t: Seq<char>) -> bool {
    t.len() > 0 && t[0] == '-'
}

/// The power of ten that turns the mantissa's integer into units of `10^-8`.
pub open spec fn unit_shift(t: Seq<char>) -> int {
    exponent_value(t) - (frac_end(t) - frac_start(t)) + FRACTION_DIGITS
}

/// The number a decimal text denotes, in units of `10^-8`, rounded half away from zero.
pub open spec fn decimal_units(t: Seq<char>) -> int {
    let m = scaled_round(digits_value(mantissa_digits(t)), unit_shift(t));
    if is_negative(t) {
        -m
    } else {
        m
    }
}

pub open spec fn fits_i64(x: int) -> bool {
    i64::MIN <= x <= i64::MAX
}

/// What reading a text as a decimal gives.
pub open spec fn decimal_outcome(t: Seq<char>) -> Result<i64, NumberError> {
    if !is_decimal(t) {
        Err(NumberError::Malformed)
    } else if fits_i64(decimal_units(t)) {
        Ok(decimal_units(t) as i64)
    } else {
        Err(NumberError::OutOfRange)
    }
}

proof fn lemma_digit_run(t: Seq<char>, i: int)
    requires
        0 <= i <= t.len(),
    ensures
        i <= digit_run_end(t, i) <= t.len(),
        forall|j: int| i <= j < digit_run_end(t, i) ==> is_digit(#[trigger] t[j]),
        digit_run_end(t, i) < t.len() ==> !is_digit(t[digit_run_end(t, i)]),
    decreases t.len() - i,
{
    if i < t.len() && is_digit(t[i]) {
        lemma_digit_run(t, i + 1);
    }
}

proof fn lemma_scaled_round_nonneg(m: int, k: int)
    requires
        m >= 0,
    ensures
        scaled_round(m, k) >= 0,
{
    if k >= 0 {
        lemma_pow10_positive(k as nat);
        assert(m * pow10(k as nat) >= 0) by (nonlinear_arith)
            requires m >= 0, pow10(k as nat) >= 1;
    } else {
        lemma_pow10_positive((-k - 1) as nat);
        lemma_pow10_positive((-k) as nat);
        vstd::arithmetic::div_mod::lemma_div_pos_is_pos(
            m + 5 * pow10((-k - 1) as nat),
            pow10((-k) as nat),
        );
    }
}

/// Appends `t[from..to]` to `dst`.
fn append_range(dst: &mut Vec<char>, t: &Vec<char>, from: usize, to: usize)
    requires
        from <= to <= t@.len(),
    ensures
        final(dst)@ == old(dst)@ + t@.subrange(from as int, to as int),
{
    let mut i = from;
    while i < to
        invariant
            from <= i <= to <= t@.len(),
            dst@ == old(dst)@ + t@.subrange(from as int, i as int),
        decreases to - i,
    {
        dst.push(t[i]);
        i = i + 1;
        assert(t@.subrange(from as int, i as int) == t@.subrange(from as int, i - 1).push(t@[i - 1]));
    }
}

/// Positions of the sign's end, the integer digits' end, and the fractional digits' start and end.
fn mantissa_bounds(t: &Vec<char>) -> (r: (usize, usize, usize, usize))
    ensures
        r.0 as int == sign_end(t@),
        r.1 as int == int_end(t@),
        r.2 as int == frac_start(t@),
        r.3 as int == frac_end(t@),
        r.0 <= r.1 <= r.2 <= r.3 <= t@.len(),
        all_digits(mantissa_digits(t@)),
        mantissa_digits(t@).len() == (r.1 - r.0) + (r.3 - r.2),
{
    let len = t.len();
    let sign_at: usize = if len > 0 && (t[0] == '+' || t[0] == '-') {
        1
    } else {
        0
    };
    let int_at = scan_digits(t, sign_at);
    let point = int_at < len && t[int_at] == '.';
    let frac_from = if point {
        int_at + 1
    } else {
        int_at
    };
    let frac_to = if point {
        scan_digits(t, frac_from)
    } else {
        int_at
    };
    proof {
        lemma_digit_run(t@, sign_at as int);
        if point {
            lemma_digit_run(t@, frac_from as int);
        }
        let md = mantissa_digits(t@);
        assert forall|i: int| 0 <= i < md.len() implies is_digit(#[trigger] md[i]) by {
            if i < int_at - sign_at {
                assert(md[i] == t@[sign_at + i]);
            } else {
                assert(md[i] == t@[frac_from + i - (int_at - sign_at)]);
            }
        }
    }
    (sign_at, int_at, frac_from, frac_to)
}

/// The exponent that follows the mantissa ending at `frac_to`: whether it is negative and its
/// magnitude capped at `EXPONENT_CAP`; `None` where what follows is not a well-formed exponent.
fn exponent_part(t: &Vec<char>, frac_to: usize) -> (r: Option<(bool, u128)>)
    requires
        frac_to as int == frac_end(t@),
        frac_to <= t@.len(),
    ensures
        r is Some <==> (frac_end(t@) == t@.len() || (is_exponent_marker(t@[frac_end(t@)])
            && exp_digits_start(t@) < t@.len() && digit_run_end(t@, exp_digits_start(t@))
            == t@.len())),
        r matches Some((neg, mag)) ==> {
            &&& mag <= EXPONENT_CAP
            &&& mag < EXPONENT_CAP ==> exponent_value(t@) == if neg {
                -(mag as int)
            } else {
                mag as int
            }
            &&& mag == EXPONENT_CAP && neg ==> exponent_value(t@) <= -(EXPONENT_CAP as int)
            &&& mag == EXPONENT_CAP && !neg ==> exponent_value(t@) >= EXPONENT_CAP as int
        },
{
    let len = t.len();
    if frac_to == len {
        return Some((false, 0));
    }
    if t[frac_to] != 'e' && t[frac_to] != 'E' {
        return None;
    }
    let q0 = frac_to + 1;
    let q1 = if q0 < len && (t[q0] == '+' || t[q0] == '-') {
        q0 + 1
    } else {
        q0
    };
    if q1 >= len {
        return None;
    }
    let q2 = scan_digits(t, q1);
    if q2 < len {
        return None;
    }
    proof {
        lemma_digit_run(t@, q1 as int);
        assert(all_digits(t@.subrange(q1 as int, len as int)));
        lemma_digits_bounds(t@.subrange(q1 as int, len as int));
    }
    let mag = digits_value_capped(t, q1, len, EXPONENT_CAP);
    Some((t[q0] == '-', mag))
}

/// Capping the exponent at `EXPONENT_CAP` changes no magnitude below the wide cap.
proof fn lemma_exponent_cap(m: int, n: nat, f: int, ev: int, neg: bool, mag: int)
    requires
        0 <= m < pow10(n),
        n < 18_446_744_073_709_551_616,
        0 <= f <= n,
        0 <= mag <= EXPONENT_CAP,
        mag < EXPONENT_CAP ==> ev == if neg {
            -mag
        } else {
            mag
        },
        mag == EXPONENT_CAP && neg ==> ev <= -(EXPONENT_CAP as int),
        mag == EXPONENT_CAP && !neg ==> ev >= EXPONENT_CAP as int,
    ensures
        scaled_round(m, (if neg { -mag } else { mag }) - f + 8) == scaled_round(m, ev - f + 8)
            || (scaled_round(m, (if neg { -mag } else { mag }) - f + 8) >= wide_cap()
            && scaled_round(m, ev - f + 8) >= wide_cap()),
{
    let k = (if neg {
        -mag
    } else {
        mag
    }) - f + 8;
    let kt = ev - f + 8;
    if mag == EXPONENT_CAP {
        if !neg {
            if m == 0 {
                lemma_scaled_round_zero(k);
                lemma_scaled_round_zero(kt);
            } else {
                lemma_scaled_round_large(m, k);
                lemma_scaled_round_large(m, kt);
            }
        } else {
            lemma_scaled_round_vanishes(m, n, k);
            lemma_scaled_round_vanishes(m, n, kt);
        }
    }
}

/// The rounded magnitude, in units of `10^-8`, of a decimal text.
pub open spec fn magnitude_units(t: Seq<char>) -> int {
    scaled_round(digits_value(mantissa_digits(t)), unit_shift(t))
}

/// Reads `t` as a decimal number: whether it is negative, and its magnitude in units of
/// `10^-8` as a wide value; `None` where `t` is not a decimal.
pub fn decimal_magnitude(t: &Vec<char>) -> (r: Option<(bool, Option<(u128, u64)>)>)
    ensures
        match r {
            None => !is_decimal(t@),
            Some((neg, w)) => is_decimal(t@) && neg == is_negative(t@) && holds_wide(
                w,
                magnitude_units(t@),
            ),
        },
{
    let (sign_at, int_at, frac_from, frac_to) = mantissa_bounds(t);
    if int_at - sign_at + (frac_to - frac_from) == 0 {
        return None;
    }
    let (exp_negative, exp_mag) = match exponent_part(t, frac_to) {
        Some(x) => x,
        None => {
            return None;
        },
    };
    let mut mant: Vec<char> = Vec::new();
    append_range(&mut mant, t, sign_at, int_at);
    append_range(&mut mant, t, frac_from, frac_to);
    let ghost m = digits_value(mant@);
    proof {
        assert(mant@ == mantissa_digits(t@));
        lemma_digits_bounds(mant@);
    }
    let e: i128 = if exp_negative {
        -(exp_mag as i128)
    } else {
        exp_mag as i128
    };
    let k: i128 = e - (frac_to - frac_from) as i128 + 8;
    let w = scaled_magnitude(&mant, k);
    proof {
        lemma_exponent_cap(
            m,
            mant@.len(),
            (frac_to - frac_from) as int,
            exponent_value(t@),
            exp_negative,
            exp_mag as int,
        );
    }
    Some((sign_at == 1 && t[0] == '-', w))
}

/// Reads `t` as a decimal number in units of `10^-8`.
pub fn parse_decimal(t: &Vec<char>) -> (r: Result<i64, NumberError>)
    ensures
        r == decimal_outcome(t@),
{
    match decimal_magnitude(t) {
        None => Err(NumberError::Malformed),
        Some((_, None)) => Err(NumberError::OutOfRange),
        Some((neg, Some((high, low)))) => {
            if high > 92_233_720_368 {
                return Err(NumberError::OutOfRange);
            }
            let mag: i128 = high as i128 * 100_000_000 + low as i128;
            if neg {
                if mag <= 9_223_372_036_854_775_808 {
                    Ok((0 - mag) as i64)
                } else {
                    Err(NumberError::OutOfRange)
                }
            } else {
                if mag <= 9_223_372_036_854_775_807 {
                    Ok(mag as i64)
                } else {
                    Err(NumberError::OutOfRange)
                }
            }
        },
    }
}

pub open spec fn digit_char(d: int) -> char {
    (('0' as int) + d) as char
}

/// The decimal digits of `n`, without leading zeros (`"0"` for zero).
pub open spec fn decimal_text(n: nat) -> Seq<char>
    decreases n,
{
    if n < 10 {
        seq![digit_char(n as int)]
    } else {
        decimal_text(n / 10).push(digit_char((n % 10) as int))
    }
}

/// The last `w` decimal digits of `n`, with leading zeros.
pub open spec fn padded_text(n: nat, w: nat) -> Seq<char>
    decreases w,
{
    if w == 0 {
        Seq::empty()
    } else {
        padded_text(n / 10, (w - 1) as nat).push(digit_char((n % 10) as int))
    }
}

/// A number of `10^-8` units in fixed notation with exactly eight fractional digits.
pub open spec fn fixed_text(u: int) -> Seq<char> {
    let a = if u < 0 {
        -u
    } else {
        u
    };
    let sign = if u < 0 {
        seq!['-']
    } else {
        Seq::empty()
    };
    sign + decimal_text((a / pow10(8)) as nat) + seq!['.'] + padded_text(
        (a % pow10(8)) as nat,
        8,
    )
}

fn digit_to_char(d: u128) -> (c: char)
    requires
        d < 10,
    ensures
        c == digit_char(d as int),
{
    (48u8 + d as u8) as char
}

fn push_decimal(s: &mut String, n: u128)
    ensures
        final(s)@ == old(s)@ + decimal_text(n as nat),
    decreases n,
{
    if n < 10 {
        push_char(s, digit_to_char(n));
    } else {
        push_decimal(s, n / 10);
        push_char(s, digit_to_char(n % 10));
    }
}

fn push_padded(s: &mut String, n: u128, w: usize)
    ensures
        final(s)@ == old(s)@ + padded_text(n as nat, w as nat),
    decreases w,
{
    if w == 0 {
        assert(old(s)@ + padded_text(n as nat, 0) == old(s)@);
    } else {
        push_padded(s, n / 10, w - 1);
        push_char(s, digit_to_char(n % 10));
    }
}

/// Writes `high * 10^8 + low` units, negated where `negative`, in fixed notation with eight
/// fractional digits.
pub fn format_wide(negative: bool, high: u128, low: u64) -> (r: String)
    requires
        low < 100_000_000,
    ensures
        r@ == fixed_text(
            if negative {
                -(high * 100_000_000 + low)
            } else {
                high * 100_000_000 + low
            },
        ),
{
    let ghost a = high * 100_000_000 + low;
    proof {
        reveal_with_fuel(pow10, 9);
        vstd::arithmetic::div_mod::lemma_fundamental_div_mod_converse(
            a,
            100_000_000,
            high as int,
            low as int,
        );
    }
    let mut r = String::new();
    if negative && (high > 0 || low > 0) {
        push_char(&mut r, '-');
    }
    push_decimal(&mut r, high);
    push_char(&mut r, '.');
    push_padded(&mut r, low as u128, 8);
    r
}

/// Writes a number of `10^-8` units in fixed notation with eight fractional digits.
pub fn format_units(u: i64) -> (r: String)
    ensures
        r@ == fixed_text(u as int),
{
    let a: u64 = if u < 0 {
        (0 - u as i128) as u64
    } else {
        u as u64
    };
    format_wide(u < 0, (a / 100_000_000) as u128, a % 100_000_000)
}

pub proof fn lemma_mantissa_nonneg(t: Seq<char>)
    requires
        is_decimal(t),
    ensures
        digits_value(mantissa_digits(t)) >= 0,
{
    lemma_digit_run(t, sign_end(t));
    if has_point(t) {
        lemma_digit_run(t, frac_start(t));
    }
    let md = mantissa_digits(t);
    let a = t.subrange(sign_end(t), int_end(t));
    assert forall|i: int| 0 <= i < md.len() implies is_digit(#[trigger] md[i]) by {
        if i < a.len() {
            assert(md[i] == t[sign_end(t) + i]);
        } else {
            assert(md[i] == t[frac_start(t) + i - a.len()]);
        }
    }
    lemma_digits_bounds(md);
}

/// `q` is `m * 10^k` rounded to the nearest integer: exact for `k >= 0`, within half of one
/// for `k < 0`.
pub open spec fn rounds_to(m: int, k: int, q: int) -> bool {
    if k >= 0 {
        q == m * pow10(k as nat)
    } else {
        let p = pow10((-k) as nat);
        -p <= 2 * (q * p - m) <= p
    }
}

/// Rounding to units is as close as the last place allows.
pub proof fn lemma_scaled_round_close(m: int, k: int)
    requires
        m >= 0,
    ensures
        rounds_to(m, k, scaled_round(m, k)),
{
    if k < 0 {
        let j = (-k) as nat;
        let h = pow10((j - 1) as nat);
        lemma_pow10_positive((j - 1) as nat);
        assert(pow10(j) == 10 * h);
        let q = scaled_round(m, k);
        vstd::arithmetic::div_mod::lemma_fundamental_div_mod(m + 5 * h, 10 * h);
        let r = (m + 5 * h) % (10 * h);
        vstd::arithmetic::div_mod::lemma_mod_bound(m + 5 * h, 10 * h);
        assert(m + 5 * h == (10 * h) * q + r);
        assert(-(10 * h) <= 2 * (q * (10 * h) - m) <= 10 * h) by (nonlinear_arith)
            requires m + 5 * h == (10 * h) * q + r, 0 <= r < 10 * h;
    }
}

pub open spec fn is_plain_char(c: char) -> bool {
    is_digit(c) || c == '-' || c == '.'
}

pub open spec fn all_plain(s: Seq<char>) -> bool {
    forall|i: int| 0 <= i < s.len() ==> is_plain_char(#[trigger] s[i])
}

proof fn lemma_decimal_text_digits(n: nat)
    ensures
        all_digits(decimal_text(n)),
        decimal_text(n).len() >= 1,
    decreases n,
{
    if n >= 10 {
        lemma_decimal_text_digits(n / 10);
    }
}

proof fn lemma_padded_text_digits(n: nat, w: nat)
    ensures
        all_digits(padded_text(n, w)),
        padded_text(n, w).len() == w,
    decreases w,
{
    if w > 0 {
        lemma_padded_text_digits(n / 10, (w - 1) as nat);
    }
}

/// Fixed-notation text is made of digits, a point and perhaps a minus sign, and ends in a
/// point followed by exactly eight digits.
pub proof fn lemma_fixed_text_shape(u: int)
    ensures
        all_plain(fixed_text(u)),
        fixed_text(u).len() >= 10,
        fixed_text(u)[fixed_text(u).len() - 9] == '.',
        forall|i: int|
            fixed_text(u).len() - 8 <= i < fixed_text(u).len() ==> is_digit(
                #[trigger] fixed_text(u)[i],
            ),
{
    let a = if u < 0 {
        -u
    } else {
        u
    };
    lemma_pow10_positive(8);
    let hi = decimal_text((a / pow10(8)) as nat);
    let lo = padded_text((a % pow10(8)) as nat, 8);
    lemma_decimal_text_digits((a / pow10(8)) as nat);
    lemma_padded_text_digits((a % pow10(8)) as nat, 8);
    let sign = if u < 0 {
        seq!['-']
    } else {
        Seq::<char>::empty()
    };
    let s = fixed_text(u);
    assert(s == sign + hi + seq!['.'] + lo);
    let n = s.len();
    assert(n == sign.len() + hi.len() + 1 + 8);
    assert forall|i: int| 0 <= i < n implies is_plain_char(#[trigger] s[i]) by {
        if i < sign.len() {
            assert(s[i] == '-');
        } else if i < sign.len() + hi.len() {
            assert(s[i] == hi[i - sign.len()]);
        } else if i == sign.len() + hi.len() {
            assert(s[i] == '.');
        } else {
            assert(s[i] == lo[i - sign.len() - hi.len() - 1]);
        }
    }
    assert(s[n - 9] == '.');
    assert forall|i: int| n - 8 <= i < n implies is_digit(#[trigger] s[i]) by {
        assert(s[i] == lo[i - sign.len() - hi.len() - 1]);
    }
}

} // verus!
