//! Exact decimal numbers, as they are written in the text of a hit table or
//! of a cutoff table.
use vstd::arithmetic::power::{lemma_pow0, lemma_pow1, lemma_pow_adds, lemma_pow_increases, lemma_pow_positive, pow};
use vstd::prelude::*;

use crate::text::chars_of;

verus! {

/// A number `±mantissa × 10^exponent`, held exactly as written.
#[derive(Clone, Copy, Debug)]
pub struct Decimal {
    pub negative: bool,
    pub mantissa: u64,
    pub exponent: i32,
}

/// The lowest exponent a `Decimal` can carry.
pub open spec fn exponent_floor() -> int {
    i32::MIN as int
}

/// `m × 10^(e - base)`: a magnitude written at the scale `10^base`.
pub open spec fn magnitude_at(m: int, e: int, base: int) -> int {
    m * pow(10, (e - base) as nat)
}

impl Decimal {
    /// The value of the number, times `10^(2^31)`: an integer for every
    /// `Decimal`, so that two numbers compare as their scaled values do.
    pub open spec fn scaled(self) -> int {
        let mag = magnitude_at(self.mantissa as int, self.exponent as int, exponent_floor());
        if self.negative {
            -mag
        } else {
            mag
        }
    }
}

/// `a ≤ b` as numbers.
pub open spec fn dec_le(a: Decimal, b: Decimal) -> bool {
    a.scaled() <= b.scaled()
}

/// `a = b` as numbers (`1e-3` equals `0.001`, and `-0` equals `0`).
pub open spec fn dec_eq(a: Decimal, b: Decimal) -> bool {
    a.scaled() == b.scaled()
}

/// Moving a magnitude `k` places down in scale multiplies it by `10^k`.
proof fn lemma_rescale(m: int, e: int, base: int, k: nat)
    requires
        base <= e,
        0 <= m,
    ensures
        magnitude_at(m, e, base - k) == magnitude_at(m, e, base) * pow(10, k),
        magnitude_at(m, e, base) >= 0,
{
    lemma_pow_adds(10, (e - base) as nat, k);
    assert((e - (base - k)) as nat == (e - base) as nat + k);
    lemma_pow_positive(10, (e - base) as nat);
    assert(m * (pow(10, (e - base) as nat) * pow(10, k)) == (m * pow(10, (e - base) as nat))
        * pow(10, k)) by (nonlinear_arith);
    assert(m * pow(10, (e - base) as nat) >= 0) by (nonlinear_arith)
        requires
            m >= 0,
            pow(10, (e - base) as nat) > 0,
    ;
}

proof fn lemma_scale_monotone(x: int, y: int, p: int)
    requires
        p > 0,
    ensures
        x <= y <==> x * p <= y * p,
        x == y <==> x * p == y * p,
{
    assert(x < y ==> x * p < y * p) by (nonlinear_arith)
        requires
            p > 0,
    ;
    assert(y < x ==> y * p < x * p) by (nonlinear_arith)
        requires
            p > 0,
    ;
}

proof fn lemma_nonzero_product(x: int, p: int)
    requires
        x >= 0,
        p > 0,
    ensures
        x * p >= 0,
        x * p == 0 <==> x == 0,
{
    assert(x * p >= 0) by (nonlinear_arith)
        requires
            x >= 0,
            p > 0,
    ;
    assert(x > 0 ==> x * p > 0) by (nonlinear_arith)
        requires
            p > 0,
    ;
}

/// `m × 10^k`, or `None` where that exceeds `u128::MAX`.
fn scale_up(m: u128, k: u32) -> (r: Option<u128>)
    ensures
        match r {
            Some(v) => v as int == m as int * pow(10, k as nat),
            None => m as int * pow(10, k as nat) > u128::MAX,
        },
{
    if m == 0 {
        assert(0 * pow(10, k as nat) == 0);
        return Some(0);
    }
    let mut p: u128 = 1;
    let mut i: u32 = 0;
    proof { lemma_pow0(10); }
    while i < k
        invariant
            i <= k,
            m > 0,
            p as int == pow(10, i as nat),
        decreases k - i,
    {
        assert(pow(10, (i + 1) as nat) == 10 * pow(10, i as nat)) by {
            lemma_pow_adds(10, i as nat, 1);
            lemma_pow1(10);
        }
        match p.checked_mul(10) {
            Some(q) => {
                p = q;
                i = i + 1;
            },
            None => {
                proof {
                    lemma_pow_increases(10, (i + 1) as nat, k as nat);
                    assert(m as int * pow(10, k as nat) >= pow(10, k as nat)) by (nonlinear_arith)
                        requires
                            m >= 1,
                            pow(10, k as nat) >= 0,
                    ;
                }
                return None;
            },
        }
    }
    m.checked_mul(p)
}

/// Compares `m1 × 10^e1` with `m2 × 10^e2`, where `e1 ≤ e2`.
fn compare_magnitudes(m1: u128, e1: i32, m2: u128, e2: i32) -> (r: core::cmp::Ordering)
    requires
        e1 <= e2,
    ensures
        ({
            let a = magnitude_at(m1 as int, e1 as int, e1 as int);
            let b = magnitude_at(m2 as int, e2 as int, e1 as int);
            &&& (r == core::cmp::Ordering::Less <==> a < b)
            &&& (r == core::cmp::Ordering::Equal <==> a == b)
            &&& (r == core::cmp::Ordering::Greater <==> a > b)
        }),
{
    proof { lemma_pow0(10); }
    let k: u32 = (e2 as i64 - e1 as i64) as u32;
    assert((e2 - e1) as nat == k as nat);
    match scale_up(m2, k) {
        Some(v) => {
            if m1 < v {
                core::cmp::Ordering::Less
            } else if m1 == v {
                core::cmp::Ordering::Equal
            } else {
                core::cmp::Ordering::Greater
            }
        },
        None => core::cmp::Ordering::Less,
    }
}

/// Compares two decimals as numbers.
pub fn compare(a: &Decimal, b: &Decimal) -> (r: core::cmp::Ordering)
    ensures
        r == core::cmp::Ordering::Less <==> a.scaled() < b.scaled(),
        r == core::cmp::Ordering::Equal <==> a.scaled() == b.scaled(),
        r == core::cmp::Ordering::Greater <==> a.scaled() > b.scaled(),
{
    let base = if a.exponent <= b.exponent { a.exponent } else { b.exponent };
    let ghost k = (base as int - exponent_floor()) as nat;
    let ghost ma = magnitude_at(a.mantissa as int, a.exponent as int, base as int);
    let ghost mb = magnitude_at(b.mantissa as int, b.exponent as int, base as int);
    proof {
        lemma_rescale(a.mantissa as int, a.exponent as int, base as int, k);
        lemma_rescale(b.mantissa as int, b.exponent as int, base as int, k);
        assert(base - k == exponent_floor());
        lemma_pow_positive(10, k);
        lemma_scale_monotone(ma, mb, pow(10, k));
        lemma_scale_monotone(mb, ma, pow(10, k));
        lemma_scale_monotone(-ma, -mb, pow(10, k));
        lemma_scale_monotone(-mb, -ma, pow(10, k));
        assert((-ma) * pow(10, k) == -(ma * pow(10, k))) by (nonlinear_arith);
        assert((-mb) * pow(10, k) == -(mb * pow(10, k))) by (nonlinear_arith);
        lemma_pow_positive(10, (a.exponent - base) as nat);
        lemma_pow_positive(10, (b.exponent - base) as nat);
        lemma_nonzero_product(a.mantissa as int, pow(10, (a.exponent - base) as nat));
        lemma_nonzero_product(b.mantissa as int, pow(10, (b.exponent - base) as nat));
        lemma_nonzero_product(ma, pow(10, k));
        lemma_nonzero_product(mb, pow(10, k));
        assert(a.scaled() == if a.negative { -(ma * pow(10, k)) } else { ma * pow(10, k) });
        assert(b.scaled() == if b.negative { -(mb * pow(10, k)) } else { mb * pow(10, k) });
    }
    let mag = if a.exponent <= b.exponent {
        compare_magnitudes(a.mantissa as u128, a.exponent, b.mantissa as u128, b.exponent)
    } else {
        match compare_magnitudes(b.mantissa as u128, b.exponent, a.mantissa as u128, a.exponent) {
            core::cmp::Ordering::Less => core::cmp::Ordering::Greater,
            core::cmp::Ordering::Equal => core::cmp::Ordering::Equal,
            core::cmp::Ordering::Greater => core::cmp::Ordering::Less,
        }
    };
    match (a.negative, b.negative) {
        (false, false) => mag,
        (true, true) => match mag {
            core::cmp::Ordering::Less => core::cmp::Ordering::Greater,
            core::cmp::Ordering::Equal => core::cmp::Ordering::Equal,
            core::cmp::Ordering::Greater => core::cmp::Ordering::Less,
        },
        (false, true) => if a.mantissa == 0 && b.mantissa == 0 {
            core::cmp::Ordering::Equal
        } else {
            core::cmp::Ordering::Greater
        },
        (true, false) => if a.mantissa == 0 && b.mantissa == 0 {
            core::cmp::Ordering::Equal
        } else {
            core::cmp::Ordering::Less
        },
    }
}

/// `count`, written at the scale of `Decimal::scaled`.
pub open spec fn count_scaled(count: int) -> int {
    magnitude_at(count, 0, exponent_floor())
}

/// `p × total`, written at the scale of `Decimal::scaled`.
pub open spec fn threshold_scaled(total: int, p: Decimal) -> int {
    p.scaled() * total
}

/// Compares the fraction `count / total` with `p`, without division: as
/// `count` against `p × total`. For `total = 0` the fraction counts as equal
/// to `p` when `count` is zero too.
pub fn compare_fraction(count: u64, total: u64, p: &Decimal) -> (r: core::cmp::Ordering)
    ensures
        r == core::cmp::Ordering::Less <==> count_scaled(count as int) < threshold_scaled(total as int, *p),
        r == core::cmp::Ordering::Equal <==> count_scaled(count as int) == threshold_scaled(total as int, *p),
        r == core::cmp::Ordering::Greater <==> count_scaled(count as int) > threshold_scaled(total as int, *p),
{
    let ghost fl = exponent_floor();
    let ghost mp = magnitude_at(p.mantissa as int, p.exponent as int, fl);
    let ghost mk = magnitude_at(count as int, 0, fl);
    proof {
        lemma_pow_positive(10, (p.exponent - fl) as nat);
        lemma_pow_positive(10, (0 - fl) as nat);
        lemma_nonzero_product(p.mantissa as int, pow(10, (p.exponent - fl) as nat));
        lemma_nonzero_product(count as int, pow(10, (0 - fl) as nat));
        assert(mp >= 0 && mk >= 0);
    }
    if p.negative || p.mantissa == 0 || total == 0 {
        proof {
            if total == 0 {
                assert(p.scaled() * total == 0);
            } else {
                if p.mantissa == 0 {
                    assert(mp == 0);
                }
                assert(p.scaled() <= 0);
                assert(p.scaled() * total <= 0) by (nonlinear_arith)
                    requires
                        p.scaled() <= 0,
                        total >= 0,
                ;
                if p.mantissa > 0 {
                    assert(mp > 0);
                    assert(p.scaled() * total < 0) by (nonlinear_arith)
                        requires
                            p.scaled() < 0,
                            total > 0,
                    ;
                }
            }
            if count > 0 {
                assert(mk > 0);
            } else {
                assert(mk == 0);
            }
        }
        let zero_threshold = total == 0 || p.mantissa == 0;
        return if count == 0 && zero_threshold {
            core::cmp::Ordering::Equal
        } else {
            core::cmp::Ordering::Greater
        };
    }
    assert(p.mantissa as int * total as int <= u128::MAX) by (nonlinear_arith)
        requires
            p.mantissa <= u64::MAX,
            total <= u64::MAX,
    ;
    let pm: u128 = p.mantissa as u128 * total as u128;
    let base: i32 = if 0 <= p.exponent { 0 } else { p.exponent };
    let ghost k = (base - fl) as nat;
    let ghost a = magnitude_at(pm as int, p.exponent as int, base as int);
    let ghost b = magnitude_at(count as int, 0, base as int);
    proof {
        lemma_rescale(pm as int, p.exponent as int, base as int, k);
        lemma_rescale(count as int, 0, base as int, k);
        assert(base - k == fl);
        lemma_pow_positive(10, k);
        lemma_scale_monotone(a, b, pow(10, k));
        lemma_scale_monotone(b, a, pow(10, k));
        let q = pow(10, (p.exponent - fl) as nat);
        assert(p.scaled() == p.mantissa * q);
        assert((p.mantissa * q) * total == (p.mantissa * total) * q) by (nonlinear_arith);
        assert(p.scaled() * total == magnitude_at(pm as int, p.exponent as int, fl));
    }
    if 0 <= p.exponent {
        compare_magnitudes(count as u128, 0, pm, p.exponent)
    } else {
        match compare_magnitudes(pm, p.exponent, count as u128, 0) {
            core::cmp::Ordering::Less => core::cmp::Ordering::Greater,
            core::cmp::Ordering::Equal => core::cmp::Ordering::Equal,
            core::cmp::Ordering::Greater => core::cmp::Ordering::Less,
        }
    }
}

pub open spec fn is_digit(c: char) -> bool {
    '0' <= c && c <= '9'
}

pub open spec fn digit_value(c: char) -> nat {
    (c as int - '0' as int) as nat
}

pub open spec fn all_digits(s: Seq<char>) -> bool {
    forall|i: int| 0 <= i < s.len() ==> is_digit(#[trigger] s[i])
}

/// The number that a run of decimal digits spells.
pub open spec fn digits_value(s: Seq<char>) -> nat
    decreases s.len(),
{
    if s.len() == 0 {
        0
    } else {
        digits_value(s.drop_last()) * 10 + digit_value(s.last())
    }
}

/// How many digits `s` starts with.
pub open spec fn lead_digits(s: Seq<char>) -> nat
    decreases s.len(),
{
    if s.len() > 0 && is_digit(s[0]) {
        1 + lead_digits(s.drop_first())
    } else {
        0
    }
}

/// The length of an optional leading `+` or `-`.
pub open spec fn sign_len(s: Seq<char>) -> nat {
    if s.len() > 0 && (s[0] == '-' || s[0] == '+') {
        1
    } else {
        0
    }
}

pub open spec fn starts_negative(s: Seq<char>) -> bool {
    s.len() > 0 && s[0] == '-'
}

/// The exponent part of a number: nothing at all, or `e` or `E` followed by
/// an optional sign and one or more digits.
pub open spec fn exponent_of(t: Seq<char>) -> Option<int> {
    if t.len() == 0 {
        Some(0)
    } else if t[0] == 'e' || t[0] == 'E' {
        let u = t.drop_first();
        let d = u.skip(sign_len(u) as int);
        if d.len() > 0 && all_digits(d) {
            Some(
                if starts_negative(u) {
                    -digits_value(d)
                } else {
                    digits_value(d) as int
                },
            )
        } else {
            None
        }
    } else {
        None
    }
}

/// The sign, mantissa and exponent that a number written
/// `[sign] digits [. digits] [e [sign] digits]` stands for, with at least
/// one digit before the exponent part; `None` for any other text.
pub open spec fn decimal_parts(s: Seq<char>) -> Option<(bool, int, int)> {
    let body = s.skip(sign_len(s) as int);
    let ni = lead_digits(body);
    let int_part = body.take(ni as int);
    let rest = body.skip(ni as int);
    let has_dot = rest.len() > 0 && rest[0] == '.';
    let after = if has_dot {
        rest.drop_first()
    } else {
        rest
    };
    let nf = if has_dot {
        lead_digits(after)
    } else {
        0
    };
    let frac = after.take(nf as int);
    let tail = after.skip(nf as int);
    if ni + nf == 0 {
        None
    } else {
        match exponent_of(tail) {
            Some(e) => Some((starts_negative(s), digits_value(int_part + frac) as int, e - nf)),
            None => None,
        }
    }
}

/// The `Decimal` that the text `s` spells, where it is a number and its
/// mantissa and exponent fit the type.
pub open spec fn decimal_of(s: Seq<char>) -> Option<Decimal> {
    match decimal_parts(s) {
        Some((neg, m, e)) => if 0 <= m <= u64::MAX && i32::MIN <= e <= i32::MAX {
            Some(Decimal { negative: neg, mantissa: m as u64, exponent: e as i32 })
        } else {
            None
        },
        None => None,
    }
}

proof fn lemma_lead_digits(s: Seq<char>, i: int)
    requires
        0 <= i <= s.len(),
        forall|j: int| 0 <= j < i ==> is_digit(#[trigger] s[j]),
        i == s.len() || !is_digit(s[i]),
    ensures
        lead_digits(s) == i,
    decreases i,
{
    if i > 0 {
        lemma_lead_digits(s.drop_first(), i - 1);
    }
}

proof fn lemma_digits_push(acc: Seq<char>, c: char)
    ensures
        digits_value(acc.push(c)) == digits_value(acc) * 10 + digit_value(c),
        digits_value(acc.push(c)) >= digits_value(acc),
{
    assert(acc.push(c).drop_last() =~= acc);
}

fn is_digit_char(c: char) -> (r: bool)
    ensures
        r == is_digit(c),
{
    '0' <= c && c <= '9'
}

/// Reads a run of digits of `cs` from `start` on, and adds them to the
/// number that `acc` spells.
fn scan_digits(cs: &Vec<char>, start: usize, m0: u128, big0: bool, Ghost(acc0): Ghost<Seq<char>>) -> (r: (usize, u128, bool))
    requires
        start <= cs.len(),
        !big0 ==> m0 == digits_value(acc0),
        big0 ==> digits_value(acc0) > u128::MAX,
    ensures
        start <= r.0 <= cs.len(),
        forall|j: int| start <= j < r.0 ==> is_digit(#[trigger] cs@[j]),
        r.0 == cs.len() || !is_digit(cs@[r.0 as int]),
        lead_digits(cs@.skip(start as int)) == r.0 - start,
        !r.2 ==> r.1 == digits_value(acc0 + cs@.subrange(start as int, r.0 as int)),
        r.2 ==> digits_value(acc0 + cs@.subrange(start as int, r.0 as int)) > u128::MAX,
{
    let mut pos = start;
    let mut m = m0;
    let mut big = big0;
    while pos < cs.len() && is_digit_char(cs[pos])
        invariant
            start <= pos <= cs.len(),
            forall|j: int| start <= j < pos ==> is_digit(#[trigger] cs@[j]),
            !big ==> m == digits_value(acc0 + cs@.subrange(start as int, pos as int)),
            big ==> digits_value(acc0 + cs@.subrange(start as int, pos as int)) > u128::MAX,
        decreases cs.len() - pos,
    {
        let c = cs[pos];
        let d = (c as u32 - '0' as u32) as u128;
        proof {
            let acc = acc0 + cs@.subrange(start as int, pos as int);
            lemma_digits_push(acc, c);
            assert(acc0 + cs@.subrange(start as int, pos + 1) =~= acc.push(c));
        }
        if !big {
            match m.checked_mul(10) {
                Some(x) => match x.checked_add(d) {
                    Some(y) => {
                        m = y;
                    },
                    None => {
                        big = true;
                    },
                },
                None => {
                    big = true;
                },
            }
        }
        pos = pos + 1;
    }
    proof {
        lemma_lead_digits(cs@.skip(start as int), pos - start);
    }
    (pos, m, big)
}

proof fn lemma_parts(s: Seq<char>, sl: int, p1: int, fs: int, p2: int)
    requires
        sl == sign_len(s),
        sl <= p1 <= s.len(),
        lead_digits(s.skip(sl)) == p1 - sl,
        fs == (if p1 < s.len() && s[p1] == '.' { p1 + 1 } else { p1 }),
        fs <= p2 <= s.len(),
        fs > p1 ==> lead_digits(s.skip(fs)) == p2 - fs,
        fs == p1 ==> p2 == p1,
    ensures
        decimal_parts(s) == (if (p1 - sl) + (p2 - fs) == 0 {
            None
        } else {
            match exponent_of(s.skip(p2)) {
                Some(e) => Some(
                    (
                        starts_negative(s),
                        digits_value(s.subrange(sl, p1) + s.subrange(fs, p2)) as int,
                        e - (p2 - fs),
                    ),
                ),
                None => None,
            }
        }),
{
    let body = s.skip(sl);
    assert(body.take(p1 - sl) =~= s.subrange(sl, p1));
    assert(body.skip(p1 - sl) =~= s.skip(p1));
    if fs > p1 {
        assert(s.skip(p1).drop_first() =~= s.skip(fs));
        assert(s.skip(fs).take(p2 - fs) =~= s.subrange(fs, p2));
        assert(s.skip(fs).skip(p2 - fs) =~= s.skip(p2));
    } else {
        assert(s.subrange(fs, p2) =~= Seq::<char>::empty());
        assert(s.subrange(sl, p1) + s.subrange(fs, p2) =~= s.subrange(sl, p1));
        assert(s.skip(p1).take(0) =~= s.subrange(fs, p2));
        assert(s.skip(p1).skip(0) =~= s.skip(p2));
    }
}

/// Reads the exponent part that starts at `start` and runs to the end of `cs`.
/// `Some((negative, digits))` where it is well formed and its magnitude is at
/// most `2 × u64::MAX`.
fn read_exponent(cs: &Vec<char>, start: usize) -> (r: Option<(bool, u128)>)
    requires
        start <= cs.len(),
    ensures
        match exponent_of(cs@.skip(start as int)) {
            None => r is None,
            Some(e) => match r {
                Some((neg, v)) => v <= 2 * (u64::MAX as int) && e == (if neg {
                    -(v as int)
                } else {
                    v as int
                }),
                None => e > 2 * (u64::MAX as int) || e < -2 * (u64::MAX as int),
            },
        },
{
    let n = cs.len();
    let ghost t = cs@.skip(start as int);
    if start == n {
        return Some((false, 0));
    }
    if cs[start] != 'e' && cs[start] != 'E' {
        return None;
    }
    let us = start + 1;
    let ghost u = cs@.skip(us as int);
    assert(t.drop_first() =~= u);
    let neg = us < n && cs[us] == '-';
    let ds: usize = if us < n && (cs[us] == '-' || cs[us] == '+') {
        us + 1
    } else {
        us
    };
    let ghost d = cs@.skip(ds as int);
    assert(u.skip(sign_len(u) as int) =~= d);
    let (p3, e3, big3) = scan_digits(cs, ds, 0, false, Ghost(Seq::empty()));
    if p3 == ds || p3 < n {
        proof {
            if p3 < n {
                assert(!is_digit(d[p3 - ds]));
            }
        }
        return None;
    }
    proof {
        assert(Seq::<char>::empty() + cs@.subrange(ds as int, p3 as int) =~= d);
    }
    if big3 || e3 > 2 * (u64::MAX as u128) {
        return None;
    }
    Some((neg, e3))
}

/// Reads a number written `[sign] digits [. digits] [e [sign] digits]`.
/// `None` where `s` is no such number, or where its mantissa does not fit
/// in 64 bits or its exponent in 32.
#[verifier::rlimit(60)]
#[verifier::spinoff_prover]
pub fn parse_decimal(s: &str) -> (r: Option<Decimal>)
    ensures
        r == decimal_of(s@),
{
    let cs = chars_of(s);
    let n = cs.len();
    let negative = n > 0 && cs[0] == '-';
    let sl: usize = if n > 0 && (cs[0] == '-' || cs[0] == '+') {
        1
    } else {
        0
    };
    let (p1, m1, big1) = scan_digits(&cs, sl, 0, false, Ghost(Seq::empty()));
    let ghost int_part = cs@.subrange(sl as int, p1 as int);
    assert(Seq::<char>::empty() + int_part =~= int_part);
    let has_dot = p1 < n && cs[p1] == '.';
    let fs: usize = if has_dot {
        p1 + 1
    } else {
        p1
    };
    let (p2, m2, big2) = if has_dot {
        scan_digits(&cs, fs, m1, big1, Ghost(int_part))
    } else {
        assert(int_part + cs@.subrange(fs as int, p1 as int) =~= int_part);
        (p1, m1, big1)
    };
    proof {
        lemma_parts(cs@, sl as int, p1 as int, fs as int, p2 as int);
    }
    if p2 - fs + p1 - sl == 0 {
        return None;
    }
    let (eneg, ev) = match read_exponent(&cs, p2) {
        Some(x) => x,
        None => {
            return None;
        },
    };
    if big2 || m2 > u64::MAX as u128 {
        return None;
    }
    let nf = (p2 - fs) as i128;
    let total: i128 = if eneg {
        -(ev as i128) - nf
    } else {
        ev as i128 - nf
    };
    if total < i32::MIN as i128 || total > i32::MAX as i128 {
        return None;
    }
    Some(Decimal { negative, mantissa: m2 as u64, exponent: total as i32 })
}

} // verus!
