//! Exact decimal ratios.
//!
//! Field texts are parsed into signed rationals held as a sign, a numerator
//! and a positive denominator.  Every arithmetic step is exact; a step whose
//! components would no longer fit in the machine words reports that instead
//! of silently losing precision, and the engine then blanks the target field.
//! [`ratio_to_text`] renders a ratio back to decimal text, keeping up to six
//! fractional digits (the value is truncated toward zero beyond those).

use vstd::prelude::*;
use crate::text::{find_digit_end, is_digit, lemma_norm_fixed, lemma_scan_digit, norm, scan_digit};

verus! {

/// A signed rational: `num / den`, negated when `neg` is set.
pub struct Ratio {
    pub neg: bool,
    pub num: u128,
    pub den: u128,
}

impl Ratio {
    /// A ratio is well formed when its denominator is positive.
    pub open spec fn wf(self) -> bool {
        self.den >= 1
    }
}

/// The mathematical rational a `Ratio` stands for, with an unbounded
/// numerator and denominator.
pub struct Rat {
    pub num: int,
    pub den: int,
}

/// The signed numerator of a `Ratio`.
pub open spec fn signed_num(r: Ratio) -> int {
    if r.neg {
        -(r.num as int)
    } else {
        r.num as int
    }
}

/// The exact value a `Ratio` carries.
pub open spec fn rat_of(r: Ratio) -> Rat {
    Rat { num: signed_num(r), den: r.den as int }
}

/// Two rationals denote the same value.
pub open spec fn rat_eq(a: Rat, b: Rat) -> bool {
    a.num * b.den == b.num * a.den
}

pub open spec fn rmul(a: Rat, b: Rat) -> Rat {
    Rat { num: a.num * b.num, den: a.den * b.den }
}

pub open spec fn rdiv(a: Rat, b: Rat) -> Rat {
    if b.num >= 0 {
        Rat { num: a.num * b.den, den: a.den * b.num }
    } else {
        Rat { num: -(a.num * b.den), den: -(a.den * b.num) }
    }
}

pub open spec fn rsub(a: Rat, b: Rat) -> Rat {
    Rat { num: a.num * b.den - b.num * a.den, den: a.den * b.den }
}

pub open spec fn rat_hundred() -> Rat {
    Rat { num: 100, den: 1 }
}

/// The ratio standing for an unparsable or unrepresentable text: exact zero.
pub open spec fn zero_ratio() -> Ratio {
    Ratio { neg: false, num: 0, den: 1 }
}

pub open spec fn one_ratio() -> Ratio {
    Ratio { neg: false, num: 1, den: 1 }
}

pub open spec fn hundred_ratio() -> Ratio {
    Ratio { neg: false, num: 100, den: 1 }
}

/// Whether the exact product still fits the component words.
pub open spec fn mul_fits(a: Ratio, b: Ratio) -> bool {
    a.num * b.num <= u128::MAX && a.den * b.den <= u128::MAX
}

pub open spec fn spec_mul(a: Ratio, b: Ratio) -> Ratio {
    Ratio { neg: a.neg != b.neg, num: (a.num * b.num) as u128, den: (a.den * b.den) as u128 }
}

/// Whether the exact quotient still fits the component words.
pub open spec fn div_fits(a: Ratio, b: Ratio) -> bool {
    a.num * b.den <= u128::MAX && a.den * b.num <= u128::MAX
}

pub open spec fn spec_div(a: Ratio, b: Ratio) -> Ratio {
    Ratio { neg: a.neg != b.neg, num: (a.num * b.den) as u128, den: (a.den * b.num) as u128 }
}

/// Whether the exact difference still fits the component words.
pub open spec fn sub_fits(a: Ratio, b: Ratio) -> bool {
    &&& a.num * b.den <= u128::MAX
    &&& b.num * a.den <= u128::MAX
    &&& a.den * b.den <= u128::MAX
    &&& (a.neg == b.neg || a.num * b.den + b.num * a.den <= u128::MAX)
}

pub open spec fn spec_sub(a: Ratio, b: Ratio) -> Ratio {
    let d = signed_num(a) * b.den - signed_num(b) * a.den;
    Ratio {
        neg: d < 0,
        num: (if d < 0 {
            -d
        } else {
            d
        }) as u128,
        den: (a.den * b.den) as u128,
    }
}

/// Exact product; `None` when a component would overflow.
pub fn ratio_mul(a: &Ratio, b: &Ratio) -> (r: Option<Ratio>)
    requires
        a.wf(),
        b.wf(),
    ensures
        r is Some <==> mul_fits(*a, *b),
        r matches Some(c) ==> c == spec_mul(*a, *b) && c.wf() && rat_of(c) == rmul(
            rat_of(*a),
            rat_of(*b),
        ),
{
    let nn = a.num.checked_mul(b.num);
    let dd = a.den.checked_mul(b.den);
    if let (Some(n), Some(d)) = (nn, dd) {
        let c = Ratio { neg: a.neg != b.neg, num: n, den: d };
        proof {
            assert(d >= 1) by (nonlinear_arith)
                requires
                    d == a.den * b.den,
                    a.den >= 1,
                    b.den >= 1,
            ;
            assert(signed_num(c) == signed_num(*a) * signed_num(*b)) by (nonlinear_arith)
                requires
                    c.num == a.num * b.num,
                    c.neg == (a.neg != b.neg),
                    signed_num(c) == if c.neg {
                        -(c.num as int)
                    } else {
                        c.num as int
                    },
                    signed_num(*a) == if a.neg {
                        -(a.num as int)
                    } else {
                        a.num as int
                    },
                    signed_num(*b) == if b.neg {
                        -(b.num as int)
                    } else {
                        b.num as int
                    },
            ;
        }
        Some(c)
    } else {
        None
    }
}

/// Exact quotient `a / b`; `None` when a component would overflow.
pub fn ratio_div(a: &Ratio, b: &Ratio) -> (r: Option<Ratio>)
    requires
        a.wf(),
        b.wf(),
        b.num >= 1,
    ensures
        r is Some <==> div_fits(*a, *b),
        r matches Some(c) ==> c == spec_div(*a, *b) && c.wf() && rat_of(c) == rdiv(
            rat_of(*a),
            rat_of(*b),
        ),
{
    let nn = a.num.checked_mul(b.den);
    let dd = a.den.checked_mul(b.num);
    if let (Some(n), Some(d)) = (nn, dd) {
        let c = Ratio { neg: a.neg != b.neg, num: n, den: d };
        proof {
            assert(d >= 1) by (nonlinear_arith)
                requires
                    d == a.den * b.num,
                    a.den >= 1,
                    b.num >= 1,
            ;
            lemma_div_value(*a, *b, c);
        }
        Some(c)
    } else {
        None
    }
}

proof fn lemma_div_value(a: Ratio, b: Ratio, c: Ratio)
    requires
        a.wf(),
        b.wf(),
        b.num >= 1,
        c.neg == (a.neg != b.neg),
        c.num == a.num * b.den,
        c.den == a.den * b.num,
    ensures
        rat_of(c) == rdiv(rat_of(a), rat_of(b)),
{
    let ra = rat_of(a);
    let rb = rat_of(b);
    if b.neg {
        assert(rb.num < 0 || b.num == 0);
        assert(-(ra.num * rb.den) == signed_num(c)) by (nonlinear_arith)
            requires
                ra.num == -(a.num as int) || ra.num == a.num as int,
                ra.num == signed_num(a),
                rb.den == b.den as int,
                signed_num(a) == if a.neg {
                    -(a.num as int)
                } else {
                    a.num as int
                },
                signed_num(c) == if c.neg {
                    -(c.num as int)
                } else {
                    c.num as int
                },
                c.num == a.num * b.den,
                c.neg == (a.neg != b.neg),
                b.neg,
        ;
        assert(-(ra.den * rb.num) == c.den as int) by (nonlinear_arith)
            requires
                ra.den == a.den as int,
                rb.num == -(b.num as int),
                c.den == a.den * b.num,
        ;
    } else {
        assert(ra.num * rb.den == signed_num(c)) by (nonlinear_arith)
            requires
                rb.den == b.den as int,
                signed_num(a) == ra.num,
                signed_num(a) == if a.neg {
                    -(a.num as int)
                } else {
                    a.num as int
                },
                signed_num(c) == if c.neg {
                    -(c.num as int)
                } else {
                    c.num as int
                },
                c.num == a.num * b.den,
                c.neg == (a.neg != b.neg),
                !b.neg,
        ;
        assert(ra.den * rb.num == c.den as int) by (nonlinear_arith)
            requires
                ra.den == a.den as int,
                rb.num == b.num as int,
                c.den == a.den * b.num,
        ;
    }
}

/// Exact difference `a - b`; `None` when a component would overflow.
pub fn ratio_sub(a: &Ratio, b: &Ratio) -> (r: Option<Ratio>)
    requires
        a.wf(),
        b.wf(),
    ensures
        r is Some <==> sub_fits(*a, *b),
        r matches Some(c) ==> c == spec_sub(*a, *b) && c.wf() && rat_of(c) == rsub(
            rat_of(*a),
            rat_of(*b),
        ),
{
    let xx = a.num.checked_mul(b.den);
    let yy = b.num.checked_mul(a.den);
    let dd = a.den.checked_mul(b.den);
    if let (Some(x), Some(y), Some(d)) = (xx, yy, dd) {
        proof {
            assert(d >= 1) by (nonlinear_arith)
                requires
                    d == a.den * b.den,
                    a.den >= 1,
                    b.den >= 1,
            ;
            assert(signed_num(*a) * b.den == if a.neg {
                -(x as int)
            } else {
                x as int
            }) by (nonlinear_arith)
                requires
                    x == a.num * b.den,
                    signed_num(*a) == if a.neg {
                        -(a.num as int)
                    } else {
                        a.num as int
                    },
            ;
            assert(signed_num(*b) * a.den == if b.neg {
                -(y as int)
            } else {
                y as int
            }) by (nonlinear_arith)
                requires
                    y == b.num * a.den,
                    signed_num(*b) == if b.neg {
                        -(b.num as int)
                    } else {
                        b.num as int
                    },
            ;
        }
        if a.neg == b.neg {
            let c = if x >= y {
                Ratio { neg: a.neg && x > y, num: x - y, den: d }
            } else {
                Ratio { neg: !a.neg, num: y - x, den: d }
            };
            proof {
                let dv = signed_num(*a) * b.den - signed_num(*b) * a.den;
                assert(signed_num(c) == dv && c.num == (if dv < 0 { -dv } else { dv }));
            }
            Some(c)
        } else {
            if let Some(s) = x.checked_add(y) {
                let c = if a.neg {
                    Ratio { neg: s > 0, num: s, den: d }
                } else {
                    Ratio { neg: false, num: s, den: d }
                };
                proof {
                    let dv = signed_num(*a) * b.den - signed_num(*b) * a.den;
                    assert(signed_num(c) == dv && c.num == (if dv < 0 { -dv } else { dv }));
                }
                Some(c)
            } else {
                None
            }
        }
    } else {
        None
    }
}

/// `d == 0` for `'0'` up to `d == 9` for `'9'`.
pub open spec fn digit_val(c: char) -> int {
    if c == '1' {
        1
    } else if c == '2' {
        2
    } else if c == '3' {
        3
    } else if c == '4' {
        4
    } else if c == '5' {
        5
    } else if c == '6' {
        6
    } else if c == '7' {
        7
    } else if c == '8' {
        8
    } else if c == '9' {
        9
    } else {
        0
    }
}

/// The number a digit run denotes, most significant digit first.
pub open spec fn digits_val(s: Seq<char>) -> int
    decreases s.len(),
{
    if s.len() == 0 {
        0
    } else {
        digits_val(s.drop_last()) * 10 + digit_val(s.last())
    }
}

pub open spec fn pow10(n: nat) -> int
    decreases n,
{
    if n == 0 {
        1
    } else {
        10 * pow10((n - 1) as nat)
    }
}

pub proof fn lemma_digits_val_nonneg(s: Seq<char>)
    ensures
        digits_val(s) >= 0,
    decreases s.len(),
{
    if s.len() > 0 {
        lemma_digits_val_nonneg(s.drop_last());
    }
}

/// A longer digit run never denotes a smaller number.
pub proof fn lemma_digits_val_le(s: Seq<char>, i: int, j: int)
    requires
        0 <= i <= j <= s.len(),
    ensures
        digits_val(s.take(i)) <= digits_val(s.take(j)),
    decreases j - i,
{
    if i < j {
        lemma_digits_val_le(s, i, j - 1);
        lemma_digits_val_nonneg(s.take(j - 1));
        assert(s.take(j).drop_last() =~= s.take(j - 1));
        assert(digits_val(s.take(j)) == digits_val(s.take(j - 1)) * 10 + digit_val(
            s.take(j).last(),
        ));
    }
}

pub proof fn lemma_pow10_pos(n: nat)
    ensures
        pow10(n) >= 1,
    decreases n,
{
    if n > 0 {
        lemma_pow10_pos((n - 1) as nat);
    }
}

pub proof fn lemma_pow10_le(i: nat, j: nat)
    requires
        i <= j,
    ensures
        pow10(i) <= pow10(j),
    decreases j - i,
{
    if i < j {
        lemma_pow10_le(i, (j - 1) as nat);
        lemma_pow10_pos((j - 1) as nat);
    }
}

/// Whether the text has the shape `-? digits* (. digits*)?` over its whole
/// length, with at least one digit.
pub open spec fn parse_ok(s: Seq<char>) -> bool {
    let p0 = psign(s);
    let d1 = scan_digit(s, p0);
    if d1 == s.len() {
        d1 > p0
    } else {
        s[d1] == '.' && scan_digit(s, d1 + 1) == s.len() && s.len() >= p0 + 2
    }
}

/// 1 when the text opens with a minus sign.
pub open spec fn psign(s: Seq<char>) -> int {
    if s.len() > 0 && s[0] == '-' {
        1
    } else {
        0
    }
}

/// All digits of the text, the decimal point removed.
pub open spec fn pdigits(s: Seq<char>) -> Seq<char> {
    let p0 = psign(s);
    let d1 = scan_digit(s, p0);
    if d1 == s.len() {
        s.subrange(p0, d1)
    } else {
        s.subrange(p0, d1) + s.subrange(d1 + 1, s.len() as int)
    }
}

/// How many digits follow the decimal point.
pub open spec fn pfrac(s: Seq<char>) -> int {
    let d1 = scan_digit(s, psign(s));
    if d1 == s.len() {
        0
    } else {
        s.len() - d1 - 1
    }
}

/// Whether the denoted value still fits the component words.
pub open spec fn parse_fits(s: Seq<char>) -> bool {
    digits_val(pdigits(s)) <= u128::MAX && pow10(pfrac(s) as nat) <= u128::MAX
}

/// The ratio a field text denotes: sign, digits and scale when the text is a
/// decimal literal that fits, and exact zero otherwise.
pub open spec fn spec_parse(s: Seq<char>) -> Ratio {
    if parse_ok(s) && parse_fits(s) {
        Ratio {
            neg: psign(s) == 1,
            num: digits_val(pdigits(s)) as u128,
            den: pow10(pfrac(s) as nat) as u128,
        }
    } else {
        zero_ratio()
    }
}

fn digit_of(c: char) -> (d: u128)
    requires
        is_digit(c),
    ensures
        d == digit_val(c),
        d <= 9,
{
    match c {
        '1' => 1,
        '2' => 2,
        '3' => 3,
        '4' => 4,
        '5' => 5,
        '6' => 6,
        '7' => 7,
        '8' => 8,
        '9' => 9,
        _ => 0,
    }
}

fn pow10_exec(f: usize) -> (r: Option<u128>)
    ensures
        pow10(f as nat) <= u128::MAX ==> r == Some(pow10(f as nat) as u128),
        pow10(f as nat) > u128::MAX ==> r is None,
{
    let mut den: u128 = 1;
    let mut k: usize = 0;
    while k < f
        invariant
            k <= f,
            den as int == pow10(k as nat),
        decreases f - k,
    {
        proof {
            assert(pow10((k + 1) as nat) == 10 * pow10(k as nat));
        }
        match den.checked_mul(10) {
            Some(d) => {
                den = d;
                k = k + 1;
            },
            None => {
                proof {
                    lemma_pow10_le((k + 1) as nat, f as nat);
                }
                return None;
            },
        }
    }
    Some(den)
}

/// Reads a field text as an exact ratio; an empty, malformed or
/// unrepresentable text reads as zero.
pub fn parse_ratio(s: &str) -> (r: Ratio)
    ensures
        r == spec_parse(s@),
        r.wf(),
{
    let n = s.unicode_len();
    let mut neg = false;
    let mut p0: usize = 0;
    if n > 0 {
        let c0 = s.get_char(0);
        if c0 == '-' {
            neg = true;
            p0 = 1;
        }
    }
    proof {
        assert(psign(s@) == p0 as int);
    }
    let d1 = find_digit_end(s, p0, n);
    let frac_len: usize;
    if d1 == n {
        if d1 == p0 {
            proof {
                assert(!parse_ok(s@));
            }
            return Ratio { neg: false, num: 0, den: 1 };
        }
        frac_len = 0;
    } else {
        let cd = s.get_char(d1);
        if cd != '.' {
            proof {
                assert(!parse_ok(s@));
            }
            return Ratio { neg: false, num: 0, den: 1 };
        }
        let fe = find_digit_end(s, d1 + 1, n);
        if fe != n {
            proof {
                assert(!parse_ok(s@));
            }
            return Ratio { neg: false, num: 0, den: 1 };
        }
        if d1 == p0 && d1 + 1 == n {
            proof {
                assert(!parse_ok(s@));
            }
            return Ratio { neg: false, num: 0, den: 1 };
        }
        frac_len = n - d1 - 1;
    }
    proof {
        assert(parse_ok(s@));
        assert(pfrac(s@) == frac_len as int);
        lemma_scan_digit(s@, p0 as int);
        if d1 < n {
            lemma_scan_digit(s@, d1 + 1);
        }
    }
    let ghost ds = pdigits(s@);
    proof {
        assert(ds.len() == (d1 - p0) + frac_len);
        assert forall|k: int| 0 <= k < d1 - p0 implies ds[k] == s@[p0 + k] by {}
        assert forall|k: int| d1 - p0 <= k < ds.len() implies ds[k] == s@[k + p0 + 1] by {}
    }
    let mut acc: u128 = 0;
    let mut i: usize = p0;
    while i < d1
        invariant
            p0 <= i <= d1 <= n,
            n == s@.len(),
            d1 == scan_digit(s@, p0 as int),
            forall|k: int| p0 <= k < d1 ==> is_digit(#[trigger] s@[k]),
            ds == pdigits(s@),
            parse_ok(s@),
            ds.len() == (d1 - p0) + frac_len,
            forall|k: int| 0 <= k < d1 - p0 ==> #[trigger] ds[k] == s@[p0 + k],
            acc as int == digits_val(ds.take(i - p0)),
        decreases d1 - i,
    {
        let c = s.get_char(i);
        let d = digit_of(c);
        proof {
            assert(ds.take(i + 1 - p0).drop_last() =~= ds.take(i - p0));
            assert(ds.take(i + 1 - p0).last() == s@[i as int]);
            lemma_digits_val_nonneg(ds.take(i - p0));
        }
        let step = acc.checked_mul(10);
        if let Some(a10) = step {
            if let Some(a2) = a10.checked_add(d) {
                acc = a2;
                i = i + 1;
                continue;
            }
        }
        proof {
            assert(digits_val(ds.take(i + 1 - p0)) > u128::MAX);
            lemma_digits_val_le(ds, i + 1 - p0, ds.len() as int);
            assert(ds.take(ds.len() as int) =~= ds);
            assert(!parse_fits(s@));
        }
        return Ratio { neg: false, num: 0, den: 1 };
    }
    if frac_len > 0 {
        let mut j: usize = d1 + 1;
        while j < n
            invariant
                d1 + 1 <= j <= n,
                n == s@.len(),
                p0 <= d1 < n,
                d1 == scan_digit(s@, p0 as int),
                scan_digit(s@, d1 + 1) == n,
                forall|k: int| d1 + 1 <= k < n ==> is_digit(#[trigger] s@[k]),
                ds == pdigits(s@),
                parse_ok(s@),
                ds.len() == (d1 - p0) + (n - d1 - 1),
                forall|k: int| d1 - p0 <= k < ds.len() ==> #[trigger] ds[k] == s@[k + p0 + 1],
                acc as int == digits_val(ds.take(d1 - p0 + (j - d1 - 1))),
            decreases n - j,
        {
            let c = s.get_char(j);
            let d = digit_of(c);
            proof {
                let pl = d1 - p0 + (j - d1 - 1);
                assert(ds.take(pl + 1).drop_last() =~= ds.take(pl));
                assert(ds.take(pl + 1).last() == s@[j as int]);
                lemma_digits_val_nonneg(ds.take(pl));
            }
            let step = acc.checked_mul(10);
            if let Some(a10) = step {
                if let Some(a2) = a10.checked_add(d) {
                    acc = a2;
                    j = j + 1;
                    continue;
                }
            }
            proof {
                let pl = d1 - p0 + (j - d1 - 1);
                assert(digits_val(ds.take(pl + 1)) > u128::MAX);
                lemma_digits_val_le(ds, pl + 1, ds.len() as int);
                assert(ds.take(ds.len() as int) =~= ds);
                assert(!parse_fits(s@));
            }
            return Ratio { neg: false, num: 0, den: 1 };
        }
    }
    proof {
        assert(ds.take(ds.len() as int) =~= ds);
        assert(acc as int == digits_val(ds));
    }
    match pow10_exec(frac_len) {
        Some(den) => {
            proof {
                lemma_pow10_pos(frac_len as nat);
            }
            Ratio { neg, num: acc, den }
        },
        None => {
            proof {
                assert(!parse_fits(s@));
            }
            Ratio { neg: false, num: 0, den: 1 }
        },
    }
}


/// The character for one digit value.
pub open spec fn digit_char(d: int) -> char {
    if d == 1 {
        '1'
    } else if d == 2 {
        '2'
    } else if d == 3 {
        '3'
    } else if d == 4 {
        '4'
    } else if d == 5 {
        '5'
    } else if d == 6 {
        '6'
    } else if d == 7 {
        '7'
    } else if d == 8 {
        '8'
    } else if d == 9 {
        '9'
    } else {
        '0'
    }
}

/// The decimal digits of a nonnegative number, most significant first.
pub open spec fn dec_digits(n: int) -> Seq<char>
    decreases n,
{
    if n < 10 {
        seq![digit_char(n)]
    } else {
        dec_digits(n / 10).push(digit_char(n % 10))
    }
}

/// The digits of `n` left-padded with zeros to width `w`.
pub open spec fn padded(n: int, w: int) -> Seq<char>
    decreases w,
{
    if w <= 1 {
        seq![digit_char(n % 10)]
    } else {
        padded(n / 10, w - 1).push(digit_char(n % 10))
    }
}

/// The fraction value once its trailing zero digits are dropped.
pub open spec fn strip_f(f: int, w: int) -> int
    decreases w,
{
    if w > 1 && f % 10 == 0 {
        strip_f(f / 10, w - 1)
    } else {
        f
    }
}

/// The fraction width once its trailing zero digits are dropped.
pub open spec fn strip_w(f: int, w: int) -> int
    decreases w,
{
    if w > 1 && f % 10 == 0 {
        strip_w(f / 10, w - 1)
    } else {
        w
    }
}

/// The rendered fractional part for a six-digit fraction value: nothing for
/// zero, else a dot and the digits with trailing zeros dropped.
pub open spec fn frac_seq(fr: int) -> Seq<char> {
    if fr == 0 {
        Seq::empty()
    } else {
        seq!['.'] + padded(strip_f(fr, 6), strip_w(fr, 6))
    }
}

/// Largest denominator for which a six-digit fraction is still computed.
pub const MAX_SCALE_DEN: u128 = u128::MAX / 1000000;

/// The decimal text a ratio renders to: sign, whole digits and up to six
/// fractional digits, truncated toward zero; plain `"0"` for zero or for a
/// magnitude that truncates to zero.
pub open spec fn spec_to_text(r: Ratio) -> Seq<char> {
    if r.num == 0 {
        seq!['0']
    } else {
        let whole = r.num as int / r.den as int;
        let fr = if r.den <= MAX_SCALE_DEN {
            ((r.num as int % r.den as int) * 1000000) / r.den as int
        } else {
            0
        };
        if whole == 0 && fr == 0 {
            seq!['0']
        } else {
            (if r.neg {
                seq!['-']
            } else {
                Seq::empty()
            }) + dec_digits(whole) + frac_seq(fr)
        }
    }
}

fn digit_str(d: u128) -> (r: &'static str)
    requires
        d <= 9,
    ensures
        r@ == seq![digit_char(d as int)],
{
    proof {
        reveal_strlit("0");
        reveal_strlit("1");
        reveal_strlit("2");
        reveal_strlit("3");
        reveal_strlit("4");
        reveal_strlit("5");
        reveal_strlit("6");
        reveal_strlit("7");
        reveal_strlit("8");
        reveal_strlit("9");
    }
    let r: &'static str = if d == 0 {
        "0"
    } else if d == 1 {
        "1"
    } else if d == 2 {
        "2"
    } else if d == 3 {
        "3"
    } else if d == 4 {
        "4"
    } else if d == 5 {
        "5"
    } else if d == 6 {
        "6"
    } else if d == 7 {
        "7"
    } else if d == 8 {
        "8"
    } else {
        "9"
    };
    proof {
        assert(r@ =~= seq![digit_char(d as int)]);
    }
    r
}

pub(crate) fn dec_digits_str(n: u128) -> (r: String)
    ensures
        r@ == dec_digits(n as int),
    decreases n,
{
    if n < 10 {
        String::from_str(digit_str(n))
    } else {
        let mut r = dec_digits_str(n / 10);
        r.append(digit_str(n % 10));
        proof {
            assert(r@ =~= dec_digits(n as int));
        }
        r
    }
}

fn padded_str(n: u128, w: usize) -> (r: String)
    requires
        w >= 1,
    ensures
        r@ == padded(n as int, w as int),
    decreases w,
{
    if w == 1 {
        String::from_str(digit_str(n % 10))
    } else {
        let mut r = padded_str(n / 10, w - 1);
        r.append(digit_str(n % 10));
        proof {
            assert(r@ =~= padded(n as int, w as int));
        }
        r
    }
}

/// Renders a ratio as canonical decimal text.
pub fn ratio_to_text(r: &Ratio) -> (out: String)
    requires
        r.wf(),
    ensures
        out@ == spec_to_text(*r),
{
    if r.num == 0 {
        proof {
            reveal_strlit("0");
            assert("0"@ =~= seq!['0']);
        }
        return String::from_str("0");
    }
    let whole = r.num / r.den;
    let rem = r.num % r.den;
    let fr: u128 = if r.den <= MAX_SCALE_DEN {
        proof {
            assert(MAX_SCALE_DEN * 1000000 <= u128::MAX);
            assert(rem < r.den);
            assert(rem * 1000000 <= MAX_SCALE_DEN * 1000000);
        }
        (rem * 1000000) / r.den
    } else {
        0
    };
    if whole == 0 && fr == 0 {
        proof {
            reveal_strlit("0");
            assert("0"@ =~= seq!['0']);
        }
        return String::from_str("0");
    }
    let mut out: String = if r.neg {
        proof {
            reveal_strlit("-");
            assert("-"@ =~= seq!['-']);
        }
        String::from_str("-")
    } else {
        String::new()
    };
    let wd = dec_digits_str(whole);
    out.append(wd.as_str());
    if fr != 0 {
        let mut f6: u128 = fr;
        let mut width: usize = 6;
        loop
            invariant
                1 <= width <= 6,
                strip_f(fr as int, 6) == strip_f(f6 as int, width as int),
                strip_w(fr as int, 6) == strip_w(f6 as int, width as int),
            ensures
                f6 as int == strip_f(fr as int, 6),
                width as int == strip_w(fr as int, 6),
                1 <= width <= 6,
            decreases width,
        {
            if width == 1 || f6 % 10 != 0 {
                break;
            }
            f6 = f6 / 10;
            width = width - 1;
        }
        proof {
            reveal_strlit(".");
            assert("."@ =~= seq!['.']);
        }
        out.append(".");
        let fd = padded_str(f6, width);
        out.append(fd.as_str());
    }
    proof {
        assert(out@ =~= spec_to_text(*r));
    }
    out
}

/// The bidirectional consistency law of the before/after projection: scaling
/// a value by a nonzero ratio over one hundred and then dividing the outcome
/// by the same ratio times one hundred yields the value back, exactly.
pub proof fn lemma_round_trip(b: Rat, r: Rat)
    requires
        b.den > 0,
        r.den > 0,
        r.num != 0,
    ensures
        rat_eq(rmul(rdiv(rdiv(rmul(b, r), rat_hundred()), r), rat_hundred()), b),
{
    let after = rdiv(rmul(b, r), rat_hundred());
    assert(after.num == b.num * r.num && after.den == b.den * r.den * 100) by (nonlinear_arith)
        requires
            after == rdiv(rmul(b, r), rat_hundred()),
            rmul(b, r).num == b.num * r.num,
            rmul(b, r).den == b.den * r.den,
            rat_hundred().num == 100,
            rat_hundred().den == 1,
            after.num == rmul(b, r).num * 1,
            after.den == rmul(b, r).den * 100,
    ;
    let q = rdiv(after, r);
    let back = rmul(q, rat_hundred());
    if r.num >= 0 {
        assert(back.num * b.den == b.num * back.den) by (nonlinear_arith)
            requires
                back.num == (b.num * r.num) * r.den * 100,
                back.den == (b.den * r.den * 100) * r.num * 1,
        ;
    } else {
        assert(back.num * b.den == b.num * back.den) by (nonlinear_arith)
            requires
                back.num == -((b.num * r.num) * r.den) * 100,
                back.den == -((b.den * r.den * 100) * r.num) * 1,
        ;
    }
}


proof fn lemma_dec_digits_props(n: int)
    requires
        n >= 0,
    ensures
        dec_digits(n).len() >= 1,
        forall|k: int| 0 <= k < dec_digits(n).len() ==> is_digit(#[trigger] dec_digits(n)[k]),
        n >= 1 ==> dec_digits(n)[0] != '0',
        n == 0 ==> dec_digits(n) =~= seq!['0'],
    decreases n,
{
    if n >= 10 {
        lemma_dec_digits_props(n / 10);
        assert(dec_digits(n) == dec_digits(n / 10).push(digit_char(n % 10)));
    }
}

proof fn lemma_padded_props(n: int, w: int)
    requires
        w >= 1,
    ensures
        padded(n, w).len() == w,
        forall|k: int| 0 <= k < w ==> is_digit(#[trigger] padded(n, w)[k]),
    decreases w,
{
    if w > 1 {
        lemma_padded_props(n / 10, w - 1);
        assert(padded(n, w) == padded(n / 10, w - 1).push(digit_char(n % 10)));
    }
}

proof fn lemma_strip_w_bounds(f: int, w: int)
    requires
        w >= 1,
    ensures
        1 <= strip_w(f, w) <= w,
    decreases w,
{
    if w > 1 && f % 10 == 0 {
        lemma_strip_w_bounds(f / 10, w - 1);
    }
}

/// The engine writes only canonical text: whatever `ratio_to_text` renders
/// is a fixed point of the keystroke normalizer, so normalizing a rendered
/// field never changes it.
pub proof fn lemma_to_text_canonical(r: Ratio)
    requires
        r.wf(),
    ensures
        norm(spec_to_text(r)) == spec_to_text(r),
{
    let zero_text: Seq<char> = seq!['0'];
    if r.num == 0 {
        lemma_norm_fixed(Seq::empty(), zero_text, Seq::empty());
        assert(Seq::<char>::empty() + zero_text + Seq::<char>::empty() =~= zero_text);
    } else {
        let whole = r.num as int / r.den as int;
        let fr = if r.den <= MAX_SCALE_DEN {
            ((r.num as int % r.den as int) * 1000000) / r.den as int
        } else {
            0int
        };
        assert(whole >= 0);
        assert(fr >= 0);
        if whole == 0 && fr == 0 {
            lemma_norm_fixed(Seq::empty(), zero_text, Seq::empty());
            assert(Seq::<char>::empty() + zero_text + Seq::<char>::empty() =~= zero_text);
        } else {
            let sgn: Seq<char> = if r.neg {
                seq!['-']
            } else {
                Seq::empty()
            };
            lemma_dec_digits_props(whole);
            let frs = frac_seq(fr);
            if fr != 0 {
                lemma_strip_w_bounds(fr, 6);
                lemma_padded_props(strip_f(fr, 6), strip_w(fr, 6));
                assert(frs == seq!['.'] + padded(strip_f(fr, 6), strip_w(fr, 6)));
                assert(frs[0] == '.');
                assert forall|k: int| 1 <= k < frs.len() implies is_digit(#[trigger] frs[k]) by {
                    assert(frs[k] == padded(strip_f(fr, 6), strip_w(fr, 6))[k - 1]);
                }
            }
            lemma_norm_fixed(sgn, dec_digits(whole), frs);
            assert(spec_to_text(r) == sgn + dec_digits(whole) + frs);
        }
    }
}

} // verus!
