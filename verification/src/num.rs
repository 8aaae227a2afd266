//! Decimal numbers.
//!
//! Script values carry numbers as exact decimals: a mantissa together with a
//! count of fraction digits, so the value of `Num { m, s }` is `m / 10^s`.
//! A well-formed number is normalized (no trailing zero fraction digits, and
//! zero has scale zero), which makes the representation of each value unique:
//! two well-formed numbers are equal exactly when their values are.

use vstd::prelude::*;

verus! {

/// Largest admissible count of fraction digits.
pub const MAX_SCALE: u32 = 9;

/// Exclusive bound on the magnitude of a mantissa.
pub const MANT_LIMIT: i64 = 1_000_000_000_000_000;

/// Fraction digits carried by the result of a division.
pub const DIV_SCALE: u32 = 9;

/// A decimal number with value `m / 10^s`.
#[derive(Clone, Copy, Debug, PartialEq, Eq, Structural)]
pub struct Num {
    /// Mantissa.
    pub m: i64,
    /// Scale: how many of the mantissa's digits lie behind the decimal point.
    pub s: u32,
}

/// An unbounded decimal, used to state what the bounded operations compute.
pub struct Dec {
    pub m: int,
    pub s: nat,
}

pub open spec fn pow10(e: nat) -> int
    decreases e,
{
    if e == 0 {
        1
    } else {
        10 * pow10((e - 1) as nat)
    }
}

/// A well-formed number: bounded and normalized.
pub open spec fn num_wf(n: Num) -> bool {
    &&& -MANT_LIMIT < n.m < MANT_LIMIT
    &&& n.s <= MAX_SCALE
    &&& (n.s > 0 ==> n.m % 10 != 0)
    &&& (n.m == 0 ==> n.s == 0)
}

/// The unbounded decimal a number stands for.
pub open spec fn dec_of(n: Num) -> Dec {
    Dec { m: n.m as int, s: n.s as nat }
}

/// Normalization: strip trailing zero fraction digits; zero has scale zero.
pub open spec fn norm(m: int, s: nat) -> Dec
    decreases s,
{
    if m == 0 {
        Dec { m: 0, s: 0 }
    } else if s == 0 {
        Dec { m: m, s: 0 }
    } else if m % 10 == 0 {
        norm(m / 10, (s - 1) as nat)
    } else {
        Dec { m: m, s: s }
    }
}

/// Whether an unbounded decimal fits the bounded representation.
pub open spec fn dec_fits(d: Dec) -> bool {
    &&& -MANT_LIMIT < d.m < MANT_LIMIT
    &&& d.s <= MAX_SCALE
}

pub proof fn lemma_pow10_pos(e: nat)
    ensures
        pow10(e) >= 1,
    decreases e,
{
    if e > 0 {
        lemma_pow10_pos((e - 1) as nat);
    }
}

pub proof fn lemma_pow10_le(a: nat, b: nat)
    requires
        a <= b,
    ensures
        pow10(a) <= pow10(b),
    decreases b,
{
    if a < b {
        lemma_pow10_le(a, (b - 1) as nat);
        lemma_pow10_pos((b - 1) as nat);
    }
}

pub proof fn lemma_pow10_add(a: nat, b: nat)
    ensures
        pow10(a + b) == pow10(a) * pow10(b),
    decreases a,
{
    if a == 0 {
    } else {
        lemma_pow10_add((a - 1) as nat, b);
        assert(pow10(a + b) == 10 * pow10(((a - 1) + b) as nat));
        assert(10 * (pow10((a - 1) as nat) * pow10(b)) == (10 * pow10((a - 1) as nat)) * pow10(
            b,
        )) by (nonlinear_arith);
    }
}

/// A well-formed number is already in normal form.
pub proof fn lemma_norm_of_wf(n: Num)
    requires
        num_wf(n),
    ensures
        norm(n.m as int, n.s as nat) == dec_of(n),
{
}

/// Normalizing a negated mantissa negates the normalized mantissa.
pub proof fn lemma_norm_neg(m: int, s: nat)
    ensures
        norm(-m, s) == (Dec { m: -norm(m, s).m, s: norm(m, s).s }),
    decreases s,
{
    if m == 0 {
    } else if s == 0 {
    } else if m % 10 == 0 {
        assert(m == 10 * (m / 10));
        assert((-m) == 10 * (-(m / 10)));
        assert((-m) % 10 == 0 && (-m) / 10 == -(m / 10)) by (nonlinear_arith)
            requires
                (-m) == 10 * (-(m / 10)),
        ;
        lemma_norm_neg(m / 10, (s - 1) as nat);
    } else {
        assert(m == 10 * (m / 10) + m % 10);
        assert((-m) % 10 != 0) by (nonlinear_arith)
            requires
                m % 10 != 0,
        ;
    }
}

/// What normalization guarantees of its result.
pub proof fn lemma_norm_props(m: int, s: nat)
    ensures
        norm(m, s).s > 0 ==> norm(m, s).m % 10 != 0,
        norm(m, s).m == 0 ==> norm(m, s).s == 0,
        norm(m, s).s <= s,
        m > 0 ==> norm(m, s).m > 0,
        m < 0 ==> norm(m, s).m < 0,
        m == 0 ==> norm(m, s).m == 0,
    decreases s,
{
    if m == 0 {
    } else if s == 0 {
    } else if m % 10 == 0 {
        assert(((m / 10 > 0) <==> (m > 0)) && ((m / 10 < 0) <==> (m < 0)) && m / 10 != 0) by (nonlinear_arith)
            requires
                m % 10 == 0,
                m != 0,
        ;
        lemma_norm_props(m / 10, (s - 1) as nat);
    } else {
    }
}

/// Negation preserves indivisibility by ten.
pub proof fn lemma_neg_mod10(x: int)
    requires
        x % 10 != 0,
    ensures
        (-x) % 10 != 0,
{
    assert((-x) % 10 != 0) by (nonlinear_arith)
        requires
            x % 10 != 0,
    ;
}

/// Bounds of a product, for overflow reasoning.
pub proof fn lemma_mul_bounds(x: int, y: int, bx: int, by: int)
    requires
        -bx <= x <= bx,
        0 <= y <= by,
        0 <= bx,
    ensures
        -(bx * by) <= x * y <= bx * by,
{
    assert(-(bx * by) <= x * y <= bx * by) by (nonlinear_arith)
        requires
            -bx <= x <= bx,
            0 <= y <= by,
            0 <= bx,
    ;
}

/// `10^e`, exactly, for the exponents the arithmetic uses.
pub fn pow10_u128(e: u32) -> (r: u128)
    requires
        e <= 27,
    ensures
        r as int == pow10(e as nat),
{
    proof {
        assert(pow10(27) == 1000000000000000000000000000) by {
            reveal_with_fuel(pow10, 28);
        }
    }
    let mut r: u128 = 1;
    let mut i: u32 = 0;
    while i < e
        invariant
            i <= e <= 27,
            r as int == pow10(i as nat),
            pow10(27) == 1000000000000000000000000000,
        decreases e - i,
    {
        proof {
            lemma_pow10_le(i as nat + 1, 27);
            lemma_pow10_pos(i as nat);
        }
        r = r * 10;
        i = i + 1;
    }
    r
}

/// Strip trailing zero digits from a nonnegative mantissa.
fn norm_mag(mag: u128, s: u32) -> (r: (u128, u32))
    ensures
        r.0 as int == norm(mag as int, s as nat).m,
        r.1 as nat == norm(mag as int, s as nat).s,
{
    if mag == 0 {
        return (0, 0);
    }
    let mut m = mag;
    let mut sc = s;
    while sc > 0 && m % 10 == 0
        invariant
            m != 0,
            norm(m as int, sc as nat) == norm(mag as int, s as nat),
        decreases sc,
    {
        let ghost m0 = m as int;
        m = m / 10;
        sc = sc - 1;
        proof {
            assert(m as int != 0 && m0 / 10 == m as int) by (nonlinear_arith)
                requires
                    m as int == m0 / 10,
                    m0 % 10 == 0,
                    m0 != 0,
                    m0 >= 0,
            ;
        }
    }
    (m, sc)
}

/// Assemble a sign, magnitude and scale into a normalized bounded number.
///
/// Returns `None` when the normalized decimal does not fit the bounds.
fn build_num(neg: bool, mag: u128, s: u32) -> (r: Option<Num>)
    ensures
        ({
            let sm = if neg {
                -(mag as int)
            } else {
                mag as int
            };
            let d = norm(sm, s as nat);
            match r {
                Option::Some(n) => num_wf(n) && dec_of(n) == d,
                Option::None => !dec_fits(d),
            }
        }),
{
    let (m2, s2) = norm_mag(mag, s);
    proof {
        lemma_norm_neg(mag as int, s as nat);
        lemma_norm_props(mag as int, s as nat);
        if norm(mag as int, s as nat).m % 10 != 0 {
            lemma_neg_mod10(norm(mag as int, s as nat).m);
        }
    }
    if s2 <= MAX_SCALE && m2 < MANT_LIMIT as u128 {
        let m_abs = m2 as i64;
        let m_signed: i64 = if neg {
            -m_abs
        } else {
            m_abs
        };
        Option::Some(Num { m: m_signed, s: s2 })
    } else {
        Option::None
    }
}

/// The exact (unbounded) sum of two decimals.
pub open spec fn dec_add(a: Num, b: Num) -> Dec {
    Dec {
        m: a.m * pow10(b.s as nat) + b.m * pow10(a.s as nat),
        s: (a.s + b.s) as nat,
    }
}

/// The exact (unbounded) difference of two decimals.
pub open spec fn dec_sub(a: Num, b: Num) -> Dec {
    Dec {
        m: a.m * pow10(b.s as nat) - b.m * pow10(a.s as nat),
        s: (a.s + b.s) as nat,
    }
}

/// The exact (unbounded) product of two decimals.
pub open spec fn dec_mul(a: Num, b: Num) -> Dec {
    Dec { m: a.m * b.m, s: (a.s + b.s) as nat }
}

/// The truncated quotient of two decimals, carried to `DIV_SCALE` extra
/// fraction digits.
pub open spec fn dec_div(a: Num, b: Num) -> Dec
    recommends
        b.m != 0,
{
    let q = abs(a.m as int) * pow10((b.s + DIV_SCALE) as nat) / abs(b.m as int);
    let sm = if (a.m < 0) == (b.m < 0) {
        q
    } else {
        -q
    };
    Dec { m: sm, s: (a.s + DIV_SCALE) as nat }
}

pub open spec fn abs(x: int) -> int {
    if x < 0 {
        -x
    } else {
        x
    }
}

/// Bounds used by the arithmetic below.
proof fn lemma_operand_bounds(a: Num, b: Num)
    requires
        num_wf(a),
        num_wf(b),
    ensures
        1 <= pow10(a.s as nat) <= 1000000000,
        1 <= pow10(b.s as nat) <= 1000000000,
        -1000000000000000000000000 <= a.m * pow10(b.s as nat) <= 1000000000000000000000000,
        -1000000000000000000000000 <= b.m * pow10(a.s as nat) <= 1000000000000000000000000,
{
    assert(pow10(9) == 1000000000) by {
        reveal_with_fuel(pow10, 10);
    }
    lemma_pow10_pos(a.s as nat);
    lemma_pow10_pos(b.s as nat);
    lemma_pow10_le(a.s as nat, 9);
    lemma_pow10_le(b.s as nat, 9);
    lemma_mul_bounds(a.m as int, pow10(b.s as nat), MANT_LIMIT as int, 1000000000);
    lemma_mul_bounds(b.m as int, pow10(a.s as nat), MANT_LIMIT as int, 1000000000);
    assert(MANT_LIMIT as int * 1000000000 == 1000000000000000000000000);
}

/// Split a signed 128-bit value into sign and magnitude.
fn sign_mag(x: i128) -> (r: (bool, u128))
    requires
        x != i128::MIN,
    ensures
        r.0 == (x < 0),
        r.1 as int == abs(x as int),
{
    if x < 0 {
        (true, (-x) as u128)
    } else {
        (false, x as u128)
    }
}

/// Value comparison of two decimals.
pub open spec fn num_lt(a: Num, b: Num) -> bool {
    a.m * pow10(b.s as nat) < b.m * pow10(a.s as nat)
}

impl Num {
    /// The number zero.
    pub fn zero() -> (r: Num)
        ensures
            r == (Num { m: 0, s: 0 }),
            num_wf(r),
    {
        Num { m: 0, s: 0 }
    }

    /// Exact sum, or `None` when it falls outside the representable range.
    pub fn checked_add(self, other: Num) -> (r: Option<Num>)
        requires
            num_wf(self),
            num_wf(other),
        ensures
            ({
                let d = norm(dec_add(self, other).m, dec_add(self, other).s);
                match r {
                    Option::Some(n) => num_wf(n) && dec_of(n) == d,
                    Option::None => !dec_fits(d),
                }
            }),
    {
        proof {
            lemma_operand_bounds(self, other);
        }
        let pa = pow10_u128(other.s) as i128;
        let pb = pow10_u128(self.s) as i128;
        let sum: i128 = (self.m as i128) * pa + (other.m as i128) * pb;
        let (neg, mag) = sign_mag(sum);
        build_num(neg, mag, self.s + other.s)
    }

    /// Exact difference, or `None` when it falls outside the range.
    pub fn checked_sub(self, other: Num) -> (r: Option<Num>)
        requires
            num_wf(self),
            num_wf(other),
        ensures
            ({
                let d = norm(dec_sub(self, other).m, dec_sub(self, other).s);
                match r {
                    Option::Some(n) => num_wf(n) && dec_of(n) == d,
                    Option::None => !dec_fits(d),
                }
            }),
    {
        proof {
            lemma_operand_bounds(self, other);
        }
        let pa = pow10_u128(other.s) as i128;
        let pb = pow10_u128(self.s) as i128;
        let diff: i128 = (self.m as i128) * pa - (other.m as i128) * pb;
        let (neg, mag) = sign_mag(diff);
        build_num(neg, mag, self.s + other.s)
    }

    /// Exact product, or `None` when it falls outside the range.
    pub fn checked_mul(self, other: Num) -> (r: Option<Num>)
        requires
            num_wf(self),
            num_wf(other),
        ensures
            ({
                let d = norm(dec_mul(self, other).m, dec_mul(self, other).s);
                match r {
                    Option::Some(n) => num_wf(n) && dec_of(n) == d,
                    Option::None => !dec_fits(d),
                }
            }),
    {
        proof {
            lemma_mul_bounds(
                self.m as int,
                abs(other.m as int),
                MANT_LIMIT as int,
                MANT_LIMIT as int,
            );
            assert((self.m as int) * (other.m as int) == -((self.m as int) * abs(
                other.m as int,
            )) || (self.m as int) * (other.m as int) == (self.m as int) * abs(other.m as int))
                by (nonlinear_arith);
        }
        let prod: i128 = (self.m as i128) * (other.m as i128);
        let (neg, mag) = sign_mag(prod);
        build_num(neg, mag, self.s + other.s)
    }

    /// Quotient truncated to `DIV_SCALE` extra fraction digits, or `None`
    /// for division by zero or an out-of-range result.
    pub fn checked_div(self, other: Num) -> (r: Option<Num>)
        requires
            num_wf(self),
            num_wf(other),
        ensures
            other.m == 0 ==> r is None,
            other.m != 0 ==> ({
                let d = norm(dec_div(self, other).m, dec_div(self, other).s);
                match r {
                    Option::Some(n) => num_wf(n) && dec_of(n) == d,
                    Option::None => !dec_fits(d),
                }
            }),
    {
        if other.m == 0 {
            return Option::None;
        }
        proof {
            lemma_pow10_pos((other.s + DIV_SCALE) as nat);
            lemma_pow10_le((other.s + DIV_SCALE) as nat, 18);
            assert(pow10(18) == 1000000000000000000) by {
                reveal_with_fuel(pow10, 19);
            }
            lemma_mul_bounds(
                abs(self.m as int),
                pow10((other.s + DIV_SCALE) as nat),
                MANT_LIMIT as int,
                1000000000000000000,
            );
        }
        let ma: u128 = if self.m < 0 {
            (-(self.m as i128)) as u128
        } else {
            self.m as u128
        };
        let mb: u128 = if other.m < 0 {
            (-(other.m as i128)) as u128
        } else {
            other.m as u128
        };
        let p = pow10_u128(other.s + DIV_SCALE);
        let q: u128 = (ma * p) / mb;
        proof {
            assert(q as int == abs(self.m as int) * pow10((other.s + DIV_SCALE) as nat) / abs(
                other.m as int,
            ));
        }
        let neg = (self.m < 0) != (other.m < 0);
        build_num(neg, q, self.s + DIV_SCALE)
    }

    /// Strictly-less comparison of the represented values.
    pub fn lt(self, other: Num) -> (r: bool)
        requires
            num_wf(self),
            num_wf(other),
        ensures
            r == num_lt(self, other),
    {
        proof {
            lemma_operand_bounds(self, other);
        }
        let pa = pow10_u128(other.s) as i128;
        let pb = pow10_u128(self.s) as i128;
        (self.m as i128) * pa < (other.m as i128) * pb
    }

    /// Strictly-greater comparison of the represented values.
    pub fn gt(self, other: Num) -> (r: bool)
        requires
            num_wf(self),
            num_wf(other),
        ensures
            r == num_lt(other, self),
    {
        other.lt(self)
    }

    /// A number from a plain integer mantissa.
    pub fn from_int(m: i64) -> (r: Option<Num>)
        ensures
            -MANT_LIMIT < m < MANT_LIMIT ==> r == Option::Some(Num { m: m, s: 0 }),
            !(-MANT_LIMIT < m < MANT_LIMIT) ==> r is None,
            r is Some ==> num_wf(r.unwrap()),
    {
        if -MANT_LIMIT < m && m < MANT_LIMIT {
            Option::Some(Num { m: m, s: 0 })
        } else {
            Option::None
        }
    }
}

pub open spec fn is_digit(c: char) -> bool {
    '0' <= c && c <= '9'
}

pub open spec fn digit_val(c: char) -> int {
    (c as u32) - ('0' as u32)
}

pub open spec fn all_digits(s: Seq<char>) -> bool {
    forall|i: int| 0 <= i < s.len() ==> is_digit(#[trigger] s[i])
}

/// The value of a digit string, most significant digit first.
pub open spec fn digits_val(s: Seq<char>) -> int
    decreases s.len(),
{
    if s.len() == 0 {
        0
    } else {
        digits_val(s.drop_last()) * 10 + digit_val(s.last())
    }
}

pub open spec fn strip_trailing_zeros(s: Seq<char>) -> Seq<char>
    decreases s.len(),
{
    if s.len() > 0 && s.last() == '0' {
        strip_trailing_zeros(s.drop_last())
    } else {
        s
    }
}

pub open spec fn dot_count(s: Seq<char>) -> nat
    decreases s.len(),
{
    if s.len() == 0 {
        0
    } else {
        dot_count(s.drop_last()) + (if s.last() == '.' {
            1nat
        } else {
            0nat
        })
    }
}

/// The number a sign and validated digit parts denote, if it is in range.
pub open spec fn num_finish(neg: bool, ip: Seq<char>, fp: Seq<char>) -> Option<Num> {
    let fq = strip_trailing_zeros(fp);
    let mv = digits_val(ip + fq);
    if mv == 0 {
        Option::Some(Num { m: 0, s: 0 })
    } else if mv < MANT_LIMIT as int && fq.len() <= MAX_SCALE as nat {
        Option::Some(
            Num {
                m: (if neg {
                    -mv
                } else {
                    mv
                }) as i64,
                s: fq.len() as u32,
            },
        )
    } else {
        Option::None
    }
}

/// The number a raw token denotes: an optional sign, then decimal digits
/// with at most one point and at least one digit, in representable range.
pub open spec fn num_of_chars(s: Seq<char>) -> Option<Num> {
    if s.len() == 0 {
        Option::None
    } else {
        let neg = s[0] == '-';
        let t = if s[0] == '-' || s[0] == '+' {
            s.subrange(1, s.len() as int)
        } else {
            s
        };
        if dot_count(t) == 0 {
            if t.len() >= 1 && all_digits(t) {
                num_finish(neg, t, Seq::empty())
            } else {
                Option::None
            }
        } else if dot_count(t) == 1 {
            let i = choose|i: int| 0 <= i < t.len() && t[i] == '.';
            let ip = t.subrange(0, i);
            let fp = t.subrange(i + 1, t.len() as int);
            if all_digits(ip) && all_digits(fp) && ip.len() + fp.len() >= 1 {
                num_finish(neg, ip, fp)
            } else {
                Option::None
            }
        } else {
            Option::None
        }
    }
}

pub open spec fn digit_char(v: int) -> char {
    if v == 0 {
        '0'
    } else if v == 1 {
        '1'
    } else if v == 2 {
        '2'
    } else if v == 3 {
        '3'
    } else if v == 4 {
        '4'
    } else if v == 5 {
        '5'
    } else if v == 6 {
        '6'
    } else if v == 7 {
        '7'
    } else if v == 8 {
        '8'
    } else {
        '9'
    }
}

/// The shortest digit string of a value.
pub open spec fn dec_str(v: nat) -> Seq<char>
    decreases v,
{
    if v < 10 {
        seq![digit_char(v as int)]
    } else {
        dec_str(v / 10).push(digit_char((v % 10) as int))
    }
}

/// A digit string of exactly `w` digits (the value taken modulo `10^w`).
pub open spec fn dec_str_pad(v: nat, w: nat) -> Seq<char>
    decreases w,
{
    if w == 0 {
        Seq::empty()
    } else {
        dec_str_pad(v / 10, (w - 1) as nat).push(digit_char((v % 10) as int))
    }
}

/// The canonical text of a number: sign, integer digits, and — for a
/// positive scale — a point and exactly `s` fraction digits.
pub open spec fn num_string(n: Num) -> Seq<char> {
    let a = abs(n.m as int) as nat;
    let ip = a / (pow10(n.s as nat) as nat);
    let f = a % (pow10(n.s as nat) as nat);
    let sign: Seq<char> = if n.m < 0 {
        seq!['-']
    } else {
        Seq::empty()
    };
    let frac: Seq<char> = if n.s == 0 {
        Seq::empty()
    } else {
        seq!['.'] + dec_str_pad(f, n.s as nat)
    };
    sign + dec_str(ip) + frac
}

pub proof fn lemma_digits_val_nonneg(s: Seq<char>)
    requires
        all_digits(s),
    ensures
        digits_val(s) >= 0,
    decreases s.len(),
{
    if s.len() > 0 {
        lemma_digits_val_nonneg(s.drop_last());
        assert(is_digit(s[s.len() - 1]));
        assert(digits_val(s.drop_last()) * 10 >= 0);
    }
}

pub proof fn lemma_digits_val_push(s: Seq<char>, c: char)
    ensures
        digits_val(s.push(c)) == digits_val(s) * 10 + digit_val(c),
{
    assert(s.push(c).drop_last() =~= s);
    assert(s.push(c).last() == c);
}

pub proof fn lemma_dot_count_push(s: Seq<char>, c: char)
    ensures
        dot_count(s.push(c)) == dot_count(s) + (if c == '.' {
            1nat
        } else {
            0nat
        }),
{
    assert(s.push(c).drop_last() =~= s);
}

pub proof fn lemma_dot_count_append(a: Seq<char>, b: Seq<char>)
    ensures
        dot_count(a + b) == dot_count(a) + dot_count(b),
    decreases b.len(),
{
    if b.len() == 0 {
        assert(a + b =~= a);
    } else {
        lemma_dot_count_append(a, b.drop_last());
        assert((a + b).drop_last() =~= a + b.drop_last());
        assert((a + b).last() == b.last());
    }
}

/// No dots is the same as a zero dot count.
pub proof fn lemma_dot_count_zero(s: Seq<char>)
    requires
        forall|i: int| 0 <= i < s.len() ==> s[i] != '.',
    ensures
        dot_count(s) == 0,
    decreases s.len(),
{
    if s.len() > 0 {
        assert(forall|i: int|
            0 <= i < s.drop_last().len() ==> #[trigger] s.drop_last()[i] == s[i]);
        lemma_dot_count_zero(s.drop_last());
        assert(s.last() != '.');
    }
}

/// With exactly one dot, any two dot positions coincide.
pub proof fn lemma_dot_unique(s: Seq<char>, i: int, j: int)
    requires
        dot_count(s) == 1,
        0 <= i < s.len(),
        0 <= j < s.len(),
        s[i] == '.',
        s[j] == '.',
    ensures
        i == j,
{
    if i != j {
        let lo = if i < j {
            i
        } else {
            j
        };
        let hi = if i < j {
            j
        } else {
            i
        };
        let a = s.subrange(0, lo + 1);
        let b = s.subrange(lo + 1, hi + 1);
        let c = s.subrange(hi + 1, s.len() as int);
        assert(s =~= a + b + c);
        lemma_dot_count_append(a + b, c);
        lemma_dot_count_append(a, b);
        lemma_dot_count_last_dot(a);
        lemma_dot_count_last_dot(b);
    }
}

proof fn lemma_dot_count_last_dot(s: Seq<char>)
    requires
        s.len() > 0,
        s.last() == '.',
    ensures
        dot_count(s) >= 1,
{
}

/// Stripping preserves digit-ness and leaves no trailing zero.
pub proof fn lemma_strip_props(s: Seq<char>)
    requires
        all_digits(s),
    ensures
        all_digits(strip_trailing_zeros(s)),
        strip_trailing_zeros(s).len() > 0 ==> strip_trailing_zeros(s).last() != '0',
        strip_trailing_zeros(s).len() <= s.len(),
    decreases s.len(),
{
    if s.len() > 0 && s.last() == '0' {
        assert(forall|i: int|
            0 <= i < s.drop_last().len() ==> #[trigger] s.drop_last()[i] == s[i]);
        lemma_strip_props(s.drop_last());
    }
}

/// The last digit is the value modulo ten.
pub proof fn lemma_digits_val_mod(s: Seq<char>)
    requires
        all_digits(s),
        s.len() > 0,
    ensures
        digits_val(s) % 10 == digit_val(s.last()),
{
    assert(forall|i: int| 0 <= i < s.drop_last().len() ==> #[trigger] s.drop_last()[i] == s[i]);
    lemma_digits_val_nonneg(s.drop_last());
    assert(is_digit(s.last()));
    let prev = digits_val(s.drop_last());
    let d = digit_val(s.last());
    assert((prev * 10 + d) % 10 == d) by (nonlinear_arith)
        requires
            prev >= 0,
            0 <= d < 10,
    ;
}

/// Digits other than `'0'` have a nonzero value.
pub proof fn lemma_nonzero_digit(c: char)
    requires
        is_digit(c),
        c != '0',
    ensures
        1 <= digit_val(c) <= 9,
{
}

/// A successfully parsed number is well formed.
pub proof fn lemma_num_finish_wf(neg: bool, ip: Seq<char>, fp: Seq<char>)
    requires
        all_digits(ip),
        all_digits(fp),
    ensures
        num_finish(neg, ip, fp) is Some ==> num_wf(num_finish(neg, ip, fp).unwrap()),
{
    let fq = strip_trailing_zeros(fp);
    lemma_strip_props(fp);
    let full = ip + fq;
    assert(all_digits(full)) by {
        assert(forall|i: int| 0 <= i < ip.len() ==> full[i] == ip[i]);
        assert(forall|i: int|
            ip.len() <= i < full.len() ==> #[trigger] full[i] == fq[i - ip.len()]);
    }
    lemma_digits_val_nonneg(full);
    let mv = digits_val(full);
    if mv != 0 && mv < MANT_LIMIT as int && fq.len() <= MAX_SCALE as nat {
        if fq.len() > 0 {
            assert(full.len() > 0 && full.last() == fq.last());
            lemma_digits_val_mod(full);
            lemma_nonzero_digit(fq.last());
            if neg {
                lemma_neg_mod10(mv);
            }
        }
    }
}

/// A successfully parsed number is well formed.
pub proof fn lemma_num_of_chars_wf(s: Seq<char>)
    ensures
        num_of_chars(s) is Some ==> num_wf(num_of_chars(s).unwrap()),
{
    if s.len() > 0 {
        let neg = s[0] == '-';
        let t = if s[0] == '-' || s[0] == '+' {
            s.subrange(1, s.len() as int)
        } else {
            s
        };
        if dot_count(t) == 0 {
            if t.len() >= 1 && all_digits(t) {
                lemma_num_finish_wf(neg, t, Seq::empty());
            }
        } else if dot_count(t) == 1 {
            let i = choose|i: int| 0 <= i < t.len() && t[i] == '.';
            let ip = t.subrange(0, i);
            let fp = t.subrange(i + 1, t.len() as int);
            if all_digits(ip) && all_digits(fp) && ip.len() + fp.len() >= 1 {
                lemma_num_finish_wf(neg, ip, fp);
            }
        }
    }
}

pub proof fn lemma_digits_val_append(a: Seq<char>, b: Seq<char>)
    ensures
        digits_val(a + b) == digits_val(a) * pow10(b.len()) + digits_val(b),
    decreases b.len(),
{
    if b.len() == 0 {
        assert(a + b =~= a);
    } else {
        lemma_digits_val_append(a, b.drop_last());
        assert((a + b).drop_last() =~= a + b.drop_last());
        assert((a + b).last() == b.last());
        let va = digits_val(a);
        let vb = digits_val(b.drop_last());
        let p = pow10(b.drop_last().len());
        let d = digit_val(b.last());
        assert(digits_val(a + b) == digits_val(a + b.drop_last()) * 10 + d);
        assert(digits_val(a + b.drop_last()) == va * p + vb);
        assert((va * p + vb) * 10 == va * (10 * p) + vb * 10) by (nonlinear_arith);
        assert(digits_val(b) == vb * 10 + d);
        assert(pow10(b.len()) == 10 * p);
        assert(va * (10 * p) == va * pow10(b.len()));
    }
}

fn is_digit_exec(c: char) -> (r: bool)
    ensures
        r == is_digit(c),
{
    let u = c as u32;
    48 <= u && u <= 57
}

/// Parse a token as a number, per `num_of_chars`.
#[verifier::rlimit(80)]
#[verifier::spinoff_prover]
pub fn num_from_chars(cs: &Vec<char>) -> (r: Option<Num>)
    ensures
        r == num_of_chars(cs@),
        r is Some ==> num_wf(r.unwrap()),
{
    proof {
        lemma_num_of_chars_wf(cs@);
    }
    let n = cs.len();
    if n == 0 {
        return Option::None;
    }
    let c0 = cs[0];
    let neg = c0 == '-';
    let start: usize = if c0 == '-' || c0 == '+' {
        1
    } else {
        0
    };
    let ghost t = cs@.subrange(start as int, n as int);
    proof {
        if start == 0 {
            assert(t =~= cs@);
        }
        assert(t.take(0) =~= Seq::<char>::empty());
    }
    let mut j = start;
    let mut dots: usize = 0;
    let mut dot_pos: usize = 0;
    let mut saw_bad = false;
    let ghost mut bad_idx: int = 0;
    while j < n
        invariant
            start <= j <= n,
            n == cs@.len(),
            start <= 1,
            t == cs@.subrange(start as int, n as int),
            dots <= j,
            dots as nat == dot_count(t.take((j - start) as int)),
            dots >= 1 ==> start <= dot_pos < j && t[dot_pos - start] == '.',
            dots == 0 ==> (forall|k: int| 0 <= k < j - start ==> t[k] != '.'),
            dots == 1 ==> (forall|k: int|
                0 <= k < j - start && k != dot_pos - start ==> t[k] != '.'),
            saw_bad ==> 0 <= bad_idx < j - start && !is_digit(t[bad_idx]) && t[bad_idx] != '.',
            !saw_bad ==> (forall|k: int|
                0 <= k < j - start ==> is_digit(#[trigger] t[k]) || t[k] == '.'),
        decreases n - j,
    {
        let c = cs[j];
        proof {
            assert(t[(j - start) as int] == cs@[j as int]);
        }
        if c == '.' {
            if dots == 0 {
                dot_pos = j;
            }
            dots = dots + 1;
        } else if !is_digit_exec(c) {
            if !saw_bad {
                saw_bad = true;
                proof {
                    bad_idx = (j - start) as int;
                }
            }
        }
        j = j + 1;
        proof {
            assert(t.take((j - start) as int) =~= t.take((j - start - 1) as int).push(
                t[(j - start - 1) as int],
            ));
            lemma_dot_count_push(t.take((j - start - 1) as int), t[(j - start - 1) as int]);
        }
    }
    proof {
        assert(t.take((n - start) as int) =~= t);
    }
    if dots >= 2 {
        return Option::None;
    }
    if start == n {
        return Option::None;
    }
    proof {
        if dots == 1 {
            assert(t[dot_pos - start] == '.');
            let i = choose|i: int| 0 <= i < t.len() && t[i] == '.';
            lemma_dot_unique(t, i, dot_pos - start);
        }
    }
    let ghost spec_dot: int = dot_pos - start;
    if saw_bad {
        proof {
            if dots == 1 {
                let ip = t.subrange(0, spec_dot);
                let fp = t.subrange(spec_dot + 1, t.len() as int);
                if bad_idx < spec_dot {
                    assert(ip[bad_idx] == t[bad_idx]);
                    assert(!all_digits(ip));
                } else {
                    assert(bad_idx > spec_dot);
                    assert(fp[bad_idx - spec_dot - 1] == t[bad_idx]);
                    assert(!all_digits(fp));
                }
            }
        }
        return Option::None;
    }
    if dots == 1 && n - start == 1 {
        proof {
            assert(t.subrange(0, spec_dot).len() + t.subrange(spec_dot + 1, t.len() as int).len()
                == 0);
        }
        return Option::None;
    }
    // Valid shape.  Locate the digit ranges.
    let ip_end: usize = if dots == 1 {
        dot_pos
    } else {
        n
    };
    let fq_lo: usize = if dots == 1 {
        dot_pos + 1
    } else {
        n
    };
    let ghost ip = t.subrange(0, (ip_end - start) as int);
    let ghost fp = if dots == 1 {
        t.subrange(spec_dot + 1, t.len() as int)
    } else {
        Seq::<char>::empty()
    };
    proof {
        if dots == 1 {
            assert(forall|k: int| 0 <= k < fp.len() ==> #[trigger] fp[k] == cs@[fq_lo + k]);
            assert(all_digits(ip));
            assert(all_digits(fp));
        } else {
            assert(ip =~= t);
            assert(all_digits(t));
        }
    }
    // Strip trailing zeros off the fraction.
    let mut e: usize = n;
    if dots == 1 {
        proof {
            assert(fp =~= cs@.subrange(fq_lo as int, n as int));
        }
        while e > fq_lo && cs[e - 1] == '0'
            invariant
                fq_lo <= e <= n,
                n == cs@.len(),
                fq_lo == dot_pos + 1,
                dots == 1,
                fq_lo <= n,
                fp == t.subrange(spec_dot + 1, t.len() as int),
                t == cs@.subrange(start as int, n as int),
                start <= dot_pos,
                spec_dot == dot_pos - start,
                start <= 1,
                forall|k: int| 0 <= k < fp.len() ==> #[trigger] fp[k] == cs@[fq_lo + k],
                strip_trailing_zeros(fp) == strip_trailing_zeros(
                    cs@.subrange(fq_lo as int, e as int),
                ),
            decreases e,
        {
            proof {
                let cur = cs@.subrange(fq_lo as int, e as int);
                assert(cur.last() == cs@[e - 1]);
                assert(cur.drop_last() =~= cs@.subrange(fq_lo as int, e - 1));
            }
            e = e - 1;
        }
    } else {
        e = fq_lo;
    }
    let ghost fq = cs@.subrange(fq_lo as int, e as int);
    proof {
        if dots == 1 {
            if e > fq_lo {
                assert(fq.last() == cs@[e - 1]);
                assert(fq.last() != '0');
            }
            assert(strip_trailing_zeros(fq) == fq);
            assert(strip_trailing_zeros(fp) == fq);
        } else {
            assert(fq =~= Seq::<char>::empty());
            assert(strip_trailing_zeros(fp) == fq);
        }
        assert(forall|k: int| 0 <= k < fq.len() ==> is_digit(#[trigger] fq[k]));
    }
    let scale_len: usize = e - fq_lo;
    // Accumulate the mantissa over the integer and fraction digits.
    let ghost full = ip + fq;
    proof {
        assert(ip.take(0) =~= Seq::<char>::empty());
        assert(full.take(ip.len() as int) =~= ip);
        assert(ip.len() as int == ip.len() + 0);
    }
    let mut mv: u64 = 0;
    let mut too_big = false;
    let mut k = start;
    while k < ip_end
        invariant
            start <= k <= ip_end <= n,
            n == cs@.len(),
            start <= 1,
            t == cs@.subrange(start as int, n as int),
            ip == t.subrange(0, (ip_end - start) as int),
            all_digits(ip),
            !too_big ==> mv as int == digits_val(ip.take((k - start) as int)) && mv < MANT_LIMIT
                as u64,
            too_big ==> digits_val(ip.take((k - start) as int)) >= MANT_LIMIT as int,
        decreases ip_end - k,
    {
        let c = cs[k];
        proof {
            assert(ip[(k - start) as int] == cs@[k as int]);
            assert(is_digit(ip[(k - start) as int]));
            assert(ip.take((k + 1 - start) as int) =~= ip.take((k - start) as int).push(
                ip[(k - start) as int],
            ));
            lemma_digits_val_push(ip.take((k - start) as int), ip[(k - start) as int]);
        }
        let d = (c as u32 - 48) as u64;
        if !too_big {
            let nv = mv * 10 + d;
            if nv >= MANT_LIMIT as u64 {
                too_big = true;
            } else {
                mv = nv;
            }
        } else {
            proof {
                let prev = digits_val(ip.take((k - start) as int));
                assert(prev * 10 + digit_val(ip[(k - start) as int]) >= prev) by (nonlinear_arith)
                    requires
                        prev >= MANT_LIMIT as int,
                        digit_val(ip[(k - start) as int]) >= 0,
                ;
            }
        }
        k = k + 1;
    }
    proof {
        assert(ip.take((ip_end - start) as int) =~= ip);
    }
    let mut k2 = fq_lo;
    while k2 < e
        invariant
            fq_lo <= k2 <= e <= n,
            n == cs@.len(),
            fq == cs@.subrange(fq_lo as int, e as int),
            forall|i: int| 0 <= i < fq.len() ==> is_digit(#[trigger] fq[i]),
            all_digits(ip),
            !too_big ==> mv as int == digits_val(full.take(ip.len() + (k2 - fq_lo))) && mv
                < MANT_LIMIT as u64,
            too_big ==> digits_val(full.take(ip.len() + (k2 - fq_lo))) >= MANT_LIMIT as int,
            full == ip + fq,
        decreases e - k2,
    {
        let c = cs[k2];
        proof {
            assert(fq[(k2 - fq_lo) as int] == cs@[k2 as int]);
            assert(full[ip.len() + (k2 - fq_lo)] == fq[(k2 - fq_lo) as int]);
            assert(is_digit(full[ip.len() + (k2 - fq_lo)]));
            assert(full.take(ip.len() + (k2 + 1 - fq_lo)) =~= full.take(
                ip.len() + (k2 - fq_lo),
            ).push(full[ip.len() + (k2 - fq_lo)]));
            lemma_digits_val_push(full.take(ip.len() + (k2 - fq_lo)), full[ip.len() + (k2
                - fq_lo)]);
        }
        let d = (c as u32 - 48) as u64;
        if !too_big {
            let nv = mv * 10 + d;
            if nv >= MANT_LIMIT as u64 {
                too_big = true;
            } else {
                mv = nv;
            }
        } else {
            proof {
                let prev = digits_val(full.take(ip.len() + (k2 - fq_lo)));
                assert(prev * 10 + digit_val(full[ip.len() + (k2 - fq_lo)]) >= prev)
                    by (nonlinear_arith)
                    requires
                        prev >= MANT_LIMIT as int,
                        digit_val(full[ip.len() + (k2 - fq_lo)]) >= 0,
                ;
            }
        }
        k2 = k2 + 1;
    }
    proof {
        assert(full.take(ip.len() + (e - fq_lo)) =~= full);
    }
    // Assemble the outcome, mirroring `num_finish`.
    if !too_big && mv == 0 {
        return Option::Some(Num { m: 0, s: 0 });
    }
    if too_big {
        return Option::None;
    }
    proof {
        if scale_len > 0 {
            assert(full.len() > 0 && full.last() == fq.last());
            assert(all_digits(full)) by {
                assert(forall|i: int| 0 <= i < ip.len() ==> full[i] == ip[i]);
                assert(forall|i: int|
                    ip.len() <= i < full.len() ==> #[trigger] full[i] == fq[i - ip.len()]);
            }
            lemma_digits_val_mod(full);
            lemma_nonzero_digit(fq.last());
        }
    }
    if scale_len > MAX_SCALE as usize {
        return Option::None;
    }
    let m_signed: i64 = if neg {
        -(mv as i64)
    } else {
        mv as i64
    };
    Option::Some(Num { m: m_signed, s: scale_len as u32 })
}

fn digit_to_char(d: u64) -> (c: char)
    requires
        d < 10,
    ensures
        c == digit_char(d as int),
{
    if d == 0 {
        '0'
    } else if d == 1 {
        '1'
    } else if d == 2 {
        '2'
    } else if d == 3 {
        '3'
    } else if d == 4 {
        '4'
    } else if d == 5 {
        '5'
    } else if d == 6 {
        '6'
    } else if d == 7 {
        '7'
    } else if d == 8 {
        '8'
    } else {
        '9'
    }
}

fn push_dec_str(v: u64, out: &mut Vec<char>)
    ensures
        final(out)@ == old(out)@ + dec_str(v as nat),
    decreases v,
{
    if v < 10 {
        out.push(digit_to_char(v));
        proof {
            assert(final(out)@ =~= old(out)@ + dec_str(v as nat));
        }
    } else {
        push_dec_str(v / 10, out);
        out.push(digit_to_char(v % 10));
        proof {
            assert(final(out)@ =~= old(out)@ + dec_str(v as nat));
        }
    }
}

fn push_dec_str_pad(v: u64, w: u32, out: &mut Vec<char>)
    ensures
        final(out)@ == old(out)@ + dec_str_pad(v as nat, w as nat),
    decreases w,
{
    if w > 0 {
        push_dec_str_pad(v / 10, w - 1, out);
        out.push(digit_to_char(v % 10));
        proof {
            assert(final(out)@ =~= old(out)@ + dec_str_pad(v as nat, w as nat));
        }
    } else {
        proof {
            assert(final(out)@ =~= old(out)@ + dec_str_pad(v as nat, 0));
        }
    }
}

/// Render a number as its canonical text, per `num_string`.
pub fn num_to_chars(n: Num) -> (v: Vec<char>)
    requires
        num_wf(n),
    ensures
        v@ == num_string(n),
{
    proof {
        assert(pow10(9) == 1000000000) by {
            reveal_with_fuel(pow10, 10);
        }
        lemma_pow10_le(n.s as nat, 9);
        lemma_pow10_pos(n.s as nat);
    }
    let p = pow10_u128(n.s) as u64;
    let mag: u64 = if n.m < 0 {
        (-(n.m as i128)) as u64
    } else {
        n.m as u64
    };
    let ip = mag / p;
    let f = mag % p;
    let mut out: Vec<char> = Vec::new();
    if n.m < 0 {
        out.push('-');
    }
    push_dec_str(ip, &mut out);
    if n.s > 0 {
        out.push('.');
        push_dec_str_pad(f, n.s, &mut out);
    }
    proof {
        assert(out@ =~= num_string(n));
    }
    out
}

proof fn lemma_digit_char_val(v: int)
    requires
        0 <= v <= 9,
    ensures
        digit_val(digit_char(v)) == v,
        is_digit(digit_char(v)),
        (digit_char(v) == '0') <==> (v == 0),
{
    if v == 0 {
        assert(digit_val('0') == 0);
    } else if v == 1 {
        assert(digit_val('1') == 1);
    } else if v == 2 {
        assert(digit_val('2') == 2);
    } else if v == 3 {
        assert(digit_val('3') == 3);
    } else if v == 4 {
        assert(digit_val('4') == 4);
    } else if v == 5 {
        assert(digit_val('5') == 5);
    } else if v == 6 {
        assert(digit_val('6') == 6);
    } else if v == 7 {
        assert(digit_val('7') == 7);
    } else if v == 8 {
        assert(digit_val('8') == 8);
    } else {
        assert(digit_val('9') == 9);
    }
}

pub proof fn lemma_dec_str_digits(v: nat)
    ensures
        all_digits(dec_str(v)),
        digits_val(dec_str(v)) == v,
        dec_str(v).len() >= 1,
    decreases v,
{
    if v < 10 {
        lemma_digit_char_val(v as int);
        assert(dec_str(v) =~= seq![digit_char(v as int)]);
        assert(dec_str(v).drop_last() =~= Seq::<char>::empty());
        assert(dec_str(v).last() == digit_char(v as int));
        assert(digits_val(dec_str(v).drop_last()) == 0);
        assert(digits_val(dec_str(v)) == 0 * 10 + digit_val(digit_char(v as int)));
    } else {
        lemma_digit_char_val((v % 10) as int);
        lemma_dec_str_digits(v / 10);
        let base = dec_str(v / 10);
        let c = digit_char((v % 10) as int);
        lemma_digits_val_push(base, c);
        assert(forall|i: int|
            0 <= i < base.len() ==> #[trigger] base.push(c)[i] == base[i]);
        assert(base.push(c)[base.len() as int] == c);
        assert(dec_str(v) == base.push(c));
        assert(digits_val(dec_str(v)) == digits_val(base) * 10 + digit_val(c));
        assert((v / 10) * 10 + (v % 10) == v);
    }
}

pub proof fn lemma_dec_str_pad_digits(v: nat, w: nat)
    requires
        v < pow10(w),
    ensures
        all_digits(dec_str_pad(v, w)),
        digits_val(dec_str_pad(v, w)) == v,
        dec_str_pad(v, w).len() == w,
    decreases w,
{
    if w == 0 {
        lemma_pow10_pos(0);
        assert(v == 0);
    } else {
        assert(pow10(w) == 10 * pow10((w - 1) as nat));
        assert(v / 10 < pow10((w - 1) as nat)) by (nonlinear_arith)
            requires
                v < 10 * pow10((w - 1) as nat),
                v >= 0,
                pow10((w - 1) as nat) >= 1,
        ;
        lemma_pow10_pos((w - 1) as nat);
        lemma_digit_char_val((v % 10) as int);
        lemma_dec_str_pad_digits(v / 10, (w - 1) as nat);
        let base = dec_str_pad(v / 10, (w - 1) as nat);
        let c = digit_char((v % 10) as int);
        lemma_digits_val_push(base, c);
        assert(forall|i: int|
            0 <= i < base.len() ==> #[trigger] base.push(c)[i] == base[i]);
        assert((v / 10) * 10 + (v % 10) == v);
    }
}

/// The remainder by a power of ten keeps the last digit.
proof fn lemma_mod_pow10_mod10(a: int, s: nat)
    requires
        a >= 0,
        s >= 1,
    ensures
        (a % pow10(s)) % 10 == a % 10,
{
    let q = pow10((s - 1) as nat);
    lemma_pow10_pos((s - 1) as nat);
    assert(pow10(s) == 10 * q);
    vstd::arithmetic::div_mod::lemma_mod_mod(a, 10, q);
}

/// Printing then parsing is the identity on well-formed numbers.
#[verifier::rlimit(60)]
#[verifier::spinoff_prover]
pub proof fn lemma_num_round_trip(n: Num)
    requires
        num_wf(n),
    ensures
        num_of_chars(num_string(n)) == Option::Some(n),
{
    let a = abs(n.m as int) as nat;
    let p = pow10(n.s as nat) as nat;
    lemma_pow10_pos(n.s as nat);
    let ip = a / p;
    let f = a % p;
    vstd::arithmetic::div_mod::lemma_fundamental_div_mod(a as int, p as int);
    vstd::arithmetic::div_mod::lemma_mod_bound(a as int, p as int);
    assert(ip as int == a as int / p as int);
    assert(f as int == a as int % p as int);
    assert(a == p * ip + f);
    assert(0 <= f < p);
    let istr = dec_str(ip);
    lemma_dec_str_digits(ip);
    let s = num_string(n);
    if n.s == 0 {
        let t = istr;
        assert(s =~= (if n.m < 0 {
            seq!['-'] + t
        } else {
            t
        }));
        lemma_dot_count_zero_of_digits(t);
        assert(p == 1);
        assert(a as int == 1 * (a as int / 1) + (a as int % 1));
        assert(0 <= a as int % 1 < 1);
        assert(ip == a);
        if n.m < 0 {
            assert(s[0] == '-');
            assert(s.subrange(1, s.len() as int) =~= t);
            assert(num_finish(true, t, Seq::empty()) == Option::Some(n)) by {
                lemma_finish_int(true, t, a, n);
            }
        } else {
            assert(s[0] == t[0]);
            assert(is_digit(s[0]));
            assert(s[0] != '-' && s[0] != '+');
            assert(num_finish(false, t, Seq::empty()) == Option::Some(n)) by {
                lemma_finish_int(false, t, a, n);
            }
        }
    } else {
        let fstr = dec_str_pad(f, n.s as nat);
        lemma_dec_str_pad_digits(f, n.s as nat);
        let t = istr + (seq!['.'] + fstr);
        assert(s =~= (if n.m < 0 {
            seq!['-'] + t
        } else {
            t
        }));
        lemma_dot_count_zero_of_digits(istr);
        lemma_dot_count_zero_of_digits(fstr);
        lemma_dot_count_append(istr, seq!['.'] + fstr);
        lemma_dot_count_append(seq!['.'], fstr);
        assert(dot_count(seq!['.']) == 1) by {
            let d: Seq<char> = seq!['.'];
            assert(d.len() == 1);
            assert(d.last() == '.');
            assert(d.drop_last() =~= Seq::<char>::empty());
            assert(dot_count(d.drop_last()) == 0);
        }
        assert(dot_count(t) == 1);
        let dotp = istr.len() as int;
        assert(t[dotp] == '.');
        let i = choose|i: int| 0 <= i < t.len() && t[i] == '.';
        lemma_dot_unique(t, i, dotp);
        assert(t.subrange(0, dotp) =~= istr);
        assert(t.subrange(dotp + 1, t.len() as int) =~= fstr);
        // The fraction keeps its last digit: no trailing zero to strip.
        assert(a % 10 != 0) by {
            if n.m < 0 {
                lemma_neg_mod10(n.m as int);
            }
        }
        lemma_mod_pow10_mod10(a as int, n.s as nat);
        assert(f % 10 == a % 10);
        assert(fstr.last() == digit_char((f % 10) as int)) by {
            assert(n.s as nat >= 1);
        }
        lemma_digit_char_val((f % 10) as int);
        assert(fstr.last() != '0');
        assert(strip_trailing_zeros(fstr) == fstr);
        lemma_digits_val_append(istr, fstr);
        assert(digits_val(istr + fstr) == ip * pow10(fstr.len()) + f);
        assert(ip * pow10(n.s as nat) == pow10(n.s as nat) * ip) by (nonlinear_arith);
        assert(digits_val(istr + fstr) == a);
        assert(a != 0 && a < MANT_LIMIT as int);
        assert(fstr.len() <= MAX_SCALE as nat);
        if n.m < 0 {
            assert(s[0] == '-');
            assert(s.subrange(1, s.len() as int) =~= t);
            assert(num_finish(true, istr, fstr) == Option::Some(n));
        } else {
            assert(s[0] == t[0] && t[0] == istr[0]);
            assert(is_digit(s[0]));
            assert(s[0] != '-' && s[0] != '+');
            assert(num_finish(false, istr, fstr) == Option::Some(n));
        }
    }
}

proof fn lemma_dot_count_zero_of_digits(s: Seq<char>)
    requires
        all_digits(s),
    ensures
        dot_count(s) == 0,
{
    assert(forall|i: int| 0 <= i < s.len() ==> s[i] != '.');
    lemma_dot_count_zero(s);
}

proof fn lemma_finish_int(neg: bool, t: Seq<char>, a: nat, n: Num)
    requires
        num_wf(n),
        n.s == 0,
        a == abs(n.m as int),
        neg == (n.m < 0),
        all_digits(t),
        digits_val(t) == a,
    ensures
        num_finish(neg, t, Seq::empty()) == Option::Some(n),
{
    assert(strip_trailing_zeros(Seq::<char>::empty()) =~= Seq::<char>::empty());
    assert(t + Seq::<char>::empty() =~= t);
    if a == 0 {
        assert(n.m == 0);
    }
}

impl Num {
    /// The canonical text of this number.
    pub fn to_text(&self) -> (s: String)
        requires
            num_wf(*self),
        ensures
            s@ == num_string(*self),
    {
        let v = num_to_chars(*self);
        crate::text::chars_to_string(&v)
    }
}

} // verus!
