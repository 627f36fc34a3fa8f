//! Exact rational numbers used as the literal values of expressions.

use vstd::prelude::*;
use vstd::arithmetic::div_mod::*;
use vstd::string::{StrSliceExecFns, StringExecFns};

verus! {

/// Greatest common divisor, by Euclid's algorithm.
pub open spec fn gcd(a: nat, b: nat) -> nat
    decreases b,
{
    if b == 0 {
        a
    } else {
        gcd(b, a % b)
    }
}

pub open spec fn abs(x: int) -> nat {
    if x < 0 {
        (-x) as nat
    } else {
        x as nat
    }
}

/// The fraction `p / q` (with `q > 0`) in lowest terms.
pub open spec fn normalize(p: int, q: int) -> (int, int) {
    let g = gcd(abs(p), abs(q)) as int;
    if g == 0 {
        (p, q)
    } else {
        (p / g, q / g)
    }
}

/// A pair that a `Num` can hold: numerator and positive denominator in the
/// range of `i64`, the numerator above `i64::MIN` so that it can be negated.
pub open spec fn in_range(v: (int, int)) -> bool {
    i64::MIN < v.0 <= i64::MAX && 1 <= v.1 <= i64::MAX
}

pub open spec fn checked(v: (int, int)) -> Option<(int, int)> {
    if in_range(v) {
        Some(v)
    } else {
        None
    }
}

pub open spec fn divides(d: int, x: int) -> bool {
    x % d == 0
}

proof fn lemma_divides_combination(g: int, a: int, b: int)
    requires
        g > 0,
        b > 0,
        divides(g, b),
        divides(g, a % b),
    ensures
        divides(g, a),
{
    lemma_fundamental_div_mod(a, b);
    lemma_fundamental_div_mod(b, g);
    lemma_fundamental_div_mod(a % b, g);
    let k1 = b / g;
    let k2 = (a % b) / g;
    let q = a / b;
    assert(a == g * (k1 * q + k2)) by (nonlinear_arith)
        requires
            a == b * q + a % b,
            b == g * k1,
            a % b == g * k2,
    ;
    lemma_mod_multiples_basic(k1 * q + k2, g);
    assert((g * (k1 * q + k2)) == (k1 * q + k2) * g) by (nonlinear_arith);
}

/// The gcd divides both arguments and is positive unless both are zero.
pub proof fn lemma_gcd(a: nat, b: nat)
    ensures
        (a > 0 || b > 0) ==> gcd(a, b) > 0,
        gcd(a, b) > 0 ==> divides(gcd(a, b) as int, a as int) && divides(gcd(a, b) as int, b as int),
        gcd(a, b) <= a || b > 0,
    decreases b,
{
    if b == 0 {
        if a > 0 {
            lemma_mod_self_0(a as int);
            lemma_mod_multiples_basic(0, a as int);
            assert(0 * (a as int) == 0);
        }
    } else {
        lemma_mod_pos_bound(a as int, b as int);
        lemma_gcd(b, a % b);
        let g = gcd(a, b);
        assert(g > 0);
        lemma_divides_combination(g as int, a as int, b as int);
    }
}

proof fn lemma_divides_neg(g: int, x: int)
    requires
        g > 0,
        divides(g, x),
    ensures
        divides(g, -x),
{
    lemma_fundamental_div_mod(x, g);
    let k = x / g;
    assert(-x == (-k) * g) by (nonlinear_arith)
        requires
            x == g * k + 0,
    ;
    lemma_mod_multiples_basic(-k, g);
}

proof fn lemma_mod_self_0(m: int)
    requires
        m > 0,
    ensures
        m % m == 0,
{
    lemma_mod_multiples_basic(1, m);
}

/// Facts about dividing both parts of a fraction by their gcd.
pub proof fn lemma_normalize(p: int, q: int)
    requires
        q > 0,
    ensures
        normalize(p, q).1 >= 1,
        normalize(p, q).1 <= q,
        abs(normalize(p, q).0) <= abs(p),
        (p < 0) == (normalize(p, q).0 < 0),
        p == 0 ==> normalize(p, q) == (0int, 1int),
{
    let g = gcd(abs(p), abs(q));
    lemma_gcd(abs(p), abs(q));
    let gi = g as int;
    assert(gi > 0);
    lemma_fundamental_div_mod(q, gi);
    lemma_fundamental_div_mod(p, gi);
    let qq = q / gi;
    let pp = p / gi;
    assert(q == gi * qq);
    lemma_divides_neg(gi, abs(p) as int);
    assert(p == gi * pp);
    assert(qq >= 1 && qq <= q) by (nonlinear_arith)
        requires
            q == gi * qq,
            q > 0,
            gi > 0,
    ;
    assert(abs(pp) <= abs(p) && ((p < 0) == (pp < 0))) by (nonlinear_arith)
        requires
            p == gi * pp,
            gi > 0,
    ;
    if p == 0 {
        lemma_mod_multiples_basic(0, q);
        assert(0 * q == 0);
        reveal_with_fuel(gcd, 2);
        assert(g == abs(q));
        assert(pp == 0) by (nonlinear_arith)
            requires
                p == gi * pp,
                gi > 0,
                p == 0,
        ;
        assert(qq == 1) by (nonlinear_arith)
            requires
                q == gi * qq,
                gi == q,
                q > 0,
        ;
    }
}


pub open spec fn ipow(x: int, k: nat) -> int
    decreases k,
{
    if k == 0 {
        1
    } else {
        x * ipow(x, (k - 1) as nat)
    }
}

/// `1 / a`, with the sign carried by the numerator.
pub open spec fn recip(a: (int, int)) -> (int, int) {
    if a.0 < 0 {
        (-a.1, -a.0)
    } else {
        (a.1, a.0)
    }
}

pub open spec fn sum(a: (int, int), b: (int, int)) -> Option<(int, int)> {
    checked(normalize(a.0 * b.1 + b.0 * a.1, a.1 * b.1))
}

pub open spec fn product(a: (int, int), b: (int, int)) -> Option<(int, int)> {
    checked(normalize(a.0 * b.0, a.1 * b.1))
}

/// `a / b`; none for a zero divisor, which has no finite value.
pub open spec fn quotient(a: (int, int), b: (int, int)) -> Option<(int, int)> {
    if b.0 == 0 {
        None
    } else {
        product(a, recip(b))
    }
}

/// `a ^ k` for a natural `k`, when both parts of the unreduced power fit.
pub open spec fn power_nat(a: (int, int), k: nat) -> Option<(int, int)> {
    let n = ipow(a.0, k);
    let d = ipow(a.1, k);
    if abs(n) <= i64::MAX && d <= i64::MAX {
        checked(normalize(n, d))
    } else {
        None
    }
}

/// `a ^ b`. Only integer exponents have an exact rational result; a
/// negative exponent inverts the base first, and zero has no inverse.
pub open spec fn power(a: (int, int), b: (int, int)) -> Option<(int, int)> {
    if b.1 != 1 {
        None
    } else if b.0 >= 0 {
        power_nat(a, b.0 as nat)
    } else if a.0 == 0 {
        None
    } else {
        power_nat(recip(a), (-b.0) as nat)
    }
}

/// An exact rational number, kept in lowest terms with a positive
/// denominator. Its view is the pair (numerator, denominator).
#[derive(Debug, Clone, Copy, PartialEq, Eq, Structural)]
pub struct Num {
    num: i64,
    den: i64,
}

impl View for Num {
    type V = (int, int);

    closed spec fn view(&self) -> (int, int) {
        (self.num as int, self.den as int)
    }
}

pub open spec fn opt_view(o: Option<Num>) -> Option<(int, int)> {
    match o {
        Some(n) => Some(n@),
        None => None,
    }
}

impl Num {
    #[verifier::type_invariant]
    spec fn inv(self) -> bool {
        in_range((self.num as int, self.den as int))
    }

    /// Two numbers with the same view are the same number.
    pub proof fn lemma_view_injective(self, other: Num)
        ensures
            self@ == other@ ==> self == other,
    {
    }

    pub fn from_i32(n: i32) -> (r: Num)
        ensures
            r@ == (n as int, 1int),
    {
        Num { num: n as i64, den: 1 }
    }

    /// The fraction `num / den` in lowest terms; none when `den` is not
    /// positive or `num` is `i64::MIN`.
    pub fn new(num: i64, den: i64) -> (r: Option<Num>)
        ensures
            opt_view(r) == (if den <= 0 || num == i64::MIN {
                None
            } else {
                checked(normalize(num as int, den as int))
            }),
    {
        if den <= 0 || num == i64::MIN {
            None
        } else {
            Num::from_fraction(num as i128, den as i128)
        }
    }

    pub fn numer(&self) -> (r: i64)
        ensures
            r as int == self@.0,
    {
        self.num
    }

    pub fn denom(&self) -> (r: i64)
        ensures
            r as int == self@.1,
    {
        self.den
    }

    pub fn is_negative(&self) -> (r: bool)
        ensures
            r == (self@.0 < 0),
    {
        self.num < 0
    }

    pub fn is_integer(&self) -> (r: bool)
        ensures
            r == (self@.1 == 1),
    {
        self.den == 1
    }

    pub fn neg(&self) -> (r: Num)
        ensures
            r@ == (-self@.0, self@.1),
    {
        proof {
            use_type_invariant(self);
        }
        Num { num: -self.num, den: self.den }
    }

    /// Reduces `p / q` to lowest terms.
    fn from_fraction(p: i128, q: i128) -> (r: Option<Num>)
        requires
            q > 0,
            p > i128::MIN,
        ensures
            opt_view(r) == checked(normalize(p as int, q as int)),
    {
        let neg = p < 0;
        let m: u128 = if neg { (-p) as u128 } else { p as u128 };
        let d: u128 = q as u128;
        let g = gcd_u128(m, d);
        proof {
            lemma_gcd(m as nat, d as nat);
            lemma_normalize(p as int, q as int);
            assert(abs(p as int) == m as nat);
            let gi = g as int;
            lemma_fundamental_div_mod(m as int, gi);
            lemma_fundamental_div_mod(p as int, gi);
            if neg {
                lemma_divides_neg(gi, m as int);
                assert(-(m as int) == p as int);
                let k = (m as int) / gi;
                assert(p as int == gi * (-k)) by (nonlinear_arith)
                    requires
                        m as int == gi * k + 0,
                        -(m as int) == p as int,
                ;
                lemma_div_multiples_vanish(-k, gi);
            }
        }
        let nm = m / g;
        let nd = d / g;
        if nm > i64::MAX as u128 || nd > i64::MAX as u128 {
            None
        } else {
            let n: i64 = if neg { -(nm as i64) } else { nm as i64 };
            Some(Num { num: n, den: nd as i64 })
        }
    }

    pub fn add(&self, other: &Num) -> (r: Option<Num>)
        ensures
            opt_view(r) == sum(self@, other@),
    {
        proof {
            use_type_invariant(self);
            use_type_invariant(other);
        }
        let a = self.num as i128;
        let b = self.den as i128;
        let c = other.num as i128;
        let d = other.den as i128;
        proof {
            lemma_product_bound(a as int, d as int);
            lemma_product_bound(c as int, b as int);
            lemma_product_bound(b as int, d as int);
        }
        let p = a * d + c * b;
        let q = b * d;
        assert(q > 0) by (nonlinear_arith)
            requires
                q == b * d,
                b > 0,
                d > 0,
        ;
        Num::from_fraction(p, q)
    }

    pub fn mul(&self, other: &Num) -> (r: Option<Num>)
        ensures
            opt_view(r) == product(self@, other@),
    {
        proof {
            use_type_invariant(self);
            use_type_invariant(other);
            lemma_product_bound(self.num as int, other.num as int);
            lemma_product_bound(self.den as int, other.den as int);
        }
        let p = self.num as i128 * other.num as i128;
        let q = self.den as i128 * other.den as i128;
        assert(q > 0) by (nonlinear_arith)
            requires
                q == self.den as i128 * other.den as i128,
                self.den > 0,
                other.den > 0,
        ;
        Num::from_fraction(p, q)
    }

    fn recip(&self) -> (r: Num)
        requires
            self@.0 != 0,
        ensures
            r@ == recip(self@),
    {
        proof {
            use_type_invariant(self);
        }
        if self.num < 0 {
            Num { num: -self.den, den: -self.num }
        } else {
            Num { num: self.den, den: self.num }
        }
    }

    pub fn div(&self, other: &Num) -> (r: Option<Num>)
        ensures
            opt_view(r) == quotient(self@, other@),
    {
        if other.num == 0 {
            None
        } else {
            let inv = other.recip();
            self.mul(&inv)
        }
    }

    pub fn pow(&self, exp: &Num) -> (r: Option<Num>)
        ensures
            opt_view(r) == power(self@, exp@),
    {
        proof {
            use_type_invariant(self);
            use_type_invariant(exp);
        }
        if exp.den != 1 {
            None
        } else if exp.num >= 0 {
            pow_nat(self.num, self.den, exp.num as u64)
        } else if self.num == 0 {
            None
        } else {
            let r = self.recip();
            proof {
                use_type_invariant(r);
            }
            pow_nat(r.num, r.den, (-exp.num) as u64)
        }
    }
}

proof fn lemma_ipow_units(k: nat)
    ensures
        ipow(1, k) == 1,
        ipow(0, k) == (if k == 0 { 1int } else { 0int }),
        ipow(-1, k) == (if k % 2 == 0 { 1int } else { -1int }),
    decreases k,
{
    if k > 0 {
        lemma_ipow_units((k - 1) as nat);
    }
}

proof fn lemma_ipow_grows(x: int, i: nat, k: nat)
    requires
        abs(x) >= 1,
        i <= k,
    ensures
        abs(ipow(x, i)) <= abs(ipow(x, k)),
        x >= 1 ==> ipow(x, k) >= 1,
    decreases k,
{
    if k > 0 {
        lemma_ipow_grows(x, 0, (k - 1) as nat);
        let prev = ipow(x, (k - 1) as nat);
        assert(x >= 1 && prev >= 1 ==> x * prev >= 1) by (nonlinear_arith);
    }
    if i < k {
        lemma_ipow_grows(x, i, (k - 1) as nat);
        let prev = ipow(x, (k - 1) as nat);
        assert(abs(x * prev) >= abs(prev)) by (nonlinear_arith)
            requires
                abs(x) >= 1,
        ;
    }
}

pub proof fn lemma_normalize_integer(v: int)
    ensures
        normalize(v, 1) == (v, 1int),
{
    reveal_with_fuel(gcd, 2);
    lemma_mod_multiples_basic(abs(v) as int, 1);
    assert(abs(v) as int * 1 == abs(v) as int);
}

fn pow_nat(n: i64, d: i64, k: u64) -> (r: Option<Num>)
    requires
        in_range((n as int, d as int)),
    ensures
        opt_view(r) == power_nat((n as int, d as int), k as nat),
{
    if d == 1 && -1 <= n && n <= 1 {
        proof {
            lemma_ipow_units(k as nat);
        }
        let v: i64 = if n == 1 || k == 0 {
            1
        } else if n == 0 {
            0
        } else if k % 2 == 0 {
            1
        } else {
            -1
        };
        proof {
            lemma_normalize_integer(v as int);
        }
        return Some(Num { num: v, den: 1 });
    }
    let mut pn: i128 = 1;
    let mut pd: i128 = 1;
    let mut i: u64 = 0;
    while i < k
        invariant
            in_range((n as int, d as int)),
            pn == ipow(n as int, i as nat),
            pd == ipow(d as int, i as nat),
            abs(pn as int) <= i64::MAX,
            1 <= pd <= i64::MAX,
            i <= k,
        decreases k - i,
    {
        proof {
            lemma_product_bound(pn as int, n as int);
            lemma_product_bound(pd as int, d as int);
        }
        let nn = pn * n as i128;
        let nd = pd * d as i128;
        proof {
            assert(ipow(n as int, (i + 1) as nat) == n * ipow(n as int, i as nat));
            assert(ipow(d as int, (i + 1) as nat) == d * ipow(d as int, i as nat));
            assert(nn == n * pn) by (nonlinear_arith)
                requires
                    nn == pn * n,
            ;
            assert(nd == d * pd) by (nonlinear_arith)
                requires
                    nd == pd * d,
            ;
        }
        if nn > i64::MAX as i128 || nn < -(i64::MAX as i128) || nd > i64::MAX as i128 {
            proof {
                assert(nn == ipow(n as int, (i + 1) as nat));
                assert(nd == ipow(d as int, (i + 1) as nat));
                lemma_ipow_grows(d as int, (i + 1) as nat, k as nat);
                let fnum = ipow(n as int, k as nat);
                let fden = ipow(d as int, k as nat);
                if nd > i64::MAX as i128 {
                    assert(fden > i64::MAX);
                } else {
                    assert(n == 0 ==> nn == 0) by (nonlinear_arith)
                        requires
                            nn == n * pn,
                    ;
                    lemma_ipow_grows(n as int, (i + 1) as nat, k as nat);
                    assert(abs(nn as int) > i64::MAX);
                    assert(abs(fnum) > i64::MAX);
                }
                assert(power_nat((n as int, d as int), k as nat) is None);
            }
            return None;
        }
        assert(nd >= 1) by (nonlinear_arith)
            requires
                nd == pd * d,
                pd >= 1,
                d >= 1,
        ;
        pn = nn;
        pd = nd;
        i = i + 1;
    }
    Num::from_fraction(pn, pd)
}

proof fn lemma_product_bound(x: int, y: int)
    requires
        i64::MIN < x <= i64::MAX,
        i64::MIN < y <= i64::MAX,
    ensures
        -0x3fff_ffff_ffff_ffff_0000_0000_0000_0001 <= x * y <= 0x3fff_ffff_ffff_ffff_0000_0000_0000_0001,
{
    assert(-0x7fff_ffff_ffff_ffff <= x <= 0x7fff_ffff_ffff_ffff);
    assert(-0x7fff_ffff_ffff_ffff <= y <= 0x7fff_ffff_ffff_ffff);
    assert(x * y <= 0x7fff_ffff_ffff_ffff * 0x7fff_ffff_ffff_ffff) by (nonlinear_arith)
        requires
            -0x7fff_ffff_ffff_ffff <= x <= 0x7fff_ffff_ffff_ffff,
            -0x7fff_ffff_ffff_ffff <= y <= 0x7fff_ffff_ffff_ffff,
    ;
    assert(x * y >= -(0x7fff_ffff_ffff_ffff * 0x7fff_ffff_ffff_ffff)) by (nonlinear_arith)
        requires
            -0x7fff_ffff_ffff_ffff <= x <= 0x7fff_ffff_ffff_ffff,
            -0x7fff_ffff_ffff_ffff <= y <= 0x7fff_ffff_ffff_ffff,
    ;
}

fn gcd_u128(a: u128, b: u128) -> (r: u128)
    ensures
        r as nat == gcd(a as nat, b as nat),
{
    let mut x = a;
    let mut y = b;
    while y != 0
        invariant
            gcd(x as nat, y as nat) == gcd(a as nat, b as nat),
        decreases y,
    {
        let t = x % y;
        x = y;
        y = t;
    }
    x
}


pub open spec fn is_digit(c: char) -> bool {
    '0' <= c <= '9'
}

pub open spec fn is_numeric(c: char) -> bool {
    is_digit(c) || c == '.'
}

/// The integer spelled by the digits of `s`, ignoring any `.`.
pub open spec fn digits_value(s: Seq<char>) -> int
    decreases s.len(),
{
    if s.len() == 0 {
        0
    } else if s.last() == '.' {
        digits_value(s.drop_last())
    } else {
        digits_value(s.drop_last()) * 10 + (s.last() as int - '0' as int)
    }
}

pub open spec fn dot_count(s: Seq<char>) -> nat
    decreases s.len(),
{
    if s.len() == 0 {
        0
    } else {
        dot_count(s.drop_last()) + if s.last() == '.' {
            1nat
        } else {
            0nat
        }
    }
}

/// The number of digits after the first `.`.
pub open spec fn frac_len(s: Seq<char>) -> nat
    decreases s.len(),
{
    if s.len() == 0 || s.last() == '.' {
        0
    } else if dot_count(s.drop_last()) > 0 {
        frac_len(s.drop_last()) + 1
    } else {
        0
    }
}

/// The value of a decimal numeral made of digits and at most one `.`, with
/// at least one digit (`12`, `1.5`, `.5`, `2.`). None for any other text,
/// and where the digits read as an integer, or the power of ten that the
/// fraction needs, exceed `i64`.
pub open spec fn decimal_value(s: Seq<char>) -> Option<(int, int)> {
    if !(forall|i: int| 0 <= i < s.len() ==> is_numeric(#[trigger] s[i])) || dot_count(s) > 1
        || dot_count(s) == s.len() || digits_value(s) > i64::MAX || frac_len(s) > 18 {
        None
    } else {
        Some(normalize(digits_value(s), ipow(10, frac_len(s))))
    }
}

pub open spec fn digit_char(d: int) -> char {
    seq!['0', '1', '2', '3', '4', '5', '6', '7', '8', '9'][d]
}

pub open spec fn nat_text(n: nat) -> Seq<char>
    decreases n,
{
    if n < 10 {
        seq![digit_char(n as int)]
    } else {
        nat_text(n / 10) + seq![digit_char((n % 10) as int)]
    }
}

/// Whether `1 / q` has a finite decimal expansion, found within 63 digits:
/// `q` divides a power of ten up to `10^63`. For a denominator of an `i64`
/// fraction that is exactly when 2 and 5 are its only prime factors.
pub open spec fn finite_expansion(q: nat) -> bool {
    exists|j: nat| j <= 63 && #[trigger] (ipow(10, j) % (q as int)) == 0
}

/// Up to `fuel` decimal digits of `r / q`, for `r < q`, stopping when the
/// remainder runs out.
pub open spec fn frac_digits(r: nat, q: nat, fuel: nat) -> Seq<char>
    decreases fuel,
{
    if r == 0 || q == 0 || fuel == 0 {
        seq![]
    } else {
        seq![digit_char(((10 * r) / q) as int)] + frac_digits((10 * r) % q, q, (fuel - 1) as nat)
    }
}

/// For a denominator that divides `10^j`, the expansion ends within `j`
/// digits, so 64 digits always reach the end.
pub open spec fn decimal_text(p: nat, q: nat) -> Seq<char> {
    nat_text(p / q) + if p % q == 0 {
        seq![]
    } else {
        seq!['.'] + frac_digits(p % q, q, 64)
    }
}

/// The text of a number: its decimal expansion where that is finite, else
/// the quotient of its two parts; negative values in parentheses
/// (`2`, `0.5`, `(-1.25)`, `(1 / 3)`, `((-2) / 3)`).
pub open spec fn num_text(v: (int, int)) -> Seq<char> {
    let p = abs(v.0);
    let q = abs(v.1);
    if finite_expansion(q) {
        if v.0 < 0 {
            seq!['(', '-'] + decimal_text(p, q) + seq![')']
        } else {
            decimal_text(p, q)
        }
    } else if v.0 < 0 {
        seq!['(', '(', '-'] + nat_text(p) + seq![')', ' ', '/', ' '] + nat_text(q) + seq![')']
    } else {
        seq!['('] + nat_text(p) + seq![' ', '/', ' '] + nat_text(q) + seq![')']
    }
}

pub proof fn lemma_digit_char(d: int)
    requires
        0 <= d < 10,
    ensures
        digit_char(d) as int == '0' as int + d,
        is_digit(digit_char(d)),
{
    let ds = seq!['0', '1', '2', '3', '4', '5', '6', '7', '8', '9'];
    assert(ds[0] == '0' && ds[1] == '1' && ds[2] == '2' && ds[3] == '3' && ds[4] == '4');
    assert(ds[5] == '5' && ds[6] == '6' && ds[7] == '7' && ds[8] == '8' && ds[9] == '9');
}

/// The digits of `n` are digits, and read back as `n`.
pub proof fn lemma_nat_text(n: nat)
    ensures
        nat_text(n).len() >= 1,
        forall|i: int| 0 <= i < nat_text(n).len() ==> is_digit(#[trigger] nat_text(n)[i]),
        digits_value(nat_text(n)) == n,
        dot_count(nat_text(n)) == 0,
        frac_len(nat_text(n)) == 0,
    decreases n,
{
    let t = nat_text(n);
    lemma_digit_char((n % 10) as int);
    if n < 10 {
        assert(n % 10 == n);
        assert(t.drop_last() =~= Seq::<char>::empty());
        assert(t.last() == digit_char(n as int));
    } else {
        lemma_nat_text(n / 10);
        let h = nat_text(n / 10);
        assert(t.drop_last() =~= h);
        assert(t.last() == digit_char((n % 10) as int));
        assert forall|i: int| 0 <= i < t.len() implies is_digit(#[trigger] t[i]) by {
            if i < h.len() {
                assert(t[i] == h[i]);
            }
        }
        assert(n == (n / 10) * 10 + n % 10);
    }
    assert(t.last() != '.');
    assert(digits_value(t) == digits_value(t.drop_last()) * 10 + (t.last() as int - '0' as int));
    assert(dot_count(t) == dot_count(t.drop_last()));
    if n < 10 {
        assert(digits_value(t.drop_last()) == 0);
        assert(dot_count(t.drop_last()) == 0);
    }
}

fn digit_str(d: u64) -> (r: &'static str)
    requires
        d < 10,
    ensures
        r@ == seq![digit_char(d as int)],
{
    proof {
        reveal_strlit("0");
        reveal_strlit("1");
        reveal_strlit("2");
        reveal_strlit("3");
        reveal_strlit("4");
        reveal_strlit("5");
        reveal_strlit("6");
        reveal_strlit("7");
        reveal_strlit("8");
        reveal_strlit("9");
    }
    match d {
        0 => "0",
        1 => "1",
        2 => "2",
        3 => "3",
        4 => "4",
        5 => "5",
        6 => "6",
        7 => "7",
        8 => "8",
        _ => "9",
    }
}

/// Appends the decimal digits of `n`.
pub fn push_nat(out: &mut String, n: u64)
    ensures
        final(out)@ == old(out)@ + nat_text(n as nat),
    decreases n,
{
    if n < 10 {
        out.append(digit_str(n));
    } else {
        push_nat(out, n / 10);
        out.append(digit_str(n % 10));
        proof {
            assert(old(out)@ + nat_text(n as nat) =~= old(out)@ + nat_text((n / 10) as nat) + seq![
                digit_char((n % 10) as int),
            ]);
        }
    }
}

fn has_finite_expansion(q: u64) -> (r: bool)
    requires
        q > 0,
    ensures
        r == finite_expansion(q as nat),
{
    let qq = q as u128;
    let mut t: u128 = 1 % qq;
    let mut j: u64 = 0;
    while j <= 63
        invariant
            qq == q as u128,
            q > 0,
            t as int == ipow(10, j as nat) % (q as int),
            t < qq,
            forall|i: nat| i < j ==> #[trigger] (ipow(10, i) % (q as int)) != 0,
            j <= 64,
        decreases 64 - j,
    {
        if t == 0 {
            return true;
        }
        proof {
            lemma_mul_mod_noop_left(ipow(10, j as nat), 10, q as int);
            assert(ipow(10, (j + 1) as nat) == 10 * ipow(10, j as nat));
            assert(ipow(10, j as nat) * 10 == 10 * ipow(10, j as nat));
            lemma_mod_pos_bound((t * 10) as int, q as int);
        }
        t = (t * 10) % qq;
        j = j + 1;
    }
    proof {
        assert forall|i: nat| i <= 63 implies #[trigger] (ipow(10, i) % (q as int)) != 0 by {}
    }
    false
}

fn push_decimal(out: &mut String, p: u64, q: u64)
    requires
        q > 0,
    ensures
        final(out)@ == old(out)@ + decimal_text(p as nat, q as nat),
{
    push_nat(out, p / q);
    let mut r: u64 = p % q;
    if r != 0 {
        proof {
            reveal_strlit(".");
        }
        out.append(".");
        let ghost start = out@;
        let mut fuel: u64 = 64;
        while r != 0 && fuel > 0
            invariant
                q > 0,
                r < q,
                start + frac_digits((p % q) as nat, q as nat, 64) == out@ + frac_digits(
                    r as nat,
                    q as nat,
                    fuel as nat,
                ),
            decreases fuel,
        {
            let ghost before = out@;
            let t: u128 = 10 * (r as u128);
            let dq: u128 = t / (q as u128);
            assert(dq < 10) by (nonlinear_arith)
                requires
                    t == 10 * r,
                    r < q,
                    dq == t / (q as u128),
                    q > 0,
            ;
            let d = dq as u64;
            out.append(digit_str(d));
            let next = (t % (q as u128)) as u64;
            proof {
                assert(frac_digits(r as nat, q as nat, fuel as nat) == seq![digit_char(d as int)]
                    + frac_digits(next as nat, q as nat, (fuel - 1) as nat));
                assert(before + frac_digits(r as nat, q as nat, fuel as nat) =~= out@
                    + frac_digits(next as nat, q as nat, (fuel - 1) as nat));
            }
            r = next;
            fuel = fuel - 1;
        }
        proof {
            assert(frac_digits(r as nat, q as nat, fuel as nat) == Seq::<char>::empty());
            assert(old(out)@ + decimal_text(p as nat, q as nat) =~= out@);
        }
    } else {
        proof {
            assert(old(out)@ + decimal_text(p as nat, q as nat) =~= out@);
        }
    }
}

impl Num {
    /// Appends the text of this number (see `num_text`).
    pub fn push_text(&self, out: &mut String)
        ensures
            final(out)@ == old(out)@ + num_text(self@),
    {
        proof {
            use_type_invariant(self);
            reveal_strlit("(");
            reveal_strlit("(-");
            reveal_strlit("((-");
            reveal_strlit(")");
            reveal_strlit(") / ");
            reveal_strlit(" / ");
        }
        let neg = self.num < 0;
        let p: u64 = if neg { (-self.num) as u64 } else { self.num as u64 };
        let q: u64 = self.den as u64;
        if has_finite_expansion(q) {
            if neg {
                out.append("(-");
                push_decimal(out, p, q);
                out.append(")");
            } else {
                push_decimal(out, p, q);
            }
        } else if neg {
            out.append("((-");
            push_nat(out, p);
            out.append(") / ");
            push_nat(out, q);
            out.append(")");
        } else {
            out.append("(");
            push_nat(out, p);
            out.append(" / ");
            push_nat(out, q);
            out.append(")");
        }
        proof {
            assert(final(out)@ =~= old(out)@ + num_text(self@));
        }
    }
}


fn pow10(k: usize) -> (r: i64)
    requires
        k <= 18,
    ensures
        r as int == ipow(10, k as nat),
        r >= 1,
{
    let mut p: i64 = 1;
    let mut j: usize = 0;
    proof {
        reveal_with_fuel(ipow, 19);
        assert(ipow(10, 18) == 1000000000000000000);
    }
    while j < k
        invariant
            j <= k <= 18,
            p as int == ipow(10, j as nat),
            1 <= p,
            ipow(10, 18) == 1000000000000000000,
        decreases k - j,
    {
        proof {
            lemma_ipow_grows(10, (j + 1) as nat, 18);
            assert(ipow(10, (j + 1) as nat) == 10 * ipow(10, j as nat));
        }
        p = p * 10;
        j = j + 1;
    }
    p
}

impl Num {
    /// Reads a decimal numeral (see `decimal_value`).
    pub fn parse_decimal(s: &str) -> (r: Option<Num>)
        ensures
            opt_view(r) == decimal_value(s@),
    {
        let n = s.unicode_len();
        let mut i: usize = 0;
        let mut val: i64 = 0;
        let mut too_big = false;
        let mut numeric = true;
        let mut dots: usize = 0;
        let mut frac: usize = 0;
        while i < n
            invariant
                n == s@.len(),
                i <= n,
                numeric == (forall|j: int| 0 <= j < i ==> is_numeric(#[trigger] s@[j])),
                dots as nat == dot_count(s@.take(i as int)),
                frac as nat == frac_len(s@.take(i as int)),
                dots <= i,
                frac <= i,
                0 <= val,
                numeric && !too_big ==> val as int == digits_value(s@.take(i as int)) && 0 <= val,
                numeric && too_big ==> digits_value(s@.take(i as int)) > i64::MAX,
            decreases n - i,
        {
            let c = s.get_char(i);
            let ghost pre = s@.take(i as int);
            let ghost cur = s@.take(i + 1);
            assert(cur.drop_last() =~= pre);
            assert(cur.last() == c);
            if '0' <= c && c <= '9' {
                let d = (c as u32 - '0' as u32) as i64;
                if !too_big {
                    if val > (i64::MAX - d) / 10 {
                        too_big = true;
                    } else {
                        assert(0 <= val * 10 + d <= i64::MAX) by (nonlinear_arith)
                            requires
                                0 <= val <= (i64::MAX - d) / 10,
                                0 <= d <= 9,
                        ;
                        val = val * 10 + d;
                    }
                }
            } else if c == '.' {
            } else {
                numeric = false;
            }
            if c == '.' {
                dots = dots + 1;
                frac = 0;
            } else if dots > 0 {
                frac = frac + 1;
            } else {
                frac = 0;
            }
            i = i + 1;
            proof {
                if numeric {
                    assert forall|j: int| 0 <= j < i implies is_numeric(#[trigger] s@[j]) by {
                        if j < i - 1 {
                            assert(s@[j] == pre[j]);
                        }
                    }
                }
            }
        }
        assert(s@.take(n as int) =~= s@);
        if !numeric || dots > 1 || dots == n || too_big || frac > 18 {
            None
        } else {
            let q = pow10(frac);
            proof {
                lemma_normalize(val as int, q as int);
            }
            Num::from_fraction(val as i128, q as i128)
        }
    }
}

} // verus!
