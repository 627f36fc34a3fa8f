//! The text of a number reads back as the number: the digits that
//! `num_text` writes for a value of a decimal numeral have that value.

use vstd::prelude::*;
use vstd::arithmetic::div_mod::*;
use crate::num::{
    abs, decimal_text, decimal_value, digit_char, digits_value, dot_count, finite_expansion, frac_digits, frac_len,
    gcd, ipow, is_digit, is_numeric, lemma_digit_char, lemma_gcd, lemma_nat_text, lemma_normalize_integer, nat_text,
    normalize,
};

verus! {

proof fn lemma_mod_scale(s: int, a: int, b: int)
    requires
        s > 0,
        b > 0,
        a >= 0,
    ensures
        (s * a) % (s * b) == s * (a % b),
        (s * a) / (s * b) == a / b,
{
    lemma_fundamental_div_mod(a, b);
    let q = a / b;
    let r = a % b;
    lemma_mod_pos_bound(a, b);
    assert(s * a == q * (s * b) + s * r) by (nonlinear_arith)
        requires
            a == b * q + r,
    ;
    assert(0 <= s * r < s * b) by (nonlinear_arith)
        requires
            0 <= r < b,
            s > 0,
    ;
    lemma_fundamental_div_mod_converse(s * a, s * b, q, s * r);
}

/// Scaling both arguments scales their gcd.
proof fn lemma_gcd_scale(s: nat, a: nat, b: nat)
    requires
        s > 0,
    ensures
        gcd(s * a, s * b) == s * gcd(a, b),
    decreases b,
{
    if b == 0 {
        assert(s * b == 0);
    } else {
        assert(s * b > 0) by (nonlinear_arith)
            requires
                s > 0,
                b > 0,
        ;
        lemma_mod_scale(s as int, a as int, b as int);
        lemma_mod_pos_bound(a as int, b as int);
        assert((s * a) % (s * b) == s * (a % b));
        lemma_gcd_scale(s, b, a % b);
    }
}

/// Scaling a fraction does not change its lowest terms.
proof fn lemma_normalize_scale(d: int, m: int, s: int)
    requires
        d >= 0,
        m > 0,
        s > 0,
    ensures
        normalize(d * s, m * s) == normalize(d, m),
{
    assert(d * s >= 0 && m * s > 0) by (nonlinear_arith)
        requires
            d >= 0,
            m > 0,
            s > 0,
    ;
    assert(abs(d * s) == (s as nat) * abs(d)) by (nonlinear_arith)
        requires
            d >= 0,
            s > 0,
    ;
    assert(abs(m * s) == (s as nat) * abs(m)) by (nonlinear_arith)
        requires
            m > 0,
            s > 0,
    ;
    lemma_gcd_scale(s as nat, abs(d), abs(m));
    let g = gcd(abs(d), abs(m)) as int;
    lemma_gcd(abs(d), abs(m));
    assert(g > 0);
    lemma_fundamental_div_mod(d, g);
    lemma_fundamental_div_mod(m, g);
    let dd = d / g;
    let mm = m / g;
    assert((d * s) == (s * g) * dd && (m * s) == (s * g) * mm) by (nonlinear_arith)
        requires
            d == g * dd + 0,
            m == g * mm + 0,
    ;
    assert(s * g > 0) by (nonlinear_arith)
        requires
            s > 0,
            g > 0,
    ;
    lemma_div_multiples_vanish(dd, s * g);
    lemma_div_multiples_vanish(mm, s * g);
    assert(gcd(abs(d * s), abs(m * s)) as int == s * g);
}


pub proof fn lemma_numeric_value_nonneg(s: Seq<char>)
    requires
        forall|i: int| 0 <= i < s.len() ==> is_numeric(#[trigger] s[i]),
    ensures
        digits_value(s) >= 0,
    decreases s.len(),
{
    if s.len() > 0 {
        assert(s.last() == s[s.len() - 1]);
        lemma_numeric_value_nonneg(s.drop_last());
    }
}

/// Digits after other characters shift them left.
proof fn lemma_digits_concat(x: Seq<char>, y: Seq<char>)
    requires
        dot_count(y) == 0,
    ensures
        digits_value(x + y) == digits_value(x) * ipow(10, y.len()) + digits_value(y),
        dot_count(x + y) == dot_count(x),
    decreases y.len(),
{
    if y.len() == 0 {
        assert(x + y =~= x);
    } else {
        let y1 = y.drop_last();
        assert((x + y).drop_last() =~= x + y1);
        assert((x + y).last() == y.last());
        assert(y.last() != '.');
        assert(dot_count(y1) == 0);
        lemma_digits_concat(x, y1);
        let n = y1.len();
        assert(ipow(10, y.len()) == 10 * ipow(10, n));
        let c = y.last() as int - '0' as int;
        assert(digits_value(x + y) == (digits_value(x) * ipow(10, n) + digits_value(y1)) * 10 + c);
        assert(digits_value(y) == digits_value(y1) * 10 + c);
        assert((digits_value(x) * ipow(10, n) + digits_value(y1)) * 10 + c == digits_value(x) * (10 * ipow(
            10,
            n,
        )) + (digits_value(y1) * 10 + c)) by (nonlinear_arith);
    }
}

proof fn lemma_frac_len(x: Seq<char>, y: Seq<char>)
    requires
        dot_count(x) == 0,
        dot_count(y) == 0,
    ensures
        frac_len(x + seq!['.'] + y) == y.len(),
        dot_count(x + seq!['.'] + y) == 1,
    decreases y.len(),
{
    let z = x + seq!['.'] + y;
    if y.len() == 0 {
        assert(z =~= x + seq!['.']);
        assert(z.drop_last() =~= x);
    } else {
        let y1 = y.drop_last();
        assert(z.drop_last() =~= x + seq!['.'] + y1);
        assert(z.last() == y.last());
        assert(dot_count(y1) == 0);
        lemma_frac_len(x, y1);
    }
}

proof fn lemma_ipow_add(a: nat, b: nat)
    ensures
        ipow(10, a + b) == ipow(10, a) * ipow(10, b),
        ipow(10, a) >= 1,
    decreases a + b,
{
    if b > 0 {
        lemma_ipow_add(a, (b - 1) as nat);
        assert(ipow(10, a + b) == 10 * ipow(10, (a + b - 1) as nat));
        assert(ipow(10, b) == 10 * ipow(10, (b - 1) as nat));
        assert(10 * (ipow(10, a) * ipow(10, (b - 1) as nat)) == ipow(10, a) * (10 * ipow(10, (b - 1) as nat)))
            by (nonlinear_arith);
    }
    if a > 0 {
        lemma_ipow_add((a - 1) as nat, 0);
        assert(ipow(10, a) == 10 * ipow(10, (a - 1) as nat));
    }
}

/// Long division that ends: the digits of `r / q`, read as an integer,
/// times `q`, are `r` times ten to their number.
proof fn lemma_frac_digits(r: nat, q: nat, fuel: nat, k: nat)
    requires
        q > 0,
        r < q,
        (r * ipow(10, k)) % (q as int) == 0,
        k <= fuel,
    ensures
        frac_digits(r, q, fuel).len() <= k,
        forall|i: int| 0 <= i < frac_digits(r, q, fuel).len() ==> is_digit(#[trigger] frac_digits(r, q, fuel)[i]),
        dot_count(frac_digits(r, q, fuel)) == 0,
        digits_value(frac_digits(r, q, fuel)) * q == r * ipow(10, frac_digits(r, q, fuel).len()),
    decreases k,
{
    let f = frac_digits(r, q, fuel);
    if r == 0 {
        assert(f =~= Seq::<char>::empty());
    } else {
        if k == 0 {
            assert(r * ipow(10, 0) == r);
            lemma_small_mod(r, q);
            assert(false);
        }
        let d = (10 * r) / q;
        let r2 = (10 * r) % q;
        lemma_fundamental_div_mod((10 * r) as int, q as int);
        lemma_mod_pos_bound((10 * r) as int, q as int);
        assert(d < 10) by (nonlinear_arith)
            requires
                10 * r == q * d + r2,
                r < q,
                0 <= r2,
        ;
        assert(ipow(10, k) == 10 * ipow(10, (k - 1) as nat));
        lemma_mul_mod_noop_left((10 * r) as int, ipow(10, (k - 1) as nat), q as int);
        assert((10 * r) * ipow(10, (k - 1) as nat) == r * ipow(10, k)) by (nonlinear_arith)
            requires
                ipow(10, k) == 10 * ipow(10, (k - 1) as nat),
        ;
        lemma_frac_digits(r2, q, (fuel - 1) as nat, (k - 1) as nat);
        let rest = frac_digits(r2, q, (fuel - 1) as nat);
        let head = seq![digit_char(d as int)];
        assert(f == head + rest);
        lemma_digit_char(d as int);
        assert(head.drop_last() =~= Seq::<char>::empty());
        assert(head.last() == digit_char(d as int));
        assert(head.last() != '.');
        assert(digits_value(head) == digits_value(head.drop_last()) * 10 + (head.last() as int - '0' as int));
        assert(digits_value(head) == d);
        assert(dot_count(head) == dot_count(head.drop_last()) + 0);
        assert(dot_count(head) == 0);
        lemma_digits_concat(head, rest);
        let n = rest.len();
        assert(ipow(10, n + 1) == 10 * ipow(10, n));
        assert(f.len() == n + 1);
        assert(digits_value(f) * q == r * ipow(10, f.len())) by (nonlinear_arith)
            requires
                digits_value(f) == d * ipow(10, n) + digits_value(rest),
                digits_value(rest) * q == r2 * ipow(10, n),
                10 * r == q * d + r2,
                ipow(10, f.len()) == 10 * ipow(10, n),
        ;
        assert forall|i: int| 0 <= i < f.len() implies is_digit(#[trigger] f[i]) by {
            if i > 0 {
                assert(f[i] == rest[i - 1]);
            }
        }
    }
}

/// The text of the value of a decimal numeral `n / 10^k` reads back as
/// that value.
pub proof fn lemma_decimal_round_trip(n: int, k: nat)
    requires
        0 <= n <= i64::MAX,
        k <= 18,
    ensures
        finite_expansion(normalize(n, ipow(10, k)).1 as nat),
        normalize(n, ipow(10, k)).0 >= 0,
        normalize(n, ipow(10, k)).1 >= 1,
        decimal_value(decimal_text(normalize(n, ipow(10, k)).0 as nat, normalize(n, ipow(10, k)).1 as nat))
            == Some(normalize(n, ipow(10, k))),
        forall|i: int|
            0 <= i < decimal_text(normalize(n, ipow(10, k)).0 as nat, normalize(n, ipow(10, k)).1 as nat).len()
                ==> is_numeric(
                #[trigger] decimal_text(normalize(n, ipow(10, k)).0 as nat, normalize(n, ipow(10, k)).1 as nat)[i],
            ),
{
    let m = ipow(10, k);
    lemma_ipow_add(k, 0);
    let v = normalize(n, m);
    let g = gcd(abs(n), abs(m)) as int;
    lemma_gcd(abs(n), abs(m));
    crate::num::lemma_normalize(n, m);
    lemma_fundamental_div_mod(n, g);
    lemma_fundamental_div_mod(m, g);
    let p = v.0;
    let q = v.1;
    assert(n == g * p && m == g * q);
    assert(p >= 0);
    // q divides 10^k
    assert(m == q * g) by (nonlinear_arith)
        requires
            m == g * q,
    ;
    lemma_mod_multiples_basic(g, q);
    assert(ipow(10, k) % q == 0);
    assert(finite_expansion(q as nat));
    let a = p / q;
    let r = p % q;
    lemma_fundamental_div_mod(p, q);
    lemma_mod_pos_bound(p, q);
    lemma_nat_text(a as nat);
    let text = decimal_text(p as nat, q as nat);
    if r == 0 {
        assert(text =~= nat_text(a as nat));
        // n = a * 10^k, so n / 10^k has lowest terms (a, 1)
        assert(n == a * m) by (nonlinear_arith)
            requires
                n == g * p,
                m == g * q,
                p == q * a + r,
                r == 0,
        ;
        lemma_normalize_scale(a, 1, m);
        lemma_normalize_integer(a);
        assert(a * 1 == a && 1 * m == m);
        assert(v == (a, 1int));
        assert(dot_count(text) != text.len());
        assert(ipow(10, 0) == 1);
        assert(frac_len(text) == 0);
    } else {
        assert((r * ipow(10, k)) % q == 0) by {
            assert(r * m == (r * g) * q) by (nonlinear_arith)
                requires
                    m == g * q,
            ;
            lemma_mod_multiples_basic(r * g, q);
        }
        lemma_frac_digits(r as nat, q as nat, 64, k);
        let f = frac_digits(r as nat, q as nat, 64);
        let kk = f.len();
        assert(kk >= 1) by {
            assert(f.len() > 0);
        }
        let x = nat_text(a as nat);
        assert(text == x + (seq!['.'] + f));
        assert(x + (seq!['.'] + f) =~= (x + seq!['.']) + f);
        lemma_frac_len(x, f);
        lemma_digits_concat(x + seq!['.'], f);
        assert((x + seq!['.']).drop_last() =~= x);
        assert(digits_value(x + seq!['.']) == a);
        let dv = digits_value(text);
        assert(dv == a * ipow(10, kk) + digits_value(f));
        // dv / 10^kk has the value p / q, and n / 10^k is dv / 10^kk scaled
        lemma_ipow_add(kk, (k - kk) as nat);
        let s = ipow(10, (k - kk) as nat);
        let mk = ipow(10, kk);
        assert(dv * q == p * mk) by (nonlinear_arith)
            requires
                dv == a * mk + digits_value(f),
                digits_value(f) * q == r * mk,
                p == q * a + r,
        ;
        assert(m == mk * s);
        assert(n == dv * s) by (nonlinear_arith)
            requires
                dv * q == p * mk,
                n == g * p,
                m == g * q,
                m == mk * s,
                mk >= 1,
                q >= 1,
        ;
        assert(forall|i: int| 0 <= i < text.len() ==> is_numeric(#[trigger] text[i])) by {
            assert forall|i: int| 0 <= i < text.len() implies is_numeric(#[trigger] text[i]) by {
                if i < x.len() {
                    assert(text[i] == x[i]);
                } else if i > x.len() {
                    assert(text[i] == f[i - x.len() - 1]);
                }
            }
        }
        lemma_numeric_value_nonneg(text);
        lemma_ipow_add((k - kk) as nat, 0);
        assert(dv <= n) by (nonlinear_arith)
            requires
                n == dv * s,
                dv >= 0,
                s >= 1,
        ;
        lemma_normalize_scale(dv, mk, s);
        assert(forall|i: int| 0 <= i < text.len() ==> is_numeric(#[trigger] text[i])) by {
            assert forall|i: int| 0 <= i < text.len() implies is_numeric(#[trigger] text[i]) by {
                if i < x.len() {
                    assert(text[i] == x[i]);
                } else if i > x.len() {
                    assert(text[i] == f[i - x.len() - 1]);
                }
            }
        }
    }
}

} // verus!
