//! Arithmetic in the prime field of 257 elements, and polynomials over it.
use vstd::arithmetic::div_mod::*;
use vstd::arithmetic::mul::*;
use vstd::prelude::*;

verus! {

/// The order of the field: the smallest prime above every byte value.
pub const PRIME: u32 = 257;

pub open spec fn p() -> int {
    257
}

/// `r` is the multiplicative inverse of `d` among the field's canonical values.
pub open spec fn is_inverse(d: int, r: int) -> bool {
    0 <= r < p() && (d * r) % p() == 1
}

/// The inverse of `d` modulo the field order (meaningful when `d` is not a multiple of it).
pub open spec fn inverse(d: int) -> int {
    choose|r: int| is_inverse(d, r)
}

/// Value at `x` of the polynomial whose coefficients, constant term first, are `c`.
pub open spec fn poly_eval(c: Seq<int>, x: int) -> int
    decreases c.len(),
{
    if c.len() == 0 {
        0
    } else {
        c[0] + x * poly_eval(c.subrange(1, c.len() as int), x)
    }
}

/// The quotient of the polynomial `c` divided by `X - a`.
pub open spec fn poly_quotient(c: Seq<int>, a: int) -> Seq<int>
    decreases c.len(),
{
    if c.len() <= 1 {
        Seq::empty()
    } else {
        let rest = c.subrange(1, c.len() as int);
        seq![poly_eval(rest, a)] + poly_quotient(rest, a)
    }
}

/// Dividing by `X - a` leaves the remainder `c(a)` and lowers the degree by one.
pub proof fn lemma_poly_quotient(c: Seq<int>, a: int, x: int)
    ensures
        poly_quotient(c, a).len() == if c.len() == 0 { 0 } else { c.len() - 1 },
        poly_eval(c, x) == poly_eval(c, a) + (x - a) * poly_eval(poly_quotient(c, a), x),
    decreases c.len(),
{
    if c.len() <= 1 {
        if c.len() == 1 {
            let e = c.subrange(1, 1);
            assert(poly_eval(e, x) == 0);
            assert(poly_eval(e, a) == 0);
            assert(poly_eval(poly_quotient(c, a), x) == 0);
        }
    } else {
        let rest = c.subrange(1, c.len() as int);
        let q1 = poly_quotient(rest, a);
        let q = poly_quotient(c, a);
        lemma_poly_quotient(rest, a, x);
        assert(q.subrange(1, q.len() as int) =~= q1);
        let ra = poly_eval(rest, a);
        let rx = poly_eval(rest, x);
        let qx = poly_eval(q1, x);
        assert(poly_eval(q, x) == ra + x * qx);
        assert(rx == ra + (x - a) * qx);
        assert(x * rx - a * ra == (x - a) * (ra + x * qx)) by (nonlinear_arith)
            requires
                rx == ra + (x - a) * qx,
        ;
    }
}

/// A polynomial of degree zero takes the same value everywhere.
pub proof fn lemma_poly_constant(c: Seq<int>, x: int)
    requires
        c.len() <= 1,
    ensures
        poly_eval(c, x) == poly_eval(c, 0),
{
    if c.len() == 1 {
        let e = c.subrange(1, 1);
        assert(poly_eval(e, x) == 0);
        assert(poly_eval(e, 0) == 0);
    }
}

proof fn lemma_bezout(a: int, b: int) -> (r: (int, int, int))
    requires
        a > 0,
        b >= 0,
    ensures
        r.0 > 0,
        r.0 == r.1 * a + r.2 * b,
        a % r.0 == 0,
        b % r.0 == 0,
    decreases b,
{
    if b == 0 {
        lemma_mod_self_0(a);
        (a, 1, 0)
    } else {
        let m = a % b;
        lemma_fundamental_div_mod(a, b);
        lemma_mod_pos_bound(a, b);
        let (g, s, t) = lemma_bezout(b, m);
        let qa = a / b;
        lemma_fundamental_div_mod(b, g);
        lemma_fundamental_div_mod(m, g);
        let kb = b / g;
        let km = m / g;
        assert(a == g * (qa * kb + km)) by (nonlinear_arith)
            requires
                a == b * qa + m,
                b == g * kb + 0,
                m == g * km + 0,
        ;
        lemma_mod_multiples_basic(qa * kb + km, g);
        lemma_mul_is_commutative(g, qa * kb + km);
        assert(g == t * a + (s - t * qa) * b) by (nonlinear_arith)
            requires
                g == s * b + t * m,
                a == b * qa + m,
        ;
        (g, t, s - t * qa)
    }
}

/// Every value that is not a multiple of the field order has an inverse.
pub proof fn lemma_inverse_exists(d: int)
    requires
        d % p() != 0,
    ensures
        is_inverse(d, inverse(d)),
{
    let dm = d % p();
    let (g, s, t) = lemma_bezout(p(), dm);
    if g > dm {
        lemma_small_mod(dm as nat, g as nat);
    }
    if g != 1 {
        let gv = g as u32;
        assert(1 < gv && gv < 257 ==> 257u32 % gv != 0) by (bit_vector);
        assert(257u32 % gv != 0);
    }
    assert(g == 1);
    let r = t % p();
    lemma_mod_bound(t, p());
    lemma_mul_mod_noop_right(d, t, p());
    lemma_mul_mod_noop_left(d, t, p());
    assert((dm * t) % p() == 1) by {
        lemma_mod_multiples_vanish(-s, 1, p());
        assert(dm * t == p() * (-s) + 1) by (nonlinear_arith)
            requires
                1 == s * p() + t * dm,
        ;
    }
    assert(is_inverse(d, r));
}

/// The inverse is unique among the canonical values.
pub proof fn lemma_inverse_unique(d: int, r: int)
    requires
        is_inverse(d, r),
    ensures
        r == inverse(d),
{
    let r2 = inverse(d);
    assert(is_inverse(d, r2));
    lemma_mul_mod_noop_right(r, d * r2, p());
    lemma_mul_mod_noop_left(d * r, r2, p());
    lemma_mul_is_associative(r, d, r2);
    lemma_mul_is_commutative(r, d);
    lemma_small_mod(r as nat, 257);
    lemma_small_mod(r2 as nat, 257);
}

} // verus!
