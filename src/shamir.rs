//! Threshold secret sharing: each byte of a secret is the constant term of a
//! random polynomial over the field of 257 elements, and share `x` holds the
//! polynomial's values at `x`. Reconstruction interpolates back at zero.
use crate::field::{
    inverse, is_inverse, lemma_inverse_exists, lemma_inverse_unique, lemma_poly_constant, lemma_poly_quotient, p, poly_eval,
    poly_quotient, PRIME,
};
use vstd::arithmetic::div_mod::*;
use vstd::arithmetic::mul::*;
use vstd::prelude::*;

verus! {

/// One party's piece of a split secret.
pub struct Share {
    /// The evaluation point of this share, from 1 up.
    pub index: u8,
    /// How many distinct shares are needed to reconstruct the secret.
    pub threshold: u8,
    /// One field element (below 257) per byte of the secret.
    pub values: Vec<u16>,
}

#[derive(Clone, Copy, Debug, PartialEq, Eq, Structural)]
pub enum SharingError {
    /// The threshold is zero or above the number of shares.
    InvalidParameters,
    /// Fewer shares than the threshold were given.
    InsufficientShares,
    /// Two shares carry the same index.
    DuplicateIndex,
    /// The shares disagree in threshold or length, or hold values outside the field.
    MalformedShare,
}

pub open spec fn ints(s: Seq<u16>) -> Seq<int> {
    s.map_values(|v: u16| v as int)
}

/// The polynomial hiding byte `j`: the byte as constant term, then its `t - 1`
/// coefficients, taken from `coeffs` block by block.
pub open spec fn byte_poly(secret: Seq<u8>, t: int, coeffs: Seq<u16>, j: int) -> Seq<int> {
    seq![secret[j] as int] + ints(coeffs.subrange(j * (t - 1), (j + 1) * (t - 1)))
}

/// The value that the share with index `x` holds for byte `j`.
pub open spec fn share_value(secret: Seq<u8>, t: int, coeffs: Seq<u16>, j: int, x: int) -> int {
    poly_eval(byte_poly(secret, t, coeffs, j), x) % p()
}

/// `s` is the share of `secret` at its own index, under threshold `t` and coefficients `coeffs`.
pub open spec fn is_share_of(s: Share, secret: Seq<u8>, t: int, coeffs: Seq<u16>) -> bool {
    &&& s.threshold as int == t
    &&& s.values@.len() == secret.len()
    &&& forall|j: int|
        0 <= j < secret.len() ==> s.values@[j] as int == share_value(
            secret,
            t,
            coeffs,
            j,
            s.index as int,
        )
}

/// `shares` are the `n` shares of `secret` under threshold `t`, with share `i`
/// (from 0) at index `i + 1`, made from the field coefficients `coeffs`.
pub open spec fn is_split_of(shares: Seq<Share>, secret: Seq<u8>, t: int, n: int, coeffs: Seq<u16>) -> bool {
    &&& shares.len() == n
    &&& coeffs.len() == secret.len() * (t - 1)
    &&& forall|k: int| 0 <= k < coeffs.len() ==> coeffs[k] < PRIME
    &&& forall|i: int|
        0 <= i < n ==> #[trigger] shares[i].index == i + 1 && is_share_of(shares[i], secret, t, coeffs)
}

/// Value at zero of the polynomial of degree below `xs.len()` through the points
/// `(xs[i], ys[i])`: the last point is divided out, and the rest interpolated.
pub open spec fn interpolate(xs: Seq<int>, ys: Seq<int>) -> int
    decreases xs.len(),
{
    if xs.len() <= 1 {
        if ys.len() == 0 {
            0
        } else {
            ys[0] % p()
        }
    } else {
        let k = xs.len() - 1;
        let a = xs[k];
        let b = ys[k];
        let reduced = Seq::new(k as nat, |i: int| ((ys[i] - b) * inverse(xs[i] - a)) % p());
        (b - a * interpolate(xs.subrange(0, k), reduced)) % p()
    }
}

pub open spec fn xs_of(shares: Seq<Share>) -> Seq<int> {
    shares.map_values(|s: Share| s.index as int)
}

pub open spec fn column(shares: Seq<Share>, j: int) -> Seq<int> {
    shares.map_values(|s: Share| s.values@[j] as int)
}

/// All shares have a nonzero index, the first share's threshold and length, and field values.
pub open spec fn shares_consistent(shares: Seq<Share>) -> bool {
    forall|i: int| 0 <= i < shares.len() ==> #[trigger] share_fits(shares[i], shares[0])
}

/// `s` has a nonzero index, the threshold and length of `first`, and field values.
pub open spec fn share_fits(s: Share, first: Share) -> bool {
    &&& s.index >= 1
    &&& s.threshold == first.threshold
    &&& s.values@.len() == first.values@.len()
    &&& forall|j: int| 0 <= j < s.values@.len() ==> s.values@[j] < PRIME
}

pub open spec fn has_duplicate_index(shares: Seq<Share>) -> bool {
    exists|i: int, k: int| 0 <= i < k < shares.len() && shares[i].index == shares[k].index
}

/// The field value recovered for each byte position.
pub open spec fn recovered(shares: Seq<Share>) -> Seq<int> {
    Seq::new(shares[0].values@.len(), |j: int| interpolate(xs_of(shares), column(shares, j)))
}

/// What reconstructing from `shares` gives.
pub open spec fn reconstruct_result(shares: Seq<Share>) -> Result<Seq<u8>, SharingError> {
    if shares.len() == 0 || shares.len() < shares[0].threshold {
        Err(SharingError::InsufficientShares)
    } else if !shares_consistent(shares) {
        Err(SharingError::MalformedShare)
    } else if has_duplicate_index(shares) {
        Err(SharingError::DuplicateIndex)
    } else if exists|j: int| 0 <= j < recovered(shares).len() && recovered(shares)[j] >= 256 {
        Err(SharingError::MalformedShare)
    } else {
        Ok(recovered(shares).map_values(|v: int| v as u8))
    }
}

pub open spec fn bytes_result(r: Result<Vec<u8>, SharingError>) -> Result<Seq<u8>, SharingError> {
    match r {
        Ok(v) => Ok(v@),
        Err(e) => Err(e),
    }
}

proof fn lemma_mod_shift(x: int, y: int, k: int)
    requires
        x == y + p() * k,
    ensures
        x % p() == y % p(),
{
    lemma_mod_multiples_vanish(k, y, p());
}

proof fn lemma_block_bounds(j: int, n: int, t: int)
    requires
        0 <= j < n,
        t >= 1,
    ensures
        0 <= j * (t - 1),
        j * (t - 1) + (t - 1) == (j + 1) * (t - 1),
        (j + 1) * (t - 1) <= n * (t - 1),
{
    assert(0 <= j * (t - 1)) by (nonlinear_arith)
        requires
            0 <= j,
            t >= 1,
    ;
    assert(j * (t - 1) + (t - 1) == (j + 1) * (t - 1)) by (nonlinear_arith);
    assert((j + 1) * (t - 1) <= n * (t - 1)) by (nonlinear_arith)
        requires
            j + 1 <= n,
            t >= 1,
    ;
}

proof fn lemma_byte_poly(secret: Seq<u8>, t: int, coeffs: Seq<u16>, j: int)
    requires
        0 <= j < secret.len(),
        t >= 1,
        coeffs.len() == secret.len() * (t - 1),
    ensures
        byte_poly(secret, t, coeffs, j).len() == t,
        poly_eval(byte_poly(secret, t, coeffs, j), 0) % p() == secret[j] as int,
{
    lemma_block_bounds(j, secret.len() as int, t);
    let c = byte_poly(secret, t, coeffs, j);
    assert(poly_eval(c, 0) == c[0] + 0 * poly_eval(c.subrange(1, c.len() as int), 0));
}

proof fn lemma_reduce_step(ei: int, ea: int, xi: int, a: int, qi: int, inv: int)
    requires
        ei == ea + (xi - a) * qi,
        ((xi - a) * inv) % p() == 1,
    ensures
        (((ei % p()) - (ea % p())) * inv) % p() == qi % p(),
{
    let y = (ei % p()) - (ea % p());
    lemma_fundamental_div_mod(ei, p());
    lemma_fundamental_div_mod(ea, p());
    let k = ea / p() - ei / p();
    assert(y == (xi - a) * qi + p() * k);
    let prod = (xi - a) * inv;
    lemma_fundamental_div_mod(prod, p());
    let m = prod / p();
    assert(y * inv == qi + p() * (k * inv + qi * m)) by (nonlinear_arith)
        requires
            y == (xi - a) * qi + p() * k,
            prod == (xi - a) * inv,
            prod == p() * m + 1,
    ;
    lemma_mod_shift(y * inv, qi, k * inv + qi * m);
}

proof fn lemma_final_step(ea: int, a: int, q0: int)
    ensures
        ((ea % p()) - a * (q0 % p())) % p() == (ea - a * q0) % p(),
{
    lemma_fundamental_div_mod(ea, p());
    lemma_fundamental_div_mod(q0, p());
    let x = (ea % p()) - a * (q0 % p());
    let k = a * (q0 / p()) - ea / p();
    assert(x == (ea - a * q0) + p() * k) by (nonlinear_arith)
        requires
            ea == p() * (ea / p()) + ea % p(),
            q0 == p() * (q0 / p()) + q0 % p(),
            x == (ea % p()) - a * (q0 % p()),
            k == a * (q0 / p()) - ea / p(),
    ;
    lemma_mod_shift(x, ea - a * q0, k);
}

/// Interpolation at zero through the values of a polynomial of degree below the
/// number of distinct points gives back the polynomial's constant term.
pub proof fn lemma_interpolate_poly(xs: Seq<int>, ys: Seq<int>, c: Seq<int>)
    requires
        xs.len() >= 1,
        ys.len() == xs.len(),
        c.len() <= xs.len(),
        forall|i: int| 0 <= i < xs.len() ==> 1 <= #[trigger] xs[i] <= 255,
        forall|i: int, k: int| 0 <= i < k < xs.len() ==> xs[i] != xs[k],
        forall|i: int| 0 <= i < xs.len() ==> #[trigger] ys[i] == poly_eval(c, xs[i]) % p(),
    ensures
        interpolate(xs, ys) == poly_eval(c, 0) % p(),
    decreases xs.len(),
{
    if xs.len() == 1 {
        lemma_poly_constant(c, xs[0]);
        lemma_mod_twice(poly_eval(c, 0), p());
    } else {
        let k = xs.len() - 1;
        let a = xs[k];
        let b = ys[k];
        let q = poly_quotient(c, a);
        lemma_poly_quotient(c, a, 0);
        let reduced = Seq::new(k as nat, |i: int| ((ys[i] - b) * inverse(xs[i] - a)) % p());
        let xs2 = xs.subrange(0, k);
        assert forall|i: int| 0 <= i < xs2.len() implies #[trigger] reduced[i] == poly_eval(
            q,
            xs2[i],
        ) % p() by {
            let xi = xs[i];
            lemma_poly_quotient(c, a, xi);
            assert((xi - a) % p() != 0);
            lemma_inverse_exists(xi - a);
            lemma_reduce_step(
                poly_eval(c, xi),
                poly_eval(c, a),
                xi,
                a,
                poly_eval(q, xi),
                inverse(xi - a),
            );
        }
        lemma_interpolate_poly(xs2, reduced, q);
        lemma_final_step(poly_eval(c, a), a, poly_eval(q, 0));
    }
}

proof fn lemma_horner_step(cm: int, x: int, e: int)
    ensures
        (cm + x * (e % p())) % p() == (cm + x * e) % p(),
{
    lemma_fundamental_div_mod(e, p());
    let k = x * (e / p());
    assert(cm + x * (e % p()) + p() * k == cm + x * e) by (nonlinear_arith)
        requires
            e == p() * (e / p()) + e % p(),
            k == x * (e / p()),
    ;
    lemma_mod_shift(cm + x * e, cm + x * (e % p()), k);
}

/// The value that the share at `x` holds for byte `j`, by Horner's rule.
fn eval_byte(secret: &Vec<u8>, threshold: u8, coeffs: &Vec<u16>, j: usize, x: u8) -> (v: u16)
    requires
        threshold >= 1,
        j < secret.len(),
        coeffs.len() == secret.len() * (threshold - 1),
    ensures
        v as int == share_value(secret@, threshold as int, coeffs@, j as int, x as int),
        v < PRIME,
{
    let d = (threshold - 1) as usize;
    proof {
        lemma_block_bounds(j as int, secret.len() as int, threshold as int);
        lemma_byte_poly(secret@, threshold as int, coeffs@, j as int);
    }
    let base = j * d;
    let ghost c = byte_poly(secret@, threshold as int, coeffs@, j as int);
    let ghost blk = coeffs@.subrange(base as int, (base + d) as int);
    assert(c == seq![secret@[j as int] as int] + ints(blk));
    let mut acc: u32 = 0;
    let mut m: usize = d + 1;
    assert(c.subrange(m as int, c.len() as int).len() == 0);
    while m > 0
        invariant
            0 <= m <= d + 1,
            c.len() == d + 1,
            base + d <= coeffs.len(),
            base == j * d,
            c == seq![secret@[j as int] as int] + ints(blk),
            blk == coeffs@.subrange(base as int, (base + d) as int),
            d == threshold - 1,
            j < secret.len(),
            acc < PRIME,
            acc as int == poly_eval(c.subrange(m as int, c.len() as int), x as int) % p(),
        decreases m,
    {
        let cm: u32 = if m == 1 {
            secret[j] as u32
        } else {
            coeffs[base + (m - 2)] as u32
        };
        assert(cm as int == c[m - 1]) by {
            if m >= 2 {
                assert(c[m - 1] == ints(blk)[m - 2]);
            }
        }
        proof {
            let tail = c.subrange(m - 1, c.len() as int);
            assert(tail.subrange(1, tail.len() as int) =~= c.subrange(m as int, c.len() as int));
            lemma_horner_step(
                cm as int,
                x as int,
                poly_eval(c.subrange(m as int, c.len() as int), x as int),
            );
        }
        assert((x as u32) * acc <= 255 * 256) by (nonlinear_arith)
            requires
                x <= 255,
                acc < 257,
        ;
        assert(cm < 65536);
        acc = (cm + (x as u32) * acc) % PRIME;
        m = m - 1;
    }
    assert(c.subrange(0, c.len() as int) =~= c);
    acc as u16
}

/// Splits `secret` into `total` shares under `threshold`, with the polynomial
/// coefficients of byte `j` taken from the `j`-th block of `threshold - 1`
/// entries of `coeffs`. Share `i` (from 0) has index `i + 1`.
pub fn split_with_coefficients(secret: &Vec<u8>, threshold: u8, total: u8, coeffs: &Vec<u16>) -> (r:
    Vec<Share>)
    requires
        1 <= threshold <= total,
        coeffs.len() == secret.len() * (threshold - 1),
    ensures
        r.len() == total,
        forall|i: int|
            0 <= i < r.len() ==> #[trigger] r[i].index == i + 1 && is_share_of(
                r[i],
                secret@,
                threshold as int,
                coeffs@,
            ),
{
    let mut shares: Vec<Share> = Vec::new();
    let mut i: u8 = 0;
    while i < total
        invariant
            i <= total,
            1 <= threshold <= total,
            coeffs.len() == secret.len() * (threshold - 1),
            shares.len() == i,
            forall|k: int|
                0 <= k < shares.len() ==> #[trigger] shares[k].index == k + 1 && is_share_of(
                    shares[k],
                    secret@,
                    threshold as int,
                    coeffs@,
                ),
        decreases total - i,
    {
        let x = i + 1;
        let mut values: Vec<u16> = Vec::new();
        let mut j: usize = 0;
        while j < secret.len()
            invariant
                j <= secret.len(),
                threshold >= 1,
                coeffs.len() == secret.len() * (threshold - 1),
                values.len() == j,
                forall|jj: int|
                    0 <= jj < j ==> #[trigger] values@[jj] as int == share_value(
                        secret@,
                        threshold as int,
                        coeffs@,
                        jj,
                        x as int,
                    ),
            decreases secret.len() - j,
        {
            let v = eval_byte(secret, threshold, coeffs, j, x);
            values.push(v);
            j = j + 1;
        }
        shares.push(Share { index: x, threshold, values });
        i = i + 1;
    }
    shares
}

/// Splits `secret` into `total` shares, any `threshold` of which recover it,
/// drawing every polynomial coefficient uniformly from the field.
pub fn split(secret: &Vec<u8>, threshold: u8, total: u8) -> (r: Result<Vec<Share>, SharingError>)
    requires
        secret.len() * 255 <= usize::MAX,
    ensures
        r is Ok <==> 1 <= threshold <= total,
        r is Err ==> r == Err::<Vec<Share>, SharingError>(SharingError::InvalidParameters),
        r is Ok ==> exists|coeffs: Seq<u16>|
            #[trigger] is_split_of(r->Ok_0@, secret@, threshold as int, total as int, coeffs),
{
    if threshold == 0 || threshold > total {
        return Err(SharingError::InvalidParameters);
    }
    assert(secret.len() * (threshold - 1) <= secret.len() * 255) by (nonlinear_arith)
        requires
            threshold >= 1,
    ;
    let n = secret.len() * ((threshold - 1) as usize);
    let mut coeffs: Vec<u16> = Vec::new();
    while coeffs.len() < n
        invariant
            coeffs.len() <= n,
            forall|k: int| 0 <= k < coeffs.len() ==> coeffs[k] < PRIME,
        decreases n - coeffs.len(),
    {
        coeffs.push(random_below(PRIME as u16));
    }
    let shares = split_with_coefficients(secret, threshold, total, &coeffs);
    assert(is_split_of(shares@, secret@, threshold as int, total as int, coeffs@));
    let r: Result<Vec<Share>, SharingError> = Ok(shares);
    assert(r->Ok_0@ == shares@);
    r
}

/// `t[d]` is the inverse of `d` for every nonzero field value `d`.
pub open spec fn inverse_table_ok(t: Seq<u16>) -> bool {
    t.len() == PRIME && forall|d: int| 1 <= d < PRIME ==> #[trigger] is_inverse(d, t[d] as int)
}

/// The inverses of all nonzero field values, found by search.
fn inverse_table() -> (t: Vec<u16>)
    ensures
        inverse_table_ok(t@),
{
    let mut t: Vec<u16> = Vec::new();
    t.push(0);
    let mut d: u32 = 1;
    while d < PRIME
        invariant
            1 <= d <= PRIME,
            t.len() == d,
            forall|e: int| 1 <= e < d ==> #[trigger] is_inverse(e, t@[e] as int),
        decreases PRIME - d,
    {
        let mut r: u32 = 1;
        let mut prod: u32 = d;
        proof {
            lemma_inverse_exists(d as int);
            assert(!is_inverse(d as int, 0));
        }
        while prod % PRIME != 1
            invariant
                1 <= d < PRIME,
                1 <= r < PRIME,
                prod == d * r,
                forall|r2: int| 0 <= r2 < r ==> !#[trigger] is_inverse(d as int, r2),
                is_inverse(d as int, inverse(d as int)),
            decreases PRIME - r,
        {
            assert(r + 1 < PRIME) by {
                if r + 1 >= PRIME {
                    let w = inverse(d as int);
                    assert(!is_inverse(d as int, r as int));
                    assert(!is_inverse(d as int, w));
                }
            }
            assert(d * (r + 1) < PRIME * PRIME && d * (r + 1) == d * r + d) by (nonlinear_arith)
                requires
                    d < PRIME,
                    r + 1 < PRIME,
            ;
            r = r + 1;
            prod = prod + d;
        }
        t.push(r as u16);
        d = d + 1;
    }
    t
}

/// Interpolation at zero, as `interpolate` describes it.
fn interpolate_at_zero(xs: &Vec<u16>, ys: &Vec<u16>, inv: &Vec<u16>) -> (r: u16)
    requires
        xs.len() >= 1,
        ys.len() == xs.len(),
        forall|i: int| 0 <= i < xs.len() ==> 1 <= #[trigger] xs[i] <= 255,
        forall|i: int, k: int| 0 <= i < k < xs.len() ==> xs[i] != xs[k],
        forall|i: int| 0 <= i < ys.len() ==> #[trigger] ys[i] < PRIME,
        inverse_table_ok(inv@),
    ensures
        r as int == interpolate(ints(xs@), ints(ys@)),
        r < PRIME,
    decreases xs.len(),
{
    let n = xs.len();
    if n == 1 {
        return ys[0];
    }
    let k = n - 1;
    let a = xs[k] as u32;
    let b = ys[k] as u32;
    let ghost reduced = Seq::new(
        k as nat,
        |i: int| ((ints(ys@)[i] - b) * inverse(ints(xs@)[i] - a)) % p(),
    );
    let mut xs2: Vec<u16> = Vec::new();
    let mut ys2: Vec<u16> = Vec::new();
    let mut i: usize = 0;
    while i < k
        invariant
            k == n - 1,
            n == xs.len(),
            n == ys.len(),
            i <= k,
            a == xs[k as int],
            b == ys[k as int],
            1 <= a <= 255,
            b < PRIME,
            forall|i: int| 0 <= i < xs.len() ==> 1 <= #[trigger] xs[i] <= 255,
            forall|i: int, k: int| 0 <= i < k < xs.len() ==> xs[i] != xs[k],
            forall|i: int| 0 <= i < ys.len() ==> #[trigger] ys[i] < PRIME,
            inverse_table_ok(inv@),
            reduced.len() == k,
            reduced == Seq::new(
                k as nat,
                |i: int| ((ints(ys@)[i] - b) * inverse(ints(xs@)[i] - a)) % p(),
            ),
            xs2.len() == i,
            ys2.len() == i,
            forall|j: int| 0 <= j < i ==> #[trigger] xs2[j] == xs[j],
            forall|j: int| 0 <= j < i ==> #[trigger] ys2[j] as int == reduced[j],
            forall|j: int| 0 <= j < i ==> ys2[j] < PRIME,
        decreases k - i,
    {
        let xi = xs[i] as u32;
        let yi = ys[i] as u32;
        let d = (xi + PRIME - a) % PRIME;
        proof {
            assert(xi != a);
            lemma_mod_shift(xi + PRIME - a, xi - a, 1);
            assert(d as int == (xi - a) % p());
            assert(1 <= d < PRIME);
        }
        let w = inv[d as usize] as u32;
        proof {
            assert(is_inverse(d as int, w as int));
            lemma_mul_mod_noop_left(xi - a, w as int, p());
            assert(is_inverse(xi - a, w as int));
            lemma_inverse_unique(xi - a, w as int);
        }
        let diff = (yi + PRIME - b) % PRIME;
        assert(diff * w < PRIME * PRIME) by (nonlinear_arith)
            requires
                diff < PRIME,
                w < PRIME,
        ;
        let v = (diff * w) % PRIME;
        proof {
            lemma_mod_shift(yi + PRIME - b, yi - b, 1);
            lemma_mul_mod_noop_left(yi - b, w as int, p());
            assert(v as int == reduced[i as int]);
        }
        xs2.push(xs[i]);
        ys2.push(v as u16);
        i = i + 1;
    }
    assert(ints(xs2@) =~= ints(xs@).subrange(0, k as int));
    assert(ints(ys2@) =~= reduced);
    let rec = interpolate_at_zero(&xs2, &ys2, inv) as u32;
    assert(a * rec <= 255 * 256) by (nonlinear_arith)
        requires
            a <= 255,
            rec < 257,
    ;
    let r = (b + 65792 - a * rec) % PRIME;
    proof {
        lemma_mod_shift(b + 65792 - a * rec, b - a * rec, 256);
    }
    r as u16
}

/// Recovers the secret from `shares`, as `reconstruct_result` describes.
pub fn reconstruct(shares: &Vec<Share>) -> (r: Result<Vec<u8>, SharingError>)
    ensures
        bytes_result(r) == reconstruct_result(shares@),
{
    let n = shares.len();
    if n == 0 || n < shares[0].threshold as usize {
        return Err(SharingError::InsufficientShares);
    }
    let threshold = shares[0].threshold;
    let len = shares[0].values.len();
    let mut i: usize = 0;
    while i < n
        invariant
            n == shares.len(),
            n >= 1,
            n >= shares[0].threshold,
            i <= n,
            threshold == shares[0].threshold,
            len == shares[0].values.len(),
            forall|k: int| 0 <= k < i ==> #[trigger] share_fits(shares[k], shares[0]),
        decreases n - i,
    {
        let s = &shares[i];
        if s.index == 0 || s.threshold != threshold || s.values.len() != len {
            assert(!share_fits(shares@[i as int], shares@[0]));
            return Err(SharingError::MalformedShare);
        }
        let mut j: usize = 0;
        while j < len
            invariant
                n == shares.len(),
                n >= 1,
                n >= shares[0].threshold,
                i < n,
                j <= len,
                s == shares@[i as int],
                len == s.values.len(),
                forall|jj: int| 0 <= jj < j ==> s.values@[jj] < PRIME,
            decreases len - j,
        {
            if s.values[j] >= PRIME as u16 {
                assert(!share_fits(shares@[i as int], shares@[0]));
                return Err(SharingError::MalformedShare);
            }
            j = j + 1;
        }
        assert(share_fits(shares@[i as int], shares@[0]));
        i = i + 1;
    }
    assert(shares_consistent(shares@));
    let mut i: usize = 0;
    while i < n
        invariant
            n == shares.len(),
            n >= 1,
            n >= shares[0].threshold,
            shares_consistent(shares@),
            i <= n,
            forall|a: int, b: int| 0 <= a < b < n && a < i ==> shares[a].index != shares[b].index,
        decreases n - i,
    {
        let mut k: usize = i + 1;
        while k < n
            invariant
                n == shares.len(),
                n >= 1,
                n >= shares[0].threshold,
                shares_consistent(shares@),
                i < n,
                i < k <= n,
                forall|a: int, b: int| 0 <= a < b < n && a < i ==> shares[a].index != shares[b].index,
                forall|b: int| i < b < k ==> shares[i as int].index != shares[b].index,
            decreases n - k,
        {
            if shares[i].index == shares[k].index {
                assert(0 <= i < k < n && shares@[i as int].index == shares@[k as int].index);
                return Err(SharingError::DuplicateIndex);
            }
            k = k + 1;
        }
        i = i + 1;
    }
    assert(!has_duplicate_index(shares@));
    let inv = inverse_table();
    let mut xs: Vec<u16> = Vec::new();
    let mut i: usize = 0;
    while i < n
        invariant
            n == shares.len(),
            i <= n,
            xs.len() == i,
            forall|k: int| 0 <= k < i ==> #[trigger] xs[k] as int == shares[k].index as int,
        decreases n - i,
    {
        xs.push(shares[i].index as u16);
        i = i + 1;
    }
    assert(ints(xs@) =~= xs_of(shares@));

    assert forall|k: int| 0 <= k < n implies 1 <= #[trigger] xs@[k] <= 255 by {
        assert(share_fits(shares@[k], shares@[0]));
    }
    assert forall|a: int, b: int| 0 <= a < b < n implies xs@[a] != xs@[b] by {
        assert(shares@[a].index != shares@[b].index);
    }
    let ghost rec = recovered(shares@);
    let mut out: Vec<u8> = Vec::new();
    let mut j: usize = 0;
    while j < len
        invariant
            n == shares.len(),
            n >= 1,
            n >= shares[0].threshold,
            len == shares[0].values.len(),
            rec == recovered(shares@),
            rec.len() == len,
            shares_consistent(shares@),
            !has_duplicate_index(shares@),
            inverse_table_ok(inv@),
            ints(xs@) == xs_of(shares@),
            xs.len() == n,
            forall|k: int| 0 <= k < n ==> 1 <= #[trigger] xs@[k] <= 255,
            forall|a: int, b: int| 0 <= a < b < n ==> xs@[a] != xs@[b],
            j <= len,
            out.len() == j,
            forall|jj: int| 0 <= jj < j ==> #[trigger] rec[jj] < 256,
            forall|jj: int| 0 <= jj < j ==> #[trigger] out@[jj] == rec[jj] as u8,
        decreases len - j,
    {
        let mut ys: Vec<u16> = Vec::new();
        let mut i: usize = 0;
        while i < n
            invariant
                n == shares.len(),
                n >= 1,
                len == shares[0].values.len(),
                j < len,
                shares_consistent(shares@),
                xs.len() == n,
                i <= n,
                ys.len() == i,
                forall|k: int| 0 <= k < i ==> #[trigger] ys[k] == shares[k].values@[j as int],
                forall|k: int| 0 <= k < i ==> ys[k] < PRIME,
            decreases n - i,
        {
            assert(share_fits(shares@[i as int], shares@[0]));
            ys.push(shares[i].values[j]);
            i = i + 1;
        }
        assert(ints(ys@) =~= column(shares@, j as int));
        let v = interpolate_at_zero(&xs, &ys, &inv);
        assert(v as int == rec[j as int]);
        if v >= 256 {
            return Err(SharingError::MalformedShare);
        }
        let ghost prev = out@;
        out.push(v as u8);
        assert forall|jj: int| 0 <= jj < j + 1 implies #[trigger] out@[jj] == rec[jj] as u8 by {
            if jj < j {
                assert(out@[jj] == prev[jj]);
            }
        }
        j = j + 1;
    }
    assert(out@ =~= rec.map_values(|v: int| v as u8));
    Ok(out)
}

/// Any `t` or more distinct shares made by splitting a secret under threshold
/// `t` give back that secret.
pub proof fn lemma_split_then_reconstruct(
    secret: Seq<u8>,
    t: int,
    coeffs: Seq<u16>,
    shares: Seq<Share>,
)
    requires
        1 <= t,
        coeffs.len() == secret.len() * (t - 1),
        shares.len() >= t,
        forall|i: int|
            0 <= i < shares.len() ==> 1 <= #[trigger] shares[i].index && is_share_of(
                shares[i],
                secret,
                t,
                coeffs,
            ),
        forall|i: int, k: int| 0 <= i < k < shares.len() ==> shares[i].index != shares[k].index,
    ensures
        reconstruct_result(shares) == Ok::<Seq<u8>, SharingError>(secret),
{
    let xs = xs_of(shares);
    assert(1 <= shares[0].index && is_share_of(shares[0], secret, t, coeffs));
    assert forall|i: int| 0 <= i < shares.len() implies {
        &&& shares[i].index >= 1
        &&& shares[i].threshold == shares[0].threshold
        &&& shares[i].values@.len() == shares[0].values@.len()
        &&& forall|j: int| 0 <= j < shares[i].values@.len() ==> shares[i].values@[j] < PRIME
    } by {
        assert(is_share_of(shares[i], secret, t, coeffs));
        assert(is_share_of(shares[0], secret, t, coeffs));
    }
    let rec = recovered(shares);
    assert(rec.len() == secret.len());
    assert forall|j: int| 0 <= j < rec.len() implies rec[j] == secret[j] as int by {
        let c = byte_poly(secret, t, coeffs, j);
        lemma_byte_poly(secret, t, coeffs, j);
        assert forall|i: int| 0 <= i < xs.len() implies #[trigger] column(shares, j)[i] == poly_eval(
            c,
            xs[i],
        ) % p() by {
            assert(is_share_of(shares[i], secret, t, coeffs));
        }
        lemma_interpolate_poly(xs, column(shares, j), c);
    }
    assert(rec.map_values(|v: int| v as u8) =~= secret);
}

/// Fewer shares than the threshold never give back anything.
pub proof fn lemma_too_few_shares(secret: Seq<u8>, t: int, coeffs: Seq<u16>, shares: Seq<Share>)
    requires
        shares.len() < t,
        forall|i: int| 0 <= i < shares.len() ==> #[trigger] is_share_of(shares[i], secret, t, coeffs),
    ensures
        reconstruct_result(shares) == Err::<Seq<u8>, SharingError>(SharingError::InsufficientShares),
{
    if shares.len() > 0 {
        assert(is_share_of(shares[0], secret, t, coeffs));
    }
}

/// Relies on `rand::Rng::gen_range` over the thread-local generator: a value
/// drawn uniformly from `0..bound`.
#[verifier::external_body]
fn random_below(bound: u16) -> (r: u16)
    requires
        bound > 0,
    ensures
        r < bound,
{
    rand::Rng::gen_range(&mut rand::thread_rng(), 0..bound)
}

} // verus!
