use vstd::arithmetic::power::{lemma_pow_adds, pow};
use crate::group::fits_powers;
use vstd::prelude::*;

verus! {

/// Coefficient `k` of a polynomial stored lowest degree first; zero past the end.
pub open spec fn coeff(p: Seq<usize>, k: int) -> int {
    if 0 <= k < p.len() {
        p[k] as int
    } else {
        0
    }
}

/// `sum_{j < i} a_j * b_{k-j}`: the first `i` terms of coefficient `k` of `a * b`.
pub open spec fn conv(a: Seq<usize>, b: Seq<usize>, k: int, i: nat) -> int
    decreases i,
{
    if i == 0 {
        0
    } else {
        conv(a, b, k, (i - 1) as nat) + coeff(a, i - 1) * coeff(b, k - (i - 1))
    }
}

/// Coefficient `k` of the product `a * b`.
pub open spec fn product_coeff(a: Seq<usize>, b: Seq<usize>, k: nat) -> int {
    conv(a, b, k as int, k + 1)
}

/// `a * b == p` as integer polynomials (trailing zero coefficients do not matter).
pub open spec fn is_product(a: Seq<usize>, b: Seq<usize>, p: Seq<usize>) -> bool {
    forall|k: nat| #[trigger] product_coeff(a, b, k) == coeff(p, k as int)
}

/// Every coefficient is zero.
pub open spec fn is_zero_poly(p: Seq<usize>) -> bool {
    forall|k: int| 0 <= k < p.len() ==> p[k] == 0
}

/// Some polynomial with natural coefficients multiplies `t` to `p`.
pub open spec fn divides(t: Seq<usize>, p: Seq<usize>) -> bool {
    exists|h: Seq<usize>| is_product(t, h, p)
}

proof fn lemma_conv_nonneg_monotone(a: Seq<usize>, b: Seq<usize>, k: int, i: nat, j: nat)
    requires
        i <= j,
    ensures
        0 <= conv(a, b, k, i) <= conv(a, b, k, j),
    decreases j,
{
    if j > i {
        lemma_conv_nonneg_monotone(a, b, k, i, (j - 1) as nat);
        assert(coeff(a, j - 1) * coeff(b, k - (j - 1)) >= 0) by (nonlinear_arith)
            requires
                coeff(a, j - 1) >= 0,
                coeff(b, k - (j - 1)) >= 0,
        ;
    } else if i > 0 {
        lemma_conv_nonneg_monotone(a, b, k, (i - 1) as nat, (i - 1) as nat);
        assert(coeff(a, i - 1) * coeff(b, k - (i - 1)) >= 0) by (nonlinear_arith)
            requires
                coeff(a, i - 1) >= 0,
                coeff(b, k - (i - 1)) >= 0,
        ;
    }
}

/// Past the product's degree bound every term of the sum has a zero factor.
proof fn lemma_conv_vanishes(a: Seq<usize>, b: Seq<usize>, k: int, i: nat)
    requires
        a.len() == 0 || b.len() == 0 || k + 1 >= a.len() + b.len(),
    ensures
        conv(a, b, k, i) == 0,
    decreases i,
{
    if i > 0 {
        lemma_conv_vanishes(a, b, k, (i - 1) as nat);
        let j: int = i - 1;
        if b.len() == 0 {
            assert(coeff(b, k - j) == 0);
        } else if j < a.len() {
            assert(coeff(b, k - j) == 0);
        } else {
            assert(coeff(a, j) == 0);
        }
    }
}

/// Only the coefficients of the factors matter, not how many trailing zeros they carry.
proof fn lemma_conv_same_coeffs(a: Seq<usize>, a2: Seq<usize>, b: Seq<usize>, k: int, i: nat)
    requires
        forall|x: int| coeff(a, x) == coeff(a2, x),
    ensures
        conv(a, b, k, i) == conv(a2, b, k, i),
    decreases i,
{
    if i > 0 {
        lemma_conv_same_coeffs(a, a2, b, k, (i - 1) as nat);
        assert(coeff(a, i - 1) == coeff(a2, i - 1));
    }
}

/// Terms with `j > k` read `b` at a negative index, so they add nothing.
proof fn lemma_conv_saturates(a: Seq<usize>, b: Seq<usize>, k: int, i: nat)
    requires
        0 <= k,
        i >= k + 1,
    ensures
        conv(a, b, k, i) == conv(a, b, k, (k + 1) as nat),
    decreases i,
{
    if i > k + 1 {
        lemma_conv_saturates(a, b, k, (i - 1) as nat);
        assert(coeff(b, k - (i - 1)) == 0);
    }
}

/// Whether `a * b == p`, decided without overflow.
pub fn product_matches(a: &Vec<usize>, b: &Vec<usize>, p: &Vec<usize>) -> (r: bool)
    requires
        a.len() + b.len() <= usize::MAX + 1,
    ensures
        r == is_product(a@, b@, p@),
{
    let len_a: usize = a.len();
    let len_b: usize = b.len();
    let n_terms: usize = if len_a == 0 || len_b == 0 { 0 } else { len_a - 1 + len_b };
    let bound: usize = if n_terms > p.len() { n_terms } else { p.len() };
    let mut k: usize = 0;
    while k < bound
        invariant
            a.len() == len_a,
            b.len() == len_b,
            len_a == 0 || len_b == 0 || bound + 1 >= len_a + len_b,
            bound >= p.len(),
            k <= bound,
            forall|kk: nat| kk < k ==> #[trigger] product_coeff(a@, b@, kk) == coeff(p@, kk as int),
        decreases bound - k,
    {
        let target: usize = if k < p.len() { p[k] } else { 0 };
        let mut acc: usize = 0;
        let mut j: usize = 0;
        let mut over: bool = false;
        while j <= k && !over
            invariant
                a.len() == len_a,
                b.len() == len_b,
                j <= k + 1,
                k < bound,
                !over ==> acc as int == conv(a@, b@, k as int, j as nat),
                over ==> conv(a@, b@, k as int, j as nat) > usize::MAX,
            decreases k + 1 - j,
        {
            let x: usize = if j < len_a { a[j] } else { 0 };
            let y: usize = if k - j < len_b { b[k - j] } else { 0 };
            proof {
                lemma_conv_nonneg_monotone(a@, b@, k as int, 0, j as nat);
            }
            match x.checked_mul(y) {
                Some(t) => match acc.checked_add(t) {
                    Some(s) => {
                        acc = s;
                    },
                    None => {
                        over = true;
                    },
                },
                None => {
                    assert(coeff(a@, j as int) * coeff(b@, k - j) > usize::MAX);
                    over = true;
                },
            }
            j = j + 1;
        }
        if over {
            proof {
                lemma_conv_nonneg_monotone(a@, b@, k as int, j as nat, (k + 1) as nat);
                assert(product_coeff(a@, b@, k as nat) != coeff(p@, k as int));
            }
            return false;
        }
        proof {
            lemma_conv_saturates(a@, b@, k as int, j as nat);
        }
        if acc != target {
            assert(product_coeff(a@, b@, k as nat) != coeff(p@, k as int));
            return false;
        }
        k = k + 1;
    }
    proof {
        assert forall|kk: nat| #[trigger] product_coeff(a@, b@, kk) == coeff(p@, kk as int) by {
            if kk >= bound {
                lemma_conv_vanishes(a@, b@, kk as int, kk + 1);
            }
        }
    }
    true
}

/// `sum_{k < n} c_k * s^k`.
pub open spec fn value_upto(c: Seq<usize>, s: int, n: nat) -> int
    decreases n,
{
    if n == 0 {
        0
    } else {
        value_upto(c, s, (n - 1) as nat) + coeff(c, n - 1) * pow(s, (n - 1) as nat)
    }
}

/// The polynomial `c` evaluated at `s`.
pub open spec fn poly_value(c: Seq<usize>, s: int) -> int {
    value_upto(c, s, c.len())
}

/// `sum_{k < n} (a * b)_k * s^k`.
spec fn product_value_upto(a: Seq<usize>, b: Seq<usize>, s: int, n: nat) -> int
    decreases n,
{
    if n == 0 {
        0
    } else {
        product_value_upto(a, b, s, (n - 1) as nat) + product_coeff(a, b, (n - 1) as nat) * pow(
            s,
            (n - 1) as nat,
        )
    }
}

/// `sum_{m <= k < n} b_{k-m} * s^k`.
spec fn shifted_value_upto(b: Seq<usize>, s: int, m: nat, n: nat) -> int
    decreases n,
{
    if n == 0 {
        0
    } else {
        shifted_value_upto(b, s, m, (n - 1) as nat) + (if n - 1 >= m {
            coeff(b, n - 1 - m)
        } else {
            0
        }) * pow(s, (n - 1) as nat)
    }
}

/// Coefficients that are zero add nothing to the value.
pub proof fn lemma_value_zero_tail(c: Seq<usize>, s: int, n1: nat, n2: nat)
    requires
        n1 <= n2,
        forall|k: int| n1 <= k < n2 ==> coeff(c, k) == 0,
    ensures
        value_upto(c, s, n2) == value_upto(c, s, n1),
    decreases n2,
{
    if n2 > n1 {
        lemma_value_zero_tail(c, s, n1, (n2 - 1) as nat);
    }
}

proof fn lemma_value_same_coeffs(c: Seq<usize>, d: Seq<usize>, s: int, n: nat)
    requires
        forall|k: int| 0 <= k < n ==> coeff(c, k) == coeff(d, k),
    ensures
        value_upto(c, s, n) == value_upto(d, s, n),
    decreases n,
{
    if n > 0 {
        lemma_value_same_coeffs(c, d, s, (n - 1) as nat);
    }
}

/// Splitting off the last coefficient `x` of `a`, at index `m`, splits the sum.
proof fn lemma_conv_split(a: Seq<usize>, b: Seq<usize>, k: int, i: nat)
    requires
        a.len() > 0,
    ensures
        conv(a, b, k, i) == conv(a.drop_last(), b, k, i) + (if i > a.len() - 1 {
            a.last() * coeff(b, k - (a.len() - 1))
        } else {
            0
        }),
    decreases i,
{
    if i > 0 {
        lemma_conv_split(a, b, k, (i - 1) as nat);
        let j: int = i - 1;
        if j < a.len() - 1 {
            assert(coeff(a, j) == coeff(a.drop_last(), j));
        } else if j == a.len() - 1 {
            assert(coeff(a.drop_last(), j) == 0);
        } else {
            assert(coeff(a, j) == 0 && coeff(a.drop_last(), j) == 0);
        }
    }
}

proof fn lemma_product_value_split(a: Seq<usize>, b: Seq<usize>, s: int, n: nat)
    requires
        a.len() > 0,
    ensures
        product_value_upto(a, b, s, n) == product_value_upto(a.drop_last(), b, s, n) + a.last()
            * shifted_value_upto(b, s, (a.len() - 1) as nat, n),
    decreases n,
{
    if n > 0 {
        let k: nat = (n - 1) as nat;
        let m: nat = (a.len() - 1) as nat;
        lemma_product_value_split(a, b, s, k);
        lemma_conv_split(a, b, k as int, k + 1);
        let x: int = a.last() as int;
        let c: int = if k >= m { coeff(b, k - m) } else { 0 };
        assert(product_coeff(a, b, k) == product_coeff(a.drop_last(), b, k) + x * c);
        let pk: int = pow(s, k);
        assert((product_coeff(a.drop_last(), b, k) + x * c) * pk == product_coeff(
            a.drop_last(),
            b,
            k,
        ) * pk + x * (c * pk)) by (nonlinear_arith);
        assert(x * shifted_value_upto(b, s, m, k) + x * (c * pk) == x * (shifted_value_upto(
            b,
            s,
            m,
            k,
        ) + c * pk)) by (nonlinear_arith);
    }
}

proof fn lemma_shifted_value(b: Seq<usize>, s: int, m: nat, n: nat)
    requires
        n >= m,
    ensures
        shifted_value_upto(b, s, m, n) == pow(s, m) * value_upto(b, s, (n - m) as nat),
    decreases n,
{
    if n == m {
        lemma_shifted_zero(b, s, m, n);
    } else {
        lemma_shifted_value(b, s, m, (n - 1) as nat);
        let j: nat = (n - 1 - m) as nat;
        lemma_pow_adds(s, m, j);
        assert((m + j) as nat == (n - 1) as nat);
        let pm: int = pow(s, m);
        let v: int = value_upto(b, s, j);
        let cj: int = coeff(b, j as int);
        let pj: int = pow(s, j);
        assert(pm * v + cj * (pm * pj) == pm * (v + cj * pj)) by (nonlinear_arith);
    }
}

proof fn lemma_shifted_zero(b: Seq<usize>, s: int, m: nat, n: nat)
    requires
        n <= m,
    ensures
        shifted_value_upto(b, s, m, n) == 0,
    decreases n,
{
    if n > 0 {
        lemma_shifted_zero(b, s, m, (n - 1) as nat);
    }
}

proof fn lemma_product_value_full(a: Seq<usize>, b: Seq<usize>, s: int, n: nat)
    requires
        n >= a.len() + b.len(),
    ensures
        product_value_upto(a, b, s, n) == poly_value(a, s) * poly_value(b, s),
    decreases a.len(),
{
    if a.len() == 0 {
        lemma_product_value_empty(a, b, s, n);
    } else {
        let t = a.drop_last();
        let m: nat = (a.len() - 1) as nat;
        lemma_product_value_split(a, b, s, n);
        lemma_product_value_full(t, b, s, n);
        lemma_shifted_value(b, s, m, n);
        lemma_value_zero_tail(b, s, b.len(), (n - m) as nat);
        lemma_value_same_coeffs(a, t, s, m);
        assert(poly_value(a, s) == poly_value(t, s) + a.last() * pow(s, m));
        let vt: int = poly_value(t, s);
        let vb: int = poly_value(b, s);
        let x: int = a.last() as int;
        let pm: int = pow(s, m);
        assert(vt * vb + x * (pm * vb) == (vt + x * pm) * vb) by (nonlinear_arith);
    }
}

proof fn lemma_product_value_empty(a: Seq<usize>, b: Seq<usize>, s: int, n: nat)
    requires
        a.len() == 0,
    ensures
        product_value_upto(a, b, s, n) == 0,
    decreases n,
{
    if n > 0 {
        lemma_product_value_empty(a, b, s, (n - 1) as nat);
        lemma_conv_vanishes(a, b, (n - 1) as int, n);
    }
}

proof fn lemma_value_is_product_value(a: Seq<usize>, b: Seq<usize>, p: Seq<usize>, s: int, n: nat)
    requires
        is_product(a, b, p),
    ensures
        value_upto(p, s, n) == product_value_upto(a, b, s, n),
    decreases n,
{
    if n > 0 {
        lemma_value_is_product_value(a, b, p, s, (n - 1) as nat);
        assert(product_coeff(a, b, (n - 1) as nat) == coeff(p, n - 1));
    }
}

/// Evaluation respects multiplication: where `a * b == p`, `p(s) == a(s) * b(s)`.
pub proof fn lemma_product_evaluates(a: Seq<usize>, b: Seq<usize>, p: Seq<usize>, s: int)
    requires
        is_product(a, b, p),
    ensures
        poly_value(p, s) == poly_value(a, s) * poly_value(b, s),
{
    let n: nat = if p.len() > a.len() + b.len() { p.len() } else { a.len() + b.len() };
    lemma_value_is_product_value(a, b, p, s, n);
    lemma_product_value_full(a, b, s, n);
    lemma_value_zero_tail(p, s, p.len(), n);
}

/// `h` with every coefficient from index `j` on set to zero.
pub open spec fn below(h: Seq<usize>, j: int) -> Seq<usize> {
    Seq::new(h.len(), |i: int| if i < j { h[i] } else { 0usize })
}

/// With `a` zero above `n` and `b` zero above `d`, the top coefficient of the
/// product is `a_n * b_d`.
proof fn lemma_top_coeff(a: Seq<usize>, b: Seq<usize>, n: int, d: int, i: nat)
    requires
        0 <= n,
        0 <= d,
        forall|x: int| x > n ==> coeff(a, x) == 0,
        forall|x: int| x > d ==> coeff(b, x) == 0,
        i <= n + d + 1,
    ensures
        conv(a, b, n + d, i) == if i > n {
            coeff(a, n) * coeff(b, d)
        } else {
            0
        },
    decreases i,
{
    if i > 0 {
        lemma_top_coeff(a, b, n, d, (i - 1) as nat);
        let j: int = i - 1;
        if j < n {
            assert(coeff(b, n + d - j) == 0);
        } else if j > n {
            assert(coeff(a, j) == 0);
        }
    }
}

/// Where `b` and `b2` differ only by `c` at index `d`, their products with `a` differ
/// only by `c * a_{k-d}`.
proof fn lemma_conv_split_right(
    a: Seq<usize>,
    b: Seq<usize>,
    b2: Seq<usize>,
    d: int,
    c: int,
    k: int,
    i: nat,
)
    requires
        forall|x: int| coeff(b, x) == coeff(b2, x) + (if x == d { c } else { 0 }),
    ensures
        conv(a, b, k, i) == conv(a, b2, k, i) + (if 0 <= k - d < i {
            coeff(a, k - d) * c
        } else {
            0
        }),
    decreases i,
{
    if i > 0 {
        lemma_conv_split_right(a, b, b2, d, c, k, (i - 1) as nat);
        let j: int = i - 1;
        assert(coeff(b, k - j) == coeff(b2, k - j) + (if k - j == d { c } else { 0 }));
        assert(coeff(a, j) * coeff(b, k - j) == coeff(a, j) * coeff(b2, k - j) + (if k - j == d {
            coeff(a, j) * c
        } else {
            0
        })) by (nonlinear_arith)
            requires
                coeff(b, k - j) == coeff(b2, k - j) + (if k - j == d { c } else { 0 }),
        ;
    }
}

proof fn lemma_conv_same_coeffs_right(a: Seq<usize>, b: Seq<usize>, b2: Seq<usize>, k: int, i: nat)
    requires
        forall|x: int| coeff(b, x) == coeff(b2, x),
    ensures
        conv(a, b, k, i) == conv(a, b2, k, i),
    decreases i,
{
    if i > 0 {
        lemma_conv_same_coeffs_right(a, b, b2, k, (i - 1) as nat);
        assert(coeff(b, k - (i - 1)) == coeff(b2, k - (i - 1)));
    }
}

/// Each term of a product coefficient is at most the whole coefficient.
proof fn lemma_term_bounded(a: Seq<usize>, b: Seq<usize>, k: int, j: int, i: nat)
    requires
        0 <= j < i,
    ensures
        coeff(a, j) * coeff(b, k - j) <= conv(a, b, k, i),
    decreases i,
{
    if j < i - 1 {
        lemma_term_bounded(a, b, k, j, (i - 1) as nat);
        assert(coeff(a, i - 1) * coeff(b, k - (i - 1)) >= 0) by (nonlinear_arith)
            requires
                coeff(a, i - 1) >= 0,
                coeff(b, k - (i - 1)) >= 0,
        ;
    } else {
        lemma_conv_nonneg_monotone(a, b, k, 0, (i - 1) as nat);
    }
}

/// Index of the highest nonzero coefficient among the first `n`, if any.
proof fn lemma_top_nonzero(h: Seq<usize>, n: int) -> (d: int)
    requires
        0 <= n <= h.len(),
        exists|x: int| 0 <= x < n && h[x] != 0,
    ensures
        0 <= d < n,
        h[d] != 0,
        forall|x: int| d < x < n ==> h[x] == 0,
    decreases n,
{
    if h[n - 1] != 0 {
        n - 1
    } else {
        lemma_top_nonzero(h, n - 1)
    }
}

/// Where `t * h == p`, with `t` of degree `n` and `p` nonzero of degree `m`, the
/// quotient has degree `m - n`: so `n <= m`, and `h` is zero above `m - n`.
proof fn lemma_quotient_degree(t: Seq<usize>, h: Seq<usize>, p: Seq<usize>, n: int, m: int)
    requires
        is_product(t, h, p),
        0 <= n < t.len(),
        t[n] != 0,
        forall|x: int| n < x < t.len() ==> t[x] == 0,
        0 <= m < p.len(),
        p[m] != 0,
        forall|x: int| m < x < p.len() ==> p[x] == 0,
    ensures
        n <= m,
        forall|x: int| x > m - n ==> coeff(h, x) == 0,
{
    assert forall|x: int| x > n implies coeff(t, x) == 0 by {}
    if forall|x: int| 0 <= x < h.len() ==> h[x] == 0 {
        assert forall|i: nat| conv(t, h, m, i) == 0 by {
            lemma_conv_zero_right(t, h, m, i);
        }
        assert(product_coeff(t, h, m as nat) == coeff(p, m));
        assert(false);
    }
    let d = lemma_top_nonzero(h, h.len() as int);
    assert forall|x: int| x > d implies coeff(h, x) == 0 by {}
    lemma_top_coeff(t, h, n, d, (n + d + 1) as nat);
    assert(product_coeff(t, h, (n + d) as nat) == coeff(p, n + d));
    assert(coeff(t, n) * coeff(h, d) != 0) by (nonlinear_arith)
        requires
            coeff(t, n) > 0,
            coeff(h, d) > 0,
    ;
    assert(n + d <= m);
}

proof fn lemma_conv_zero_right(a: Seq<usize>, b: Seq<usize>, k: int, i: nat)
    requires
        forall|x: int| 0 <= x < b.len() ==> b[x] == 0,
    ensures
        conv(a, b, k, i) == 0,
    decreases i,
{
    if i > 0 {
        lemma_conv_zero_right(a, b, k, (i - 1) as nat);
        assert(coeff(b, k - (i - 1)) == 0);
    }
}

/// Why an exact division produced no quotient.
#[derive(Debug, Clone, Copy, PartialEq, Eq, Structural)]
pub enum DivisionError {
    /// The divisor has no nonzero coefficient.
    ZeroDivisor,
    /// Long division left a remainder: the dividend is no multiple of the divisor.
    NotDivisible,
}

/// Index of the highest nonzero coefficient, if any.
fn leading_index(p: &Vec<usize>) -> (r: Option<usize>)
    ensures
        r is None <==> is_zero_poly(p@),
        r matches Some(n) ==> n < p.len() && p[n as int] != 0 && forall|k: int|
            n < k < p.len() ==> p[k] == 0,
{
    let mut i: usize = p.len();
    while i > 0
        invariant
            i <= p.len(),
            forall|k: int| i <= k < p.len() ==> p[k] == 0,
        decreases i,
    {
        if p[i - 1] != 0 {
            return Some(i - 1);
        }
        i = i - 1;
    }
    None
}

/// Exact long division of `p_top` by `p_bottom` over natural coefficients.
///
/// Succeeds exactly where some quotient `h` with natural coefficients has
/// `p_bottom * h == p_top`, and then returns such an `h`; a remainder is reported as
/// an error, never rounded away.
pub fn exact_divide_integer_polynomial(p_top: &Vec<usize>, p_bottom: &Vec<usize>) -> (r: Result<
    Vec<usize>,
    DivisionError,
>)
    ensures
        r == Err::<Vec<usize>, DivisionError>(DivisionError::ZeroDivisor) <==> is_zero_poly(
            p_bottom@,
        ),
        r == Err::<Vec<usize>, DivisionError>(DivisionError::NotDivisible) <==> (!is_zero_poly(
            p_bottom@,
        ) && !divides(p_bottom@, p_top@)),
        r matches Ok(h) ==> is_product(p_bottom@, h@, p_top@) && h.len() <= p_top.len(),
        r matches Ok(h) ==> forall|len: int|
            0 <= len && #[trigger] fits_powers(len, p_top@) ==> h.len() <= len,
{
    let n: usize = match leading_index(p_bottom) {
        None => {
            return Err(DivisionError::ZeroDivisor);
        },
        Some(n) => n,
    };
    let lead: usize = p_bottom[n];
    let mut t: Vec<usize> = Vec::new();
    let mut c: usize = 0;
    while c <= n
        invariant
            n < p_bottom.len(),
            c <= n + 1,
            t.len() == c,
            forall|x: int| 0 <= x < c ==> t[x] == p_bottom[x],
        decreases n + 1 - c,
    {
        t.push(p_bottom[c]);
        c = c + 1;
    }
    assert forall|x: int| coeff(t@, x) == coeff(p_bottom@, x) by {}
    assert forall|x: int| x > n implies coeff(p_bottom@, x) == 0 by {}
    let m: usize = match leading_index(p_top) {
        None => {
            let h: Vec<usize> = Vec::new();
            proof {
                assert forall|k: nat| #[trigger] product_coeff(p_bottom@, h@, k) == coeff(
                    p_top@,
                    k as int,
                ) by {
                    lemma_conv_vanishes(p_bottom@, h@, k as int, k + 1);
                }
                assert(is_product(p_bottom@, h@, p_top@));
            }
            return Ok(h);
        },
        Some(m) => m,
    };
    let ghost divisible: bool = divides(p_bottom@, p_top@);
    let ghost hw: Seq<usize> = if divisible {
        choose|h: Seq<usize>| is_product(p_bottom@, h, p_top@)
    } else {
        Seq::empty()
    };
    proof {
        if divisible {
            lemma_quotient_degree(p_bottom@, hw, p_top@, n as int, m as int);
        }
    }
    if m < n {
        return Err(DivisionError::NotDivisible);
    }
    let mut rem: Vec<usize> = p_top.clone();
    let mut q: Vec<usize> = Vec::new();
    let mut z: usize = 0;
    while z <= m - n
        invariant
            n <= m,
            m < p_top.len(),
            z <= m - n + 1,
            q.len() == z,
        decreases m - n + 1 - z,
    {
        q.push(0);
        z = z + 1;
    }
    proof {
        if divisible {
            let top_j: int = (m - n + 1) as int;
            assert forall|x: int| coeff(below(hw, top_j), x) == coeff(hw, x) by {}
            assert forall|k: int| 0 <= k < rem.len() implies rem[k] as int == product_coeff(
                p_bottom@,
                below(hw, top_j),
                k as nat,
            ) by {
                lemma_conv_same_coeffs_right(
                    p_bottom@,
                    below(hw, top_j),
                    hw,
                    k,
                    (k + 1) as nat,
                );
                assert(product_coeff(p_bottom@, hw, k as nat) == coeff(p_top@, k));
            }
        }
    }
    let mut j: usize = m - n + 1;
    while j > 0
        invariant
            n <= m,
            m < p_top.len(),
            n < p_bottom.len(),
            rem.len() == p_top.len(),
            q.len() == m - n + 1,
            j <= m - n + 1,
            lead == p_bottom[n as int],
            lead != 0,
            forall|x: int| x > n ==> coeff(p_bottom@, x) == 0,
            divisible == divides(p_bottom@, p_top@),
            divisible ==> is_product(p_bottom@, hw, p_top@),
            divisible ==> forall|x: int| x > m - n ==> coeff(hw, x) == 0,
            divisible ==> forall|k: int|
                0 <= k < rem.len() ==> #[trigger] rem[k] as int == product_coeff(
                    p_bottom@,
                    below(hw, j as int),
                    k as nat,
                ),
            divisible ==> forall|x: int| j <= x < q.len() ==> #[trigger] q[x] as int == coeff(hw, x),
        decreases j,
    {
        j = j - 1;
        let top: usize = rem[j + n];
        let ghost hwd: int = coeff(hw, j as int);
        proof {
            if divisible {
                let d: int = j as int;
                assert forall|x: int| x > d implies #[trigger] coeff(below(hw, d + 1), x) == 0 by {}
                lemma_top_coeff(p_bottom@, below(hw, d + 1), n as int, d, (n + d + 1) as nat);
                assert(coeff(below(hw, d + 1), d) == hwd);
                assert(top as int == lead * hwd);
                assert((lead * hwd) % (lead as int) == 0 && (lead * hwd) / (lead as int) == hwd)
                    by (nonlinear_arith)
                    requires
                        lead > 0,
                ;
            }
        }
        if top % lead != 0 {
            return Err(DivisionError::NotDivisible);
        }
        let qj: usize = top / lead;
        q.set(j, qj);
        proof {
            if divisible {
                let d: int = j as int;
                assert forall|x: int|
                    #[trigger] coeff(below(hw, d + 1), x) == coeff(below(hw, d), x) + (if x == d {
                        hwd
                    } else {
                        0
                    }) by {}
                assert forall|k: nat|
                    k < rem.len() implies #[trigger] product_coeff(p_bottom@, below(hw, d + 1), k)
                    == product_coeff(p_bottom@, below(hw, d), k) + (if 0 <= k - d {
                    coeff(p_bottom@, k - d) * hwd
                } else {
                    0
                }) by {
                    lemma_conv_split_right(
                        p_bottom@,
                        below(hw, d + 1),
                        below(hw, d),
                        d,
                        hwd,
                        k as int,
                        k + 1,
                    );
                }
            }
        }
        let mut i: usize = 0;
        while i <= n
            invariant
                n <= m,
                m < p_top.len(),
                n < p_bottom.len(),
                rem.len() == p_top.len(),
                j <= m - n,
                i <= n + 1,
                p_bottom[n as int] != 0,
                divisible == divides(p_bottom@, p_top@),
                divisible ==> qj as int == coeff(hw, j as int),
                divisible ==> forall|k: nat|
                    k < rem.len() ==> #[trigger] product_coeff(p_bottom@, below(hw, j + 1), k)
                        == product_coeff(p_bottom@, below(hw, j as int), k) + (if 0 <= k - j {
                        coeff(p_bottom@, k - j) * coeff(hw, j as int)
                    } else {
                        0
                    }),
                divisible ==> forall|k: int|
                    0 <= k < rem.len() ==> #[trigger] rem[k] as int == if j <= k < j + i {
                        product_coeff(p_bottom@, below(hw, j as int), k as nat)
                    } else {
                        product_coeff(p_bottom@, below(hw, j + 1), k as nat)
                    },
            decreases n + 1 - i,
        {
            let ghost k: int = (j + i) as int;
            assert(divisible ==> qj * p_bottom[i as int] <= rem[k] as int && rem[k] as int
                == product_coeff(p_bottom@, below(hw, j as int), k as nat) + qj * p_bottom[i as int])
                by {
                if divisible {
                    lemma_conv_nonneg_monotone(
                        p_bottom@,
                        below(hw, j as int),
                        k,
                        0,
                        (k + 1) as nat,
                    );
                    assert(coeff(p_bottom@, i as int) == p_bottom[i as int]);
                    assert(rem[k] as int == product_coeff(p_bottom@, below(hw, j + 1), k as nat));
                    let kn: nat = k as nat;
                    assert(product_coeff(p_bottom@, below(hw, j + 1), kn) == product_coeff(
                        p_bottom@,
                        below(hw, j as int),
                        kn,
                    ) + coeff(p_bottom@, kn - j) * coeff(hw, j as int));
                    assert(kn - j == i);
                    assert(coeff(p_bottom@, i as int) * coeff(hw, j as int) == qj * p_bottom[i as int])
                        by (nonlinear_arith)
                        requires
                            qj as int == coeff(hw, j as int),
                            coeff(p_bottom@, i as int) == p_bottom[i as int],
                    ;
                    assert(qj * p_bottom[i as int] <= rem[k] as int) by (nonlinear_arith)
                        requires
                            rem[k] as int == product_coeff(p_bottom@, below(hw, j as int), k as nat)
                                + coeff(p_bottom@, i as int) * qj,
                            product_coeff(p_bottom@, below(hw, j as int), k as nat) >= 0,
                            coeff(p_bottom@, i as int) == p_bottom[i as int],
                    ;
                }
            }
            let sub: usize = match qj.checked_mul(p_bottom[i]) {
                Some(v) => v,
                None => {
                    return Err(DivisionError::NotDivisible);
                },
            };
            let v: usize = match rem[j + i].checked_sub(sub) {
                Some(v) => v,
                None => {
                    return Err(DivisionError::NotDivisible);
                },
            };
            let ghost old_rem: Seq<usize> = rem@;
            rem.set(j + i, v);
            assert(divisible ==> forall|k2: int|
                0 <= k2 < rem.len() ==> #[trigger] rem[k2] as int == if j <= k2 < j + i + 1 {
                    product_coeff(p_bottom@, below(hw, j as int), k2 as nat)
                } else {
                    product_coeff(p_bottom@, below(hw, j + 1), k2 as nat)
                }) by {
                if divisible {
                    assert forall|k2: int| 0 <= k2 < rem.len() implies #[trigger] rem[k2] as int
                        == if j <= k2 < j + i + 1 {
                        product_coeff(p_bottom@, below(hw, j as int), k2 as nat)
                    } else {
                        product_coeff(p_bottom@, below(hw, j + 1), k2 as nat)
                    } by {
                        if k2 != k {
                            assert(rem[k2] == old_rem[k2]);
                        }
                    }
                }
            }
            i = i + 1;
        }
        proof {
            if divisible {
                assert forall|k: int| 0 <= k < rem.len() implies #[trigger] rem[k] as int
                    == product_coeff(p_bottom@, below(hw, j as int), k as nat) by {
                    if !(j <= k < j + n + 1) && 0 <= k - j {
                        assert(coeff(p_bottom@, k - j) == 0);
                    }
                }
            }
        }
    }
    proof {
        if divisible {
            assert forall|x: int| coeff(q@, x) == coeff(hw, x) by {
                if 0 <= x < q.len() {
                    assert(q[x] as int == coeff(hw, x));
                }
            }
            assert forall|k: nat| #[trigger] product_coeff(t@, q@, k) == coeff(p_top@, k as int) by {
                lemma_conv_same_coeffs_right(p_bottom@, q@, hw, k as int, k + 1);
                lemma_conv_same_coeffs(t@, p_bottom@, q@, k as int, k + 1);
                assert(product_coeff(p_bottom@, hw, k) == coeff(p_top@, k as int));
            }
        }
    }
    if product_matches(&t, &q, p_top) {
        proof {
            assert forall|k: nat| #[trigger] product_coeff(p_bottom@, q@, k) == coeff(
                p_top@,
                k as int,
            ) by {
                lemma_conv_same_coeffs(t@, p_bottom@, q@, k as int, k + 1);
                assert(product_coeff(t@, q@, k) == coeff(p_top@, k as int));
            }
            assert(is_product(p_bottom@, q@, p_top@));
            assert forall|len: int| 0 <= len && #[trigger] fits_powers(len, p_top@) implies q.len()
                <= len by {
                if len <= m {
                    assert(p_top[m as int] == 0);
                }
            }
        }
        Ok(q)
    } else {
        Err(DivisionError::NotDivisible)
    }
}

} // verus!
