//! Numbers that agree up to a relative error, counted in parts of 2^100.

use vstd::prelude::*;

verus! {

/// 2^100, the scale in which relative errors are counted.
pub open spec fn parts() -> int {
    0x10_0000_0000_0000_0000_0000_0000
}

/// Whether `x` is `y` up to `e` parts in 2^100.
pub open spec fn close(x: int, y: int, e: int) -> bool {
    (parts() - e) * y <= parts() * x <= (parts() + e) * y
}

/// A product of two products, with the factors paired the other way.
pub proof fn lemma_products_regroup(s: int, y: int, t: int, v: int)
    by (nonlinear_arith)
    ensures
        (s * y) * (t * v) == (s * t) * (y * v),
{
}

/// What is close stays close for a greater error.
pub proof fn lemma_close_widens(x: int, y: int, e: int, f: int)
    requires
        close(x, y, e),
        e <= f,
        y >= 0,
    ensures
        close(x, y, f),
{
    let m = parts();
    assert((m - f) * y <= (m - e) * y && (m + e) * y <= (m + f) * y) by (nonlinear_arith)
        requires
            e <= f,
            y >= 0,
    ;
}

/// Products of close numbers are close: the errors add up, and one part more.
pub proof fn lemma_close_products(x: int, y: int, e: int, u: int, v: int, f: int)
    requires
        close(x, y, e),
        close(u, v, f),
        x >= 0,
        y >= 0,
        u >= 0,
        v >= 0,
        0 <= e <= 0x4_0000_0000_0000,
        0 <= f <= 0x4_0000_0000_0000,
    ensures
        close(x * u, y * v, e + f + 1),
{
    let m = parts();
    let mx = m * x;
    let mu = m * u;
    let yv = y * v;
    let xu = x * u;
    // From above.
    let a = (m + e) * y;
    let b = (m + f) * v;
    assert(mx * mu <= a * b) by (nonlinear_arith)
        requires
            0 <= mx <= a,
            0 <= mu <= b,
    ;
    lemma_products_regroup(m, x, m, u);
    assert((m * m) * xu == m * (m * xu)) by (nonlinear_arith);
    lemma_products_regroup(m + e, y, m + f, v);
    assert((m + e) * (m + f) == m * m + m * (e + f) + e * f) by (nonlinear_arith);
    assert(e * f <= m) by (nonlinear_arith)
        requires
            0 <= e <= 0x4_0000_0000_0000,
            0 <= f <= 0x4_0000_0000_0000,
            m == 0x10_0000_0000_0000_0000_0000_0000,
    ;
    assert((m * m + m * (e + f) + e * f) * yv <= m * ((m + (e + f + 1)) * yv))
        by (nonlinear_arith)
        requires
            e * f <= m,
            yv >= 0,
            m > 0,
    ;
    assert(m * xu <= (m + (e + f + 1)) * yv) by (nonlinear_arith)
        requires
            m * (m * xu) <= m * ((m + (e + f + 1)) * yv),
            m > 0,
    ;
    // From below.
    let c = (m - e) * y;
    let d = (m - f) * v;
    assert(c * d <= mx * mu) by (nonlinear_arith)
        requires
            0 <= c <= mx,
            0 <= d <= mu,
    ;
    lemma_products_regroup(m - e, y, m - f, v);
    assert((m - e) * (m - f) == m * m - m * (e + f) + e * f) by (nonlinear_arith);
    assert(m * ((m - (e + f + 1)) * yv) <= (m * m - m * (e + f) + e * f) * yv)
        by (nonlinear_arith)
        requires
            e * f >= 0,
            yv >= 0,
            m > 0,
    ;
    assert((m - (e + f + 1)) * yv <= m * xu) by (nonlinear_arith)
        requires
            m * ((m - (e + f + 1)) * yv) <= m * (m * xu),
            m > 0,
    ;
}

/// Close numbers stay close when both are multiplied by the same factor.
pub proof fn lemma_close_scaled(x: int, y: int, e: int, k: int)
    requires
        close(x, y, e),
        k >= 0,
    ensures
        close(x * k, y * k, e),
{
    let m = parts();
    assert((m - e) * (y * k) <= m * (x * k) <= (m + e) * (y * k)) by (nonlinear_arith)
        requires
            (m - e) * y <= m * x <= (m + e) * y,
            k >= 0,
    ;
}

/// Numbers are close where their products with one positive factor are.
pub proof fn lemma_close_cancels(x: int, y: int, e: int, k: int)
    requires
        close(x * k, y * k, e),
        k > 0,
    ensures
        close(x, y, e),
{
    let m = parts();
    assert((m - e) * y <= m * x <= (m + e) * y) by (nonlinear_arith)
        requires
            (m - e) * (y * k) <= m * (x * k) <= (m + e) * (y * k),
            k > 0,
    ;
}

/// What is close to a number that is close to a third is close to the third:
/// the errors add up, and one part more.
pub proof fn lemma_close_chains(x: int, y: int, e: int, z: int, f: int)
    requires
        close(x, y, e),
        close(y, z, f),
        z >= 0,
        0 <= e <= 0x4_0000_0000_0000,
        0 <= f <= 0x4_0000_0000_0000,
    ensures
        close(x, z, e + f + 1),
{
    let m = parts();
    assert(e * f <= m) by (nonlinear_arith)
        requires
            0 <= e <= 0x4_0000_0000_0000,
            0 <= f <= 0x4_0000_0000_0000,
            m == 0x10_0000_0000_0000_0000_0000_0000,
    ;
    let my = m * y;
    assert(m * (m * x) <= (m + e) * my) by (nonlinear_arith)
        requires
            m * x <= (m + e) * y,
            my == m * y,
            m > 0,
    ;
    assert((m + e) * my <= (m + e) * ((m + f) * z)) by (nonlinear_arith)
        requires
            my <= (m + f) * z,
            m + e >= 0,
    ;
    assert((m + e) * ((m + f) * z) <= m * ((m + (e + f + 1)) * z)) by (nonlinear_arith)
        requires
            e * f <= m,
            z >= 0,
            m > 0,
    ;
    assert(m * x <= (m + (e + f + 1)) * z) by (nonlinear_arith)
        requires
            m * (m * x) <= m * ((m + (e + f + 1)) * z),
            m > 0,
    ;
    assert(m * (m * x) >= (m - e) * my) by (nonlinear_arith)
        requires
            m * x >= (m - e) * y,
            my == m * y,
            m > 0,
    ;
    assert((m - e) * my >= (m - e) * ((m - f) * z)) by (nonlinear_arith)
        requires
            my >= (m - f) * z,
            m - e >= 0,
    ;
    assert((m - e) * ((m - f) * z) >= m * ((m - (e + f + 1)) * z)) by (nonlinear_arith)
        requires
            e * f >= 0,
            z >= 0,
            m > 0,
    ;
    assert(m * x >= (m - (e + f + 1)) * z) by (nonlinear_arith)
        requires
            m * (m * x) >= m * ((m - (e + f + 1)) * z),
            m > 0,
    ;
}

/// Closeness holds both ways: one part more covers the other direction.
pub proof fn lemma_close_flips(x: int, y: int, e: int)
    requires
        close(x, y, e),
        x >= 0,
        y >= 0,
        0 <= e <= 0x2_0000_0000_0000,
    ensures
        close(y, x, e + 1),
{
    let m = parts();
    let f = e + 1;
    assert(e * e + e <= m) by (nonlinear_arith)
        requires
            0 <= e <= 0x2_0000_0000_0000,
            m == 0x10_0000_0000_0000_0000_0000_0000,
    ;
    assert((m + f) * (m - e) == m * m + m - (e * e + e)) by (nonlinear_arith)
        requires
            f == e + 1,
    ;
    assert((m - f) * (m + e) == m * m - m - (e * e + e)) by (nonlinear_arith)
        requires
            f == e + 1,
    ;
    let mx = m * x;
    let my = m * y;
    assert((m - e) * my <= m * mx) by (nonlinear_arith)
        requires
            (m - e) * y <= mx,
            my == m * y,
            m > 0,
            m - e >= 0,
    ;
    assert(m * (m * my) <= (m + f) * (m * mx)) by (nonlinear_arith)
        requires
            (m - e) * my <= m * mx,
            (m + f) * (m - e) >= m * m,
            my >= 0,
            mx >= 0,
            m + f >= 0,
    ;
    assert(my <= (m + f) * x) by (nonlinear_arith)
        requires
            m * (m * my) <= (m + f) * (m * mx),
            mx == m * x,
            m > 0,
    ;
    assert(m * mx <= (m + e) * my) by (nonlinear_arith)
        requires
            mx <= (m + e) * y,
            my == m * y,
            m > 0,
    ;
    assert((m - f) * (m * mx) <= m * (m * my)) by (nonlinear_arith)
        requires
            m * mx <= (m + e) * my,
            (m - f) * (m + e) <= m * m,
            my >= 0,
            mx >= 0,
            m - f >= 0,
    ;
    assert((m - f) * x <= my) by (nonlinear_arith)
        requires
            (m - f) * (m * mx) <= m * (m * my),
            mx == m * x,
            m > 0,
    ;
}

} // verus!
