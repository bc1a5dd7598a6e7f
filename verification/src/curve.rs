//! Why a curve with little bend may be taken for its chord: at every
//! parameter the curve strays from the chord by no more than a fixed part of
//! the bend. Parameters are fractions `k / n`, and the coordinates of curve
//! and chord are taken times a power of `n`, so that all is said in integers.
use crate::edge::Point;
use crate::path::bend;
use crate::path::cubic_is_flat;
use crate::path::quad_is_flat;
use vstd::prelude::*;

verus! {

/// One coordinate of the chord from `a` to `b` at the parameter `k / n`,
/// times `n`.
pub open spec fn chord_at(a: int, b: int, k: int, n: int) -> int {
    (n - k) * a + k * b
}

/// One coordinate of the quadratic curve with the points `a`, `b`, `c` at
/// the parameter `k / n`, times `n * n`.
pub open spec fn quad_at(a: int, b: int, c: int, k: int, n: int) -> int {
    (n - k) * (n - k) * a + 2 * k * (n - k) * b + k * k * c
}

/// One coordinate of the cubic curve with the points `a`, `b`, `c`, `d` at
/// the parameter `k / n`, times `n * n * n`.
pub open spec fn cubic_at(a: int, b: int, c: int, d: int, k: int, n: int) -> int {
    (n - k) * (n - k) * (n - k) * a + 3 * k * (n - k) * (n - k) * b + 3 * k * k * (n - k) * c + k
        * k * k * d
}

/// Whether `v` lies between `-limit` and `limit`.
pub open spec fn at_most(v: int, limit: int) -> bool {
    -limit <= v <= limit
}

/// A product of two parts of `n` is a quarter of `n * n` at most.
proof fn lemma_parts(k: int, n: int)
    requires
        0 <= k <= n,
    ensures
        0 <= 4 * (k * (n - k)) <= n * n,
{
    assert(n * n - 4 * (k * (n - k)) == (n - 2 * k) * (n - 2 * k)) by (nonlinear_arith);
    assert((n - 2 * k) * (n - 2 * k) >= 0) by (nonlinear_arith);
    assert(k * (n - k) >= 0) by (nonlinear_arith)
        requires
            0 <= k <= n,
    ;
}

/// In one coordinate a quadratic curve strays from its chord by a quarter of
/// its second difference at most.
pub proof fn lemma_quad_strays(a: int, b: int, c: int, k: int, n: int, limit: int)
    requires
        0 <= k <= n,
        at_most(a - 2 * b + c, limit),
    ensures
        at_most(4 * (quad_at(a, b, c, k, n) - n * chord_at(a, c, k, n)), n * n * limit),
{
    let s = a - 2 * b + c;
    let j = n - k;
    let jj = j * j;
    let kj = k * j;
    let kk = k * k;
    assert(2 * k * j == 2 * kj) by (nonlinear_arith)
        requires
            kj == k * j,
    ;
    assert(quad_at(a, b, c, k, n) == jj * a + 2 * kj * b + kk * c);
    let nj = n * j;
    let nk = n * k;
    assert(nj == jj + kj && nk == kj + kk) by (nonlinear_arith)
        requires
            n == j + k,
            nj == n * j,
            nk == n * k,
            jj == j * j,
            kj == k * j,
            kk == k * k,
    ;
    assert(n * (j * a + k * c) == nj * a + nk * c) by (nonlinear_arith)
        requires
            nj == n * j,
            nk == n * k,
    ;
    assert((jj + kj) * a == jj * a + kj * a) by (nonlinear_arith);
    assert((kj + kk) * c == kj * c + kk * c) by (nonlinear_arith);
    assert(n * (j * a + k * c) == jj * a + kj * a + kj * c + kk * c);
    assert(kj * s == kj * a - 2 * kj * b + kj * c) by (nonlinear_arith)
        requires
            s == a - 2 * b + c,
    ;
    assert(quad_at(a, b, c, k, n) - n * chord_at(a, c, k, n) == -(kj * s));
    lemma_parts(k, n);
    assert(at_most(4 * (kj * s), n * n * limit)) by (nonlinear_arith)
        requires
            0 <= 4 * kj <= n * n,
            -limit <= s <= limit,
    ;
}

/// The cube of a sum of two parts, taken apart.
proof fn lemma_cubic_parts(a: int, d: int, j: int, k: int, n: int)
    requires
        n == j + k,
    ensures
        n * n * (j * a + k * d) == (j * j * j) * a + 2 * (k * j * j) * a + (k * k * j) * a + (k * j
            * j) * d + 2 * (k * k * j) * d + (k * k * k) * d,
{
    let nn = n * n;
    let jj = j * j;
    let kj = k * j;
    let kk = k * k;
    assert(nn == jj + 2 * kj + kk) by (nonlinear_arith)
        requires
            n == j + k,
            nn == n * n,
            jj == j * j,
            kj == k * j,
            kk == k * k,
    ;
    assert(nn * (j * a + k * d) == (nn * j) * a + (nn * k) * d) by (nonlinear_arith);
    assert(nn * j == j * j * j + 2 * (k * j * j) + k * k * j) by (nonlinear_arith)
        requires
            nn == jj + 2 * kj + kk,
            jj == j * j,
            kj == k * j,
            kk == k * k,
    ;
    assert(nn * k == k * j * j + 2 * (k * k * j) + k * k * k) by (nonlinear_arith)
        requires
            nn == jj + 2 * kj + kk,
            jj == j * j,
            kj == k * j,
            kk == k * k,
    ;
    let x = j * j * j;
    let y = k * j * j;
    let z = k * k * j;
    let w = k * k * k;
    assert((x + 2 * y + z) * a == x * a + 2 * y * a + z * a) by (nonlinear_arith);
    assert((y + 2 * z + w) * d == y * d + 2 * z * d + w * d) by (nonlinear_arith);
}

/// In one coordinate a cubic curve strays from its chord by three quarters
/// of the larger of its two second differences at most.
pub proof fn lemma_cubic_strays(a: int, b: int, c: int, d: int, k: int, n: int, limit: int)
    requires
        0 <= k <= n,
        at_most(a - 2 * b + c, limit),
        at_most(b - 2 * c + d, limit),
    ensures
        at_most(
            4 * (cubic_at(a, b, c, d, k, n) - n * n * chord_at(a, d, k, n)),
            3 * (n * n * n * limit),
        ),
{
    let s1 = a - 2 * b + c;
    let s2 = b - 2 * c + d;
    let j = n - k;
    let x = j * j * j;
    let y = k * j * j;
    let z = k * k * j;
    let w = k * k * k;
    let kj = k * j;
    assert(3 * k * j * j == 3 * y && 3 * k * k * j == 3 * z) by (nonlinear_arith)
        requires
            y == k * j * j,
            z == k * k * j,
    ;
    assert(cubic_at(a, b, c, d, k, n) == x * a + 3 * y * b + 3 * z * c + w * d);
    lemma_cubic_parts(a, d, j, k, n);
    let stray = cubic_at(a, b, c, d, k, n) - n * n * chord_at(a, d, k, n);
    assert(stray == 3 * y * b + 3 * z * c - 2 * y * a - z * a - y * d - 2 * z * d);
    assert(y * (2 * s1 + s2) == 2 * y * a - 3 * y * b + y * d) by (nonlinear_arith)
        requires
            s1 == a - 2 * b + c,
            s2 == b - 2 * c + d,
    ;
    assert(z * (s1 + 2 * s2) == z * a - 3 * z * c + 2 * z * d) by (nonlinear_arith)
        requires
            s1 == a - 2 * b + c,
            s2 == b - 2 * c + d,
    ;
    assert(stray == -(y * (2 * s1 + s2) + z * (s1 + 2 * s2)));
    assert(y == kj * j && z == kj * k) by (nonlinear_arith)
        requires
            y == k * j * j,
            z == k * k * j,
            kj == k * j,
    ;
    let t = j * (2 * s1 + s2) + k * (s1 + 2 * s2);
    assert(y * (2 * s1 + s2) + z * (s1 + 2 * s2) == kj * t) by (nonlinear_arith)
        requires
            y == kj * j,
            z == kj * k,
            t == j * (2 * s1 + s2) + k * (s1 + 2 * s2),
    ;
    assert(at_most(t, 3 * n * limit)) by (nonlinear_arith)
        requires
            t == j * (2 * s1 + s2) + k * (s1 + 2 * s2),
            j >= 0,
            k >= 0,
            n == j + k,
            -limit <= s1 <= limit,
            -limit <= s2 <= limit,
    ;
    lemma_parts(k, n);
    assert(3 * n * limit >= 0) by (nonlinear_arith)
        requires
            n >= 0,
            limit >= 0,
    ;
    assert(at_most(4 * (kj * t), n * n * (3 * n * limit))) by (nonlinear_arith)
        requires
            0 <= 4 * kj <= n * n,
            -(3 * n * limit) <= t <= 3 * n * limit,
            3 * n * limit >= 0,
    ;
    assert(n * n * (3 * n * limit) == 3 * (n * n * n * limit)) by (nonlinear_arith);
}

/// A quadratic curve that is taken for flat strays from its chord by no more
/// than the tolerance, in either coordinate and at every parameter.
pub proof fn lemma_flat_quad_strays(p0: Point, c: Point, p1: Point, tolerance: u32, k: int, n: int)
    requires
        quad_is_flat(p0, c, p1, tolerance),
        0 <= k <= n,
    ensures
        at_most(
            quad_at(p0.x as int, c.x as int, p1.x as int, k, n) - n * chord_at(
                p0.x as int,
                p1.x as int,
                k,
                n,
            ),
            n * n * tolerance,
        ),
        at_most(
            quad_at(p0.y as int, c.y as int, p1.y as int, k, n) - n * chord_at(
                p0.y as int,
                p1.y as int,
                k,
                n,
            ),
            n * n * tolerance,
        ),
{
    let limit = 4 * tolerance;
    lemma_quad_strays(p0.x as int, c.x as int, p1.x as int, k, n, limit);
    lemma_quad_strays(p0.y as int, c.y as int, p1.y as int, k, n, limit);
    assert(n * n * limit == 4 * (n * n * tolerance)) by (nonlinear_arith)
        requires
            limit == 4 * tolerance,
    ;
}

/// A cubic curve that is taken for flat strays from its chord by no more
/// than the tolerance, in either coordinate and at every parameter.
pub proof fn lemma_flat_cubic_strays(
    p0: Point,
    c1: Point,
    c2: Point,
    p1: Point,
    tolerance: u32,
    k: int,
    n: int,
)
    requires
        cubic_is_flat(p0, c1, c2, p1, tolerance),
        0 <= k <= n,
    ensures
        at_most(
            cubic_at(p0.x as int, c1.x as int, c2.x as int, p1.x as int, k, n) - n * n * chord_at(
                p0.x as int,
                p1.x as int,
                k,
                n,
            ),
            n * n * n * tolerance,
        ),
        at_most(
            cubic_at(p0.y as int, c1.y as int, c2.y as int, p1.y as int, k, n) - n * n * chord_at(
                p0.y as int,
                p1.y as int,
                k,
                n,
            ),
            n * n * n * tolerance,
        ),
{
    let b1 = bend(p0, c1, c2);
    let b2 = bend(c1, c2, p1);
    let limit = if b1 > b2 {
        b1
    } else {
        b2
    };
    lemma_cubic_strays(p0.x as int, c1.x as int, c2.x as int, p1.x as int, k, n, limit);
    lemma_cubic_strays(p0.y as int, c1.y as int, c2.y as int, p1.y as int, k, n, limit);
    assert(0 <= n * n * n) by (nonlinear_arith)
        requires
            n >= 0,
    ;
    assert(3 * (n * n * n * limit) <= 4 * (n * n * n * tolerance)) by (nonlinear_arith)
        requires
            3 * limit <= 4 * tolerance,
            0 <= n * n * n,
    ;
}

} // verus!
