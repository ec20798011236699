use vstd::prelude::*;

use crate::feature::{abs_int, quot, quotient};
use crate::geometry::{Vec3, UNIT};

verus! {

/// A vector with ideal integer coordinates.
pub type V3 = (int, int, int);

pub open spec fn v3(p: Vec3) -> V3 {
    (p.x as int, p.y as int, p.z as int)
}

/// The cross product of `p1 - p0` and `p2 - p0`.
pub open spec fn face_cross(p0: Vec3, p1: Vec3, p2: Vec3) -> V3 {
    let a = (p1.x - p0.x, p1.y - p0.y, p1.z - p0.z);
    let b = (p2.x - p0.x, p2.y - p0.y, p2.z - p0.z);
    (a.1 * b.2 - a.2 * b.1, a.2 * b.0 - a.0 * b.2, a.0 * b.1 - a.1 * b.0)
}

pub open spec fn norm_sq(v: V3) -> int {
    v.0 * v.0 + v.1 * v.1 + v.2 * v.2
}

/// `r` is the greatest non-negative integer whose square is at most `x`.
pub open spec fn is_sqrt_of(x: int, r: int) -> bool {
    0 <= r && r * r <= x < (r + 1) * (r + 1)
}

/// The integer square root.
pub open spec fn int_sqrt(x: int) -> int {
    choose|r: int| is_sqrt_of(x, r)
}

/// The greatest coordinate magnitude of `v`.
pub open spec fn max_abs(v: V3) -> int {
    let a = abs_int(v.0);
    let b = abs_int(v.1);
    let c = abs_int(v.2);
    if a >= b && a >= c {
        a
    } else if b >= c {
        b
    } else {
        c
    }
}

pub open spec fn halved(v: V3) -> V3 {
    (quot(v.0, 2), quot(v.1, 2), quot(v.2, 2))
}

pub open spec fn doubled(v: V3) -> V3 {
    (2 * v.0, 2 * v.1, 2 * v.2)
}

/// `v` halved (toward zero) until no coordinate exceeds 2^61 in magnitude.
pub open spec fn reduced(v: V3) -> V3
    decreases max_abs(v),
    via lemma_reduced_decreases
{
    if max_abs(v) <= 0x2000_0000_0000_0000 {
        v
    } else {
        reduced(halved(v))
    }
}

/// How far the squared length of `v` is below 2^80.
pub open spec fn lift_room(v: V3) -> int {
    if norm_sq(v) < 0x1_0000_0000_0000_0000_0000 {
        0x1_0000_0000_0000_0000_0000 - norm_sq(v)
    } else {
        0
    }
}

/// `v` doubled until its squared length reaches 2^80, or `v` itself where it is zero.
pub open spec fn lifted(v: V3) -> V3
    decreases lift_room(v),
    via lemma_lifted_decreases
{
    if norm_sq(v) <= 0 || norm_sq(v) >= 0x1_0000_0000_0000_0000_0000 {
        v
    } else {
        lifted(doubled(v))
    }
}

#[via_fn]
proof fn lemma_reduced_decreases(v: V3) {
    if max_abs(v) > 0x2000_0000_0000_0000 {
        lemma_halved(v);
    }
}

#[via_fn]
proof fn lemma_lifted_decreases(v: V3) {
    lemma_doubled_norm(v);
}

proof fn lemma_halved(v: V3)
    ensures
        max_abs(halved(v)) == max_abs(v) / 2,
        max_abs(v) >= 0,
{
    assert(abs_int(quot(v.0, 2)) == abs_int(v.0) / 2);
    assert(abs_int(quot(v.1, 2)) == abs_int(v.1) / 2);
    assert(abs_int(quot(v.2, 2)) == abs_int(v.2) / 2);
}

proof fn lemma_doubled_norm(v: V3)
    ensures
        norm_sq(doubled(v)) == 4 * norm_sq(v),
        norm_sq(v) >= 0,
        norm_sq(v) == 0 <==> v == (0int, 0int, 0int),
{
    assert(norm_sq(doubled(v)) == 4 * norm_sq(v)) by (nonlinear_arith);
    assert(norm_sq(v) >= 0) by (nonlinear_arith);
    if v != (0int, 0int, 0int) {
        assert(norm_sq(v) > 0) by (nonlinear_arith)
            requires
                v.0 != 0 || v.1 != 0 || v.2 != 0,
        ;
    }
}

/// The vector in which `normalized` measures `v`: `v` brought to a magnitude where its
/// integer length is precise to 2^-40 and its squares fit in 128 bits.
pub open spec fn rescaled(v: V3) -> V3 {
    lifted(reduced(v))
}

/// The length that face normals get while they are summed: 2^40, finer than `UNIT`, so
/// that nearly opposite faces still sum to the right direction.
pub const FACE_UNIT: i128 = 0x100_0000_0000;

/// `v` scaled to length `scale`, each coordinate rounded to the nearest integer, or the
/// zero vector where `v` is zero. The length is measured on `rescaled(v)`, whose squared
/// length is at least 2^80, so for `scale <= 2^21` the result has length within one unit
/// of `scale` (see `lemma_normalized_direct` for each coordinate).
pub open spec fn normalized(v: V3, scale: int) -> V3 {
    unit_scaled(rescaled(v), scale)
}

/// `a / b` rounded to the nearest integer, halves away from zero (for `b > 0`).
pub open spec fn round_div(a: int, b: int) -> int {
    if a >= 0 {
        (2 * a + b) / (2 * b)
    } else {
        -((2 * (-a) + b) / (2 * b))
    }
}

/// `w` scaled to `scale` over its integer length, rounded to the nearest integer.
pub open spec fn unit_scaled(w: V3, scale: int) -> V3 {
    let len = int_sqrt(norm_sq(w));
    if len == 0 {
        (0, 0, 0)
    } else {
        (round_div(w.0 * scale, len), round_div(w.1 * scale, len), round_div(w.2 * scale, len))
    }
}

/// Zero, or of length `UNIT` up to one unit of rounding.
pub open spec fn unit_or_zero(n: V3) -> bool {
    n == (0int, 0int, 0int) || ((UNIT - 1) * (UNIT - 1) <= norm_sq(n) <= (UNIT + 1) * (UNIT
        + 1))
}

proof fn lemma_lifted_props(w: V3)
    requires
        max_abs(w) <= 0x2000_0000_0000_0000,
    ensures
        max_abs(lifted(w)) <= 0x2000_0000_0000_0000,
        norm_sq(lifted(w)) == 0 || norm_sq(lifted(w)) >= 0x1_0000_0000_0000_0000_0000,
        norm_sq(lifted(w)) == 0 <==> w == (0int, 0int, 0int),
    decreases lift_room(w),
{
    lemma_doubled_norm(w);
    if 0 < norm_sq(w) < 0x1_0000_0000_0000_0000_0000 {
        lemma_small_coords(w);
        lemma_lifted_props(doubled(w));
        lemma_doubled_norm(doubled(w));
    }
}

proof fn lemma_small_coords(w: V3)
    requires
        norm_sq(w) < 0x1_0000_0000_0000_0000_0000,
    ensures
        max_abs(doubled(w)) <= 0x200_0000_0000,
{
    assert(w.0 * w.0 < 0x1_0000_0000_0000_0000_0000 && w.1 * w.1 < 0x1_0000_0000_0000_0000_0000
        && w.2 * w.2 < 0x1_0000_0000_0000_0000_0000) by (nonlinear_arith)
        requires
            norm_sq(w) < 0x1_0000_0000_0000_0000_0000,
            norm_sq(w) == w.0 * w.0 + w.1 * w.1 + w.2 * w.2,
    ;
    lemma_square_bound(w.0);
    lemma_square_bound(w.1);
    lemma_square_bound(w.2);
}

proof fn lemma_square_bound(c: int)
    requires
        c * c < 0x1_0000_0000_0000_0000_0000,
    ensures
        abs_int(c) < 0x100_0000_0000,
{
    if abs_int(c) >= 0x100_0000_0000 {
        assert(c * c >= 0x1_0000_0000_0000_0000_0000) by (nonlinear_arith)
            requires
                abs_int(c) >= 0x100_0000_0000,
        ;
    }
}

pub open spec fn add3(a: V3, b: V3) -> V3 {
    (a.0 + b.0, a.1 + b.1, a.2 + b.2)
}

/// The normal of face `f`, whose corners are `idx[3f], idx[3f + 1], idx[3f + 2]`, of
/// length `FACE_UNIT`.
pub open spec fn face_normal(pos: Seq<Vec3>, idx: Seq<u32>, f: int) -> V3 {
    normalized(
        face_cross(pos[idx[3 * f] as int], pos[idx[3 * f + 1] as int], pos[idx[3 * f + 2] as int]),
        FACE_UNIT as int,
    )
}

/// The sum of the normals (of length `FACE_UNIT`) of the first `t` faces, each counted once for every
/// corner of the face at vertex `v`.
pub open spec fn accumulated(pos: Seq<Vec3>, idx: Seq<u32>, t: int, v: int) -> V3
    decreases t,
{
    if t <= 0 {
        (0, 0, 0)
    } else {
        let f = t - 1;
        let n = face_normal(pos, idx, f);
        let s0 = accumulated(pos, idx, f, v);
        let s1 = if idx[3 * f] == v {
            add3(s0, n)
        } else {
            s0
        };
        let s2 = if idx[3 * f + 1] == v {
            add3(s1, n)
        } else {
            s1
        };
        if idx[3 * f + 2] == v {
            add3(s2, n)
        } else {
            s2
        }
    }
}

/// The normal of each vertex: the normalized sum of the normals of the faces at it.
pub open spec fn vertex_normals(pos: Seq<Vec3>, idx: Seq<u32>) -> Seq<V3> {
    Seq::new(pos.len(), |v: int| normalized(accumulated(pos, idx, idx.len() as int / 3, v), UNIT as int))
}

proof fn lemma_sqrt_unique(x: int, r: int)
    requires
        0 <= r,
        r * r <= x < (r + 1) * (r + 1),
    ensures
        int_sqrt(x) == r,
{
    assert(is_sqrt_of(x, r));
    let s = int_sqrt(x);
    assert(0 <= s && s * s <= x < (s + 1) * (s + 1));
    if s < r {
        assert((s + 1) * (s + 1) <= r * r) by (nonlinear_arith)
            requires
                0 <= s < r,
        ;
    }
    if r < s {
        assert((r + 1) * (r + 1) <= s * s) by (nonlinear_arith)
            requires
                0 <= r < s,
        ;
    }
}

/// The integer square root of `x`.
fn isqrt(x: u128) -> (r: u128)
    requires
        x < 0x1000_0000_0000_0000_0000_0000_0000_0000,
    ensures
        r == int_sqrt(x as int),
        r * r <= x < (r + 1) * (r + 1),
{
    let mut lo: u128 = 0;
    let mut hi: u128 = 0x4000_0000_0000_0000;
    assert(0x4000_0000_0000_0000 * 0x4000_0000_0000_0000 == 0x1000_0000_0000_0000_0000_0000_0000_0000) by (nonlinear_arith);
    while hi - lo > 1
        invariant
            lo < hi <= 0x4000_0000_0000_0000,
            lo * lo <= x < hi * hi,
        decreases hi - lo,
    {
        let mid = lo + (hi - lo) / 2;
        assert(mid * mid <= 0x1000_0000_0000_0000_0000_0000_0000_0000) by (nonlinear_arith)
            requires
                mid <= 0x4000_0000_0000_0000,
        ;
        if mid * mid <= x {
            lo = mid;
        } else {
            hi = mid;
        }
    }
    proof {
        lemma_sqrt_unique(x as int, lo as int);
    }
    lo
}

proof fn lemma_coord_le_len(c: int, s: int, len: int)
    requires
        c * c <= s,
        is_sqrt_of(s, len),
    ensures
        abs_int(c) <= len,
{
    if abs_int(c) > len {
        assert((len + 1) * (len + 1) <= c * c) by (nonlinear_arith)
            requires
                abs_int(c) >= len + 1,
                len >= 0,
        ;
    }
}

proof fn lemma_round_div(a: int, b: int)
    requires
        b > 0,
    ensures
        ({
            let n = round_div(a, b);
            let t = abs_int(n);
            &&& t == (2 * abs_int(a) + b) / (2 * b)
            &&& 2 * t * b <= 2 * abs_int(a) + b < 2 * (t + 1) * b
            &&& a >= 0 ==> n >= 0
            &&& a <= 0 ==> n <= 0
        }),
{
    let x = 2 * abs_int(a) + b;
    let d = 2 * b;
    vstd::arithmetic::div_mod::lemma_fundamental_div_mod(x, d);
    vstd::arithmetic::div_mod::lemma_mod_pos_bound(x, d);
    vstd::arithmetic::div_mod::lemma_div_pos_is_pos(x, d);
    let q = x / d;
    assert(2 * q * b <= x < 2 * (q + 1) * b) by (nonlinear_arith)
        requires
            x == d * q + x % d,
            0 <= x % d < d,
            d == 2 * b,
    ;
    if a == 0 {
        assert(q == 0) by (nonlinear_arith)
            requires
                2 * q * b <= b,
                b > 0,
                q >= 0,
        ;
    }
}

/// Facts on one coordinate `c` scaled by `u` and divided by a length `len >= |c|`,
/// rounded to the nearest integer.
proof fn lemma_scaled_coord(c: int, len: int, u: int)
    requires
        abs_int(c) <= len,
        len > 0,
        u > 0,
    ensures
        ({
            let a = abs_int(c) * u;
            let n = round_div(c * u, len);
            let t = abs_int(n);
            &&& 2 * t * len <= 2 * a + len < 2 * (t + 1) * len
            &&& 0 <= t <= u
            &&& a * a == c * c * u * u
            &&& c >= 0 ==> n >= 0
            &&& c <= 0 ==> n <= 0
        }),
{
    let a = abs_int(c) * u;
    assert(abs_int(c * u) == a) by (nonlinear_arith)
        requires
            u > 0,
            a == abs_int(c) * u,
    ;
    assert(a <= len * u) by (nonlinear_arith)
        requires
            abs_int(c) <= len,
            u > 0,
            a == abs_int(c) * u,
    ;
    assert(a * a == c * c * u * u) by (nonlinear_arith)
        requires
            a == abs_int(c) * u,
    ;
    assert((c >= 0 ==> c * u >= 0) && (c <= 0 ==> c * u <= 0)) by (nonlinear_arith)
        requires
            u > 0,
    ;
    lemma_round_div(c * u, len);
    let t = abs_int(round_div(c * u, len));
    assert(t <= u) by (nonlinear_arith)
        requires
            2 * t * len <= 2 * a + len,
            a <= len * u,
            len > 0,
    ;
}

proof fn lemma_square_split(t: int, len: int, b: int, e: int)
    requires
        t * len == b + e,
    ensures
        t * t * (len * len) == b * b + 2 * (b * e) + e * e,
{
    assert((t * len) * (t * len) == t * t * (len * len)) by (nonlinear_arith);
    assert((b + e) * (b + e) == b * b + 2 * (b * e) + e * e) by (nonlinear_arith);
}

proof fn lemma_half_product(b: int, e: int, len: int)
    requires
        b >= 0,
        -len < 2 * e <= len,
    ensures
        abs_int(2 * (b * e)) <= b * len,
{
    assert(abs_int(2 * (b * e)) <= b * len) by (nonlinear_arith)
        requires
            b >= 0,
            -len < 2 * e <= len,
    ;
}

/// A vector of squared length at least 2^80, scaled to `4 <= u <= 2^21` over its integer
/// length and rounded to the nearest integer, has length within one unit of `u`.
proof fn lemma_unit_length(w: V3, len: int, u: int)
    requires
        is_sqrt_of(norm_sq(w), len),
        norm_sq(w) >= 0x1_0000_0000_0000_0000_0000,
        4 <= u <= 0x20_0000,
    ensures
        ({
            let n = (round_div(w.0 * u, len), round_div(w.1 * u, len), round_div(w.2 * u, len));
            (u - 1) * (u - 1) <= norm_sq(n) <= (u + 1) * (u + 1)
        }),
{
    let s = norm_sq(w);
    assert(len >= 0x100_0000_0000) by (nonlinear_arith)
        requires
            s < (len + 1) * (len + 1),
            s >= 0x1_0000_0000_0000_0000_0000,
            len >= 0,
    ;
    assert(w.0 * w.0 <= s && w.1 * w.1 <= s && w.2 * w.2 <= s) by (nonlinear_arith)
        requires
            s == w.0 * w.0 + w.1 * w.1 + w.2 * w.2,
    ;
    lemma_coord_le_len(w.0, s, len);
    lemma_coord_le_len(w.1, s, len);
    lemma_coord_le_len(w.2, s, len);
    lemma_scaled_coord(w.0, len, u);
    lemma_scaled_coord(w.1, len, u);
    lemma_scaled_coord(w.2, len, u);
    let n = (round_div(w.0 * u, len), round_div(w.1 * u, len), round_div(w.2 * u, len));
    let t0 = abs_int(n.0);
    let t1 = abs_int(n.1);
    let t2 = abs_int(n.2);
    let b0 = abs_int(w.0) * u;
    let b1 = abs_int(w.1) * u;
    let b2 = abs_int(w.2) * u;
    let e0 = t0 * len - b0;
    let e1 = t1 * len - b1;
    let e2 = t2 * len - b2;
    assert(-len < 2 * e0 <= len && -len < 2 * e1 <= len && -len < 2 * e2 <= len) by (
    nonlinear_arith)
        requires
            2 * t0 * len <= 2 * b0 + len < 2 * (t0 + 1) * len,
            2 * t1 * len <= 2 * b1 + len < 2 * (t1 + 1) * len,
            2 * t2 * len <= 2 * b2 + len < 2 * (t2 + 1) * len,
            e0 == t0 * len - b0,
            e1 == t1 * len - b1,
            e2 == t2 * len - b2,
    ;
    let tt = t0 * t0 + t1 * t1 + t2 * t2;
    assert(norm_sq(n) == tt) by (nonlinear_arith)
        requires
            t0 == abs_int(n.0),
            t1 == abs_int(n.1),
            t2 == abs_int(n.2),
            tt == t0 * t0 + t1 * t1 + t2 * t2,
    ;
    let bq = b0 * b0 + b1 * b1 + b2 * b2;
    let eq = e0 * e0 + e1 * e1 + e2 * e2;
    let p = b0 * e0 + b1 * e1 + b2 * e2;
    let l2 = len * len;
    assert(bq == u * u * s) by (nonlinear_arith)
        requires
            b0 * b0 == w.0 * w.0 * u * u,
            b1 * b1 == w.1 * w.1 * u * u,
            b2 * b2 == w.2 * w.2 * u * u,
            bq == b0 * b0 + b1 * b1 + b2 * b2,
            s == w.0 * w.0 + w.1 * w.1 + w.2 * w.2,
    ;
    lemma_square_split(t0, len, b0, e0);
    lemma_square_split(t1, len, b1, e1);
    lemma_square_split(t2, len, b2, e2);
    assert(tt * l2 == bq + 2 * p + eq) by (nonlinear_arith)
        requires
            t0 * t0 * l2 == b0 * b0 + 2 * (b0 * e0) + e0 * e0,
            t1 * t1 * l2 == b1 * b1 + 2 * (b1 * e1) + e1 * e1,
            t2 * t2 * l2 == b2 * b2 + 2 * (b2 * e2) + e2 * e2,
            l2 == len * len,
            tt == t0 * t0 + t1 * t1 + t2 * t2,
            bq == b0 * b0 + b1 * b1 + b2 * b2,
            eq == e0 * e0 + e1 * e1 + e2 * e2,
            p == b0 * e0 + b1 * e1 + b2 * e2,
    ;
    assert(4 * eq <= 3 * l2) by (nonlinear_arith)
        requires
            -len < 2 * e0 <= len,
            -len < 2 * e1 <= len,
            -len < 2 * e2 <= len,
            eq == e0 * e0 + e1 * e1 + e2 * e2,
            l2 == len * len,
    ;
    let sb = b0 + b1 + b2;
    lemma_half_product(b0, e0, len);
    lemma_half_product(b1, e1, len);
    lemma_half_product(b2, e2, len);
    assert(abs_int(2 * p) <= len * sb) by (nonlinear_arith)
        requires
            abs_int(2 * (b0 * e0)) <= b0 * len,
            abs_int(2 * (b1 * e1)) <= b1 * len,
            abs_int(2 * (b2 * e2)) <= b2 * len,
            p == b0 * e0 + b1 * e1 + b2 * e2,
            sb == b0 + b1 + b2,
    ;
    assert(sb * sb <= 3 * bq) by (nonlinear_arith)
        requires
            sb == b0 + b1 + b2,
            bq == b0 * b0 + b1 * b1 + b2 * b2,
    ;
    assert(4 * (p * p) <= l2 * (sb * sb)) by (nonlinear_arith)
        requires
            abs_int(2 * p) <= len * sb,
            l2 == len * len,
    ;
    assert(4 * (p * p) <= 3 * bq * l2) by (nonlinear_arith)
        requires
            4 * (p * p) <= l2 * (sb * sb),
            sb * sb <= 3 * bq,
            l2 >= 0,
    ;
    assert(l2 <= s < (len + 1) * (len + 1));
    assert(l2 > 0) by (nonlinear_arith)
        requires
            l2 == len * len,
            len > 0,
    ;
    assert(u * u * l2 <= bq) by (nonlinear_arith)
        requires
            l2 <= s,
            bq == u * u * s,
    ;
    // upper bound
    let m = u * (len + 1) * len;
    assert(m > 0) by (nonlinear_arith)
        requires
            m == u * (len + 1) * len,
            u > 0,
            len > 0,
    ;
    assert(bq < u * u * ((len + 1) * (len + 1))) by (nonlinear_arith)
        requires
            s < (len + 1) * (len + 1),
            bq == u * u * s,
            u > 0,
    ;
    assert(8 * p < 7 * m) by {
        if p > 0 {
            assert(64 * (p * p) < 49 * (m * m)) by (nonlinear_arith)
                requires
                    4 * (p * p) <= 3 * bq * l2,
                    bq < u * u * ((len + 1) * (len + 1)),
                    m == u * (len + 1) * len,
                    l2 == len * len,
                    len > 0,
            ;
            assert(8 * p < 7 * m) by (nonlinear_arith)
                requires
                    64 * (p * p) < 49 * (m * m),
                    p > 0,
                    m > 0,
            ;
        }
    }
    assert(8 * (tt * l2) < 8 * ((u + 1) * (u + 1)) * l2) by (nonlinear_arith)
        requires
            tt * l2 == bq + 2 * p + eq,
            bq < u * u * ((len + 1) * (len + 1)),
            8 * p < 7 * m,
            m == u * (len + 1) * len,
            4 * eq <= 3 * l2,
            l2 == len * len,
            len >= 0x100_0000_0000,
            4 <= u <= 0x20_0000,
    ;
    assert(tt <= (u + 1) * (u + 1)) by (nonlinear_arith)
        requires
            8 * (tt * l2) < 8 * ((u + 1) * (u + 1)) * l2,
            l2 > 0,
    ;
    // lower bound
    let k = (u - 1) * (u - 1) * l2;
    assert(bq + 2 * p >= k) by {
        if p >= 0 {
            assert(k <= u * u * l2) by (nonlinear_arith)
                requires
                    k == (u - 1) * (u - 1) * l2,
                    l2 >= 0,
                    u >= 1,
            ;
        } else {
            let x0 = u * u * l2;
            let d = bq - k;
            assert(x0 - k == (2 * u - 1) * l2) by (nonlinear_arith)
                requires
                    x0 == u * u * l2,
                    k == (u - 1) * (u - 1) * l2,
            ;
            assert((x0 - k) * (x0 - k) - 3 * x0 * l2 == (u * u - 4 * u + 1) * (l2 * l2)) by (
            nonlinear_arith)
                requires
                    x0 - k == (2 * u - 1) * l2,
                    x0 == u * u * l2,
            ;
            assert((u * u - 4 * u + 1) * (l2 * l2) >= 0) by (nonlinear_arith)
                requires
                    u >= 4,
            ;
            assert(d * d - 3 * bq * l2 >= 0) by (nonlinear_arith)
                requires
                    d == bq - k,
                    bq >= x0,
                    (x0 - k) * (x0 - k) - 3 * x0 * l2 >= 0,
                    x0 - k == (2 * u - 1) * l2,
                    u >= 4,
                    l2 > 0,
            ;
            assert(d >= -2 * p) by (nonlinear_arith)
                requires
                    d * d >= 3 * bq * l2,
                    4 * (p * p) <= 3 * bq * l2,
                    d >= 0,
                    p < 0,
            ;
        }
    }
    assert(eq >= 0) by (nonlinear_arith)
        requires
            eq == e0 * e0 + e1 * e1 + e2 * e2,
    ;
    assert(tt >= (u - 1) * (u - 1)) by (nonlinear_arith)
        requires
            tt * l2 >= k,
            k == (u - 1) * (u - 1) * l2,
            l2 > 0,
    ;
}

/// `normalized(v, scale)`.
fn normalize(x0: i128, y0: i128, z0: i128, scale: i128) -> (r: (i128, i128, i128))
    requires
        abs_int(x0 as int) <= 0x4000_0000_0000_0000_0000_0000_0000,
        abs_int(y0 as int) <= 0x4000_0000_0000_0000_0000_0000_0000,
        abs_int(z0 as int) <= 0x4000_0000_0000_0000_0000_0000_0000,
        2 <= scale <= FACE_UNIT,
    ensures
        (r.0 as int, r.1 as int, r.2 as int) == normalized((x0 as int, y0 as int, z0 as int), scale as int),
        abs_int(r.0 as int) <= scale,
        abs_int(r.1 as int) <= scale,
        abs_int(r.2 as int) <= scale,
        4 <= scale <= 0x20_0000 ==> r == (0i128, 0i128, 0i128) || (scale - 1) * (scale - 1)
            <= norm_sq((r.0 as int, r.1 as int, r.2 as int)) <= (scale + 1) * (scale + 1),
{
    let ghost v = (x0 as int, y0 as int, z0 as int);
    let mut x = x0;
    let mut y = y0;
    let mut z = z0;
    let cap: i128 = 0x2000_0000_0000_0000;
    while x > cap || x < -cap || y > cap || y < -cap || z > cap || z < -cap
        invariant
            cap == 0x2000_0000_0000_0000,
            reduced(v) == reduced((x as int, y as int, z as int)),
            abs_int(x as int) <= 0x4000_0000_0000_0000_0000_0000_0000,
            abs_int(y as int) <= 0x4000_0000_0000_0000_0000_0000_0000,
            abs_int(z as int) <= 0x4000_0000_0000_0000_0000_0000_0000,
        decreases max_abs((x as int, y as int, z as int)),
    {
        proof {
            lemma_halved((x as int, y as int, z as int));
        }
        x = quotient(x, 2);
        y = quotient(y, 2);
        z = quotient(z, 2);
    }
    let ghost w0 = (x as int, y as int, z as int);
    assert(reduced(v) == w0);
    proof {
        lemma_lifted_props(w0);
    }
    assert(x * x <= 0x400_0000_0000_0000_0000_0000_0000_0000 && y * y
        <= 0x400_0000_0000_0000_0000_0000_0000_0000 && z * z
        <= 0x400_0000_0000_0000_0000_0000_0000_0000) by (nonlinear_arith)
        requires
            -0x2000_0000_0000_0000 <= x <= 0x2000_0000_0000_0000,
            -0x2000_0000_0000_0000 <= y <= 0x2000_0000_0000_0000,
            -0x2000_0000_0000_0000 <= z <= 0x2000_0000_0000_0000,
    ;
    proof {
        lemma_doubled_norm(w0);
    }
    let mut sq: i128 = x * x + y * y + z * z;
    if sq == 0 {
        proof {
            lemma_sqrt_unique(0, 0);
        }
        return (0, 0, 0);
    }
    while sq < 0x1_0000_0000_0000_0000_0000
        invariant
            rescaled(v) == lifted((x as int, y as int, z as int)),
            sq == norm_sq((x as int, y as int, z as int)),
            0 < sq < 0x1000_0000_0000_0000_0000_0000_0000_0000,
            max_abs((x as int, y as int, z as int)) <= 0x2000_0000_0000_0000,
        decreases lift_room((x as int, y as int, z as int)),
    {
        proof {
            lemma_small_coords((x as int, y as int, z as int));
            lemma_doubled_norm((x as int, y as int, z as int));
        }
        x = 2 * x;
        y = 2 * y;
        z = 2 * z;
        sq = 4 * sq;
    }
    let ghost w = (x as int, y as int, z as int);
    assert(rescaled(v) == w);
    let len = isqrt(sq as u128);
    proof {
        if 4 <= scale <= 0x20_0000 {
            lemma_unit_length(w, len as int, scale as int);
        }
        let s = sq as int;
        assert(w.0 * w.0 <= s && w.1 * w.1 <= s && w.2 * w.2 <= s) by (nonlinear_arith)
            requires
                s == w.0 * w.0 + w.1 * w.1 + w.2 * w.2,
        ;
        lemma_coord_le_len(w.0, s, len as int);
        lemma_coord_le_len(w.1, s, len as int);
        lemma_coord_le_len(w.2, s, len as int);
        lemma_scaled_coord(w.0, len as int, scale as int);
        lemma_scaled_coord(w.1, len as int, scale as int);
        lemma_scaled_coord(w.2, len as int, scale as int);
        assert(len < 0x4000_0000_0000_0000) by (nonlinear_arith)
            requires
                len * len <= sq,
                sq < 0x1000_0000_0000_0000_0000_0000_0000_0000,
        ;
    }
    let l = len as i128;
    assert(abs_int(x * scale) <= 0x20_0000_0000_0000_0000_0000_0000) by (nonlinear_arith)
        requires
            -0x2000_0000_0000_0000 <= x <= 0x2000_0000_0000_0000,
            2 <= scale <= 0x100_0000_0000,
    ;
    assert(abs_int(y * scale) <= 0x20_0000_0000_0000_0000_0000_0000) by (nonlinear_arith)
        requires
            -0x2000_0000_0000_0000 <= y <= 0x2000_0000_0000_0000,
            2 <= scale <= 0x100_0000_0000,
    ;
    assert(abs_int(z * scale) <= 0x20_0000_0000_0000_0000_0000_0000) by (nonlinear_arith)
        requires
            -0x2000_0000_0000_0000 <= z <= 0x2000_0000_0000_0000,
            2 <= scale <= 0x100_0000_0000,
    ;
    let nx = rounded_quotient(x * scale, l);
    let ny = rounded_quotient(y * scale, l);
    let nz = rounded_quotient(z * scale, l);
    (nx, ny, nz)
}

/// `round_div(a, b)`.
fn rounded_quotient(a: i128, b: i128) -> (r: i128)
    requires
        0 < b < 0x1_0000_0000_0000_0000,
        abs_int(a as int) <= 0x20_0000_0000_0000_0000_0000_0000,
    ensures
        r == round_div(a as int, b as int),
{
    let ua: u128 = if a < 0 {
        (-a) as u128
    } else {
        a as u128
    };
    let ub = b as u128;
    let q: u128 = (2 * ua + ub) / (2 * ub);
    proof {
        assert(q <= 2 * ua + ub) by (nonlinear_arith)
            requires
                q == (2 * ua + ub) / (2 * ub),
                ub >= 1,
        ;
    }
    if a >= 0 {
        q as i128
    } else {
        -(q as i128)
    }
}

/// `face_cross(p0, p1, p2)`.
fn face_cross_value(p0: Vec3, p1: Vec3, p2: Vec3) -> (r: (i128, i128, i128))
    ensures
        (r.0 as int, r.1 as int, r.2 as int) == face_cross(p0, p1, p2),
        abs_int(r.0 as int) <= 0x4_0000_0000_0000_0000,
        abs_int(r.1 as int) <= 0x4_0000_0000_0000_0000,
        abs_int(r.2 as int) <= 0x4_0000_0000_0000_0000,
{
    let a0 = p1.x as i128 - p0.x as i128;
    let a1 = p1.y as i128 - p0.y as i128;
    let a2 = p1.z as i128 - p0.z as i128;
    let b0 = p2.x as i128 - p0.x as i128;
    let b1 = p2.y as i128 - p0.y as i128;
    let b2 = p2.z as i128 - p0.z as i128;
    proof {
        lemma_edge_product(a1 as int, b2 as int);
        lemma_edge_product(a2 as int, b1 as int);
        lemma_edge_product(a2 as int, b0 as int);
        lemma_edge_product(a0 as int, b2 as int);
        lemma_edge_product(a0 as int, b1 as int);
        lemma_edge_product(a1 as int, b0 as int);
    }
    (a1 * b2 - a2 * b1, a2 * b0 - a0 * b2, a0 * b1 - a1 * b0)
}

proof fn lemma_edge_product(a: int, b: int)
    requires
        -0x1_0000_0000 <= a <= 0x1_0000_0000,
        -0x1_0000_0000 <= b <= 0x1_0000_0000,
    ensures
        -0x1_0000_0000_0000_0000 <= a * b <= 0x1_0000_0000_0000_0000,
{
    assert(-0x1_0000_0000_0000_0000 <= a * b <= 0x1_0000_0000_0000_0000) by (nonlinear_arith)
        requires
            -0x1_0000_0000 <= a <= 0x1_0000_0000,
            -0x1_0000_0000 <= b <= 0x1_0000_0000,
    ;
}

/// Adds `n` to the running sum of vertex `i`.
fn add_at(ax: &mut Vec<i128>, ay: &mut Vec<i128>, az: &mut Vec<i128>, i: usize, n: (i128, i128, i128), bound: Ghost<int>)
    requires
        i < old(ax)@.len(),
        old(ay)@.len() == old(ax)@.len(),
        old(az)@.len() == old(ax)@.len(),
        0 <= bound@ <= 0x400_0000_0000_0000_0000_0000_0000,
        sums_bounded(old(ax)@, old(ay)@, old(az)@, bound@),
        abs_int(n.0 as int) <= FACE_UNIT,
        abs_int(n.1 as int) <= FACE_UNIT,
        abs_int(n.2 as int) <= FACE_UNIT,
    ensures
        final(ax)@ == old(ax)@.update(i as int, (old(ax)@[i as int] + n.0) as i128),
        final(ay)@ == old(ay)@.update(i as int, (old(ay)@[i as int] + n.1) as i128),
        final(az)@ == old(az)@.update(i as int, (old(az)@[i as int] + n.2) as i128),
        sums_bounded(final(ax)@, final(ay)@, final(az)@, bound@ + FACE_UNIT),
{
    let ghost (x0, y0, z0) = (ax@, ay@, az@);
    assert(abs_int(x0[i as int] as int) <= bound@);
    let x = ax[i] + n.0 as i128;
    ax.set(i, x);
    let y = ay[i] + n.1 as i128;
    ay.set(i, y);
    let z = az[i] + n.2 as i128;
    az.set(i, z);
    assert forall|j: int| 0 <= j < ax@.len() implies abs_int(#[trigger] ax@[j] as int) <= bound@ + FACE_UNIT
        && abs_int(ay@[j] as int) <= bound@ + FACE_UNIT && abs_int(az@[j] as int) <= bound@ + FACE_UNIT by {
        assert(abs_int(x0[j] as int) <= bound@);
    }
}

proof fn lemma_sums_weaken(ax: Seq<i128>, ay: Seq<i128>, az: Seq<i128>, b1: int, b2: int)
    requires
        sums_bounded(ax, ay, az, b1),
        b1 <= b2,
    ensures
        sums_bounded(ax, ay, az, b2),
{
}

pub open spec fn add_corner(s: Seq<i128>, i: int, c: int) -> Seq<i128> {
    s.update(i, (s[i] + c) as i128)
}

proof fn lemma_face_step(
    pos: Seq<Vec3>,
    idx: Seq<u32>,
    f: int,
    x0: Seq<i128>,
    y0: Seq<i128>,
    z0: Seq<i128>,
    nrm: (i128, i128, i128),
)
    requires
        0 <= f,
        3 * f + 3 <= idx.len(),
        x0.len() == pos.len(),
        y0.len() == pos.len(),
        z0.len() == pos.len(),
        forall|i: int| 0 <= i < idx.len() ==> (#[trigger] idx[i] as int) < pos.len(),
        sums_match(pos, idx, f, x0, y0, z0),
        sums_bounded(x0, y0, z0, 0x400_0000_0000_0000_0000_0000_0000),
        (nrm.0 as int, nrm.1 as int, nrm.2 as int) == face_normal(pos, idx, f),
        abs_int(nrm.0 as int) <= FACE_UNIT,
        abs_int(nrm.1 as int) <= FACE_UNIT,
        abs_int(nrm.2 as int) <= FACE_UNIT,
    ensures
        ({
            let i0 = idx[3 * f] as int;
            let i1 = idx[3 * f + 1] as int;
            let i2 = idx[3 * f + 2] as int;
            sums_match(
                pos,
                idx,
                f + 1,
                add_corner(add_corner(add_corner(x0, i0, nrm.0 as int), i1, nrm.0 as int), i2, nrm.0 as int),
                add_corner(add_corner(add_corner(y0, i0, nrm.1 as int), i1, nrm.1 as int), i2, nrm.1 as int),
                add_corner(add_corner(add_corner(z0, i0, nrm.2 as int), i1, nrm.2 as int), i2, nrm.2 as int),
            )
        }),
{
    let i0 = idx[3 * f] as int;
    let i1 = idx[3 * f + 1] as int;
    let i2 = idx[3 * f + 2] as int;
    let x3 = add_corner(add_corner(add_corner(x0, i0, nrm.0 as int), i1, nrm.0 as int), i2, nrm.0 as int);
    let y3 = add_corner(add_corner(add_corner(y0, i0, nrm.1 as int), i1, nrm.1 as int), i2, nrm.1 as int);
    let z3 = add_corner(add_corner(add_corner(z0, i0, nrm.2 as int), i1, nrm.2 as int), i2, nrm.2 as int);
    assert(0 <= i0 < pos.len() && 0 <= i1 < pos.len() && 0 <= i2 < pos.len()) by {
        assert(idx[3 * f] as int == i0);
        assert(idx[3 * f + 1] as int == i1);
        assert(idx[3 * f + 2] as int == i2);
    }
    assert forall|j: int| 0 <= j < pos.len() implies (x3[j] as int, y3[j] as int, z3[j] as int)
        == #[trigger] accumulated(pos, idx, f + 1, j) by {
        assert((x0[j] as int, y0[j] as int, z0[j] as int) == accumulated(pos, idx, f, j));
        assert(abs_int(x0[j] as int) <= 0x400_0000_0000_0000_0000_0000_0000);
        assert(abs_int(y0[j] as int) <= 0x400_0000_0000_0000_0000_0000_0000);
        assert(abs_int(z0[j] as int) <= 0x400_0000_0000_0000_0000_0000_0000);
    }
}

pub open spec fn sums_bounded(ax: Seq<i128>, ay: Seq<i128>, az: Seq<i128>, b: int) -> bool {
    forall|j: int|
        0 <= j < ax.len() ==> abs_int(#[trigger] ax[j] as int) <= b && abs_int(ay[j] as int) <= b
            && abs_int(az[j] as int) <= b
}

/// Adds the unit normal of face `f` to the sums of its three corners.
fn add_face(
    positions: &[Vec3],
    indices: &[u32],
    f: usize,
    ax: &mut Vec<i128>,
    ay: &mut Vec<i128>,
    az: &mut Vec<i128>,
)
    requires
        3 * f + 3 <= indices@.len() <= usize::MAX,
        forall|i: int| 0 <= i < indices@.len() ==> (#[trigger] indices@[i] as int) < positions@.len(),
        old(ax)@.len() == positions@.len(),
        old(ay)@.len() == positions@.len(),
        old(az)@.len() == positions@.len(),
        sums_match(positions@, indices@, f as int, old(ax)@, old(ay)@, old(az)@),
        sums_bounded(old(ax)@, old(ay)@, old(az)@, 3 * f * FACE_UNIT),
    ensures
        final(ax)@.len() == positions@.len(),
        final(ay)@.len() == positions@.len(),
        final(az)@.len() == positions@.len(),
        sums_match(positions@, indices@, f + 1, final(ax)@, final(ay)@, final(az)@),
        sums_bounded(final(ax)@, final(ay)@, final(az)@, 3 * (f + 1) * FACE_UNIT),
{
    let n = positions.len();
    let i0 = indices[3 * f] as usize;
    let i1 = indices[3 * f + 1] as usize;
    let i2 = indices[3 * f + 2] as usize;
    let c = face_cross_value(positions[i0], positions[i1], positions[i2]);
    let fnorm = normalize(c.0, c.1, c.2, FACE_UNIT);
    assert((fnorm.0 as int, fnorm.1 as int, fnorm.2 as int) == face_normal(positions@, indices@, f as int));
    let ghost b0 = 3 * f * FACE_UNIT;
    assert(3 * f * FACE_UNIT <= 0x400_0000_0000_0000_0000_0000_0000 - 3 * FACE_UNIT) by (nonlinear_arith)
        requires
            3 * f + 3 <= usize::MAX,
    ;
    assert(3 * (f + 1) * FACE_UNIT == b0 + 3 * FACE_UNIT) by (nonlinear_arith)
        requires
            b0 == 3 * f * FACE_UNIT,
    ;
    let ghost (x0, y0, z0) = (ax@, ay@, az@);
    add_at(ax, ay, az, i0, fnorm, Ghost(b0));
    add_at(ax, ay, az, i1, fnorm, Ghost(b0 + FACE_UNIT));
    add_at(ax, ay, az, i2, fnorm, Ghost(b0 + 2 * FACE_UNIT));
    proof {
        lemma_sums_weaken(x0, y0, z0, 3 * f * FACE_UNIT, 0x400_0000_0000_0000_0000_0000_0000);
        lemma_face_step(positions@, indices@, f as int, x0, y0, z0, fnorm);
        assert(ax@ =~= add_corner(add_corner(add_corner(x0, i0 as int, fnorm.0 as int), i1 as int, fnorm.0 as int), i2 as int, fnorm.0 as int));
        assert(ay@ =~= add_corner(add_corner(add_corner(y0, i0 as int, fnorm.1 as int), i1 as int, fnorm.1 as int), i2 as int, fnorm.1 as int));
        assert(az@ =~= add_corner(add_corner(add_corner(z0, i0 as int, fnorm.2 as int), i1 as int, fnorm.2 as int), i2 as int, fnorm.2 as int));
    }
}

pub open spec fn sums_match(
    pos: Seq<Vec3>,
    idx: Seq<u32>,
    t: int,
    ax: Seq<i128>,
    ay: Seq<i128>,
    az: Seq<i128>,
) -> bool {
    forall|v: int|
        0 <= v < pos.len() ==> (ax[v] as int, ay[v] as int, az[v] as int) == #[trigger] accumulated(
            pos,
            idx,
            t,
            v,
        )
}

/// Estimate the normals of vertices by the mean of the normals of the faces they are in:
/// each face contributes its unit normal (zero for a degenerate face) to each of its
/// corners, and each vertex gets its sum normalized (zero where the sum is zero).
pub fn estimate_vertex_normals(positions: &[Vec3], indices: &[u32]) -> (r: Vec<Vec3>)
    requires
        indices@.len() % 3 == 0,
        forall|i: int| 0 <= i < indices@.len() ==> (#[trigger] indices@[i] as int) < positions@.len(),
    ensures
        r@.len() == positions@.len(),
        forall|v: int|
            0 <= v < r@.len() ==> v3(#[trigger] r@[v]) == vertex_normals(positions@, indices@)[v],
        forall|v: int| 0 <= v < r@.len() ==> unit_or_zero(v3(#[trigger] r@[v])),
{
    let n = positions.len();
    let nf = indices.len() / 3;
    let mut ax: Vec<i128> = Vec::new();
    let mut ay: Vec<i128> = Vec::new();
    let mut az: Vec<i128> = Vec::new();
    let mut v: usize = 0;
    while v < n
        invariant
            v <= n,
            ax@.len() == v,
            ay@.len() == v,
            az@.len() == v,
            forall|j: int| 0 <= j < v ==> ax@[j] == 0 && ay@[j] == 0 && az@[j] == 0,
        decreases n - v,
    {
        ax.push(0);
        ay.push(0);
        az.push(0);
        v = v + 1;
    }
    let mut f: usize = 0;
    while f < nf
        invariant
            n == positions@.len(),
            nf == indices@.len() / 3,
            indices@.len() % 3 == 0,
            indices@.len() <= usize::MAX,
            forall|i: int| 0 <= i < indices@.len() ==> (#[trigger] indices@[i] as int) < n,
            f <= nf,
            ax@.len() == n,
            ay@.len() == n,
            az@.len() == n,
            sums_match(positions@, indices@, f as int, ax@, ay@, az@),
            sums_bounded(ax@, ay@, az@, 3 * f * FACE_UNIT),
        decreases nf - f,
    {
        add_face(positions, indices, f, &mut ax, &mut ay, &mut az);
        f = f + 1;
    }
    let mut normals: Vec<Vec3> = Vec::new();
    let mut v: usize = 0;
    while v < n
        invariant
            n == positions@.len(),
            nf == indices@.len() / 3,
            nf * 3 <= usize::MAX,
            ax@.len() == n,
            ay@.len() == n,
            az@.len() == n,
            sums_match(positions@, indices@, nf as int, ax@, ay@, az@),
            sums_bounded(ax@, ay@, az@, 3 * nf * FACE_UNIT),
            v <= n,
            normals@.len() == v,
            forall|j: int|
                0 <= j < v ==> v3(#[trigger] normals@[j]) == vertex_normals(positions@, indices@)[j],
            forall|j: int| 0 <= j < v ==> unit_or_zero(v3(#[trigger] normals@[j])),
        decreases n - v,
    {
        assert(3 * nf * FACE_UNIT <= 0x400_0000_0000_0000_0000_0000_0000) by (nonlinear_arith)
            requires
                nf * 3 <= usize::MAX,
        ;
        assert(abs_int(ax@[v as int] as int) <= 3 * nf * FACE_UNIT);
        let nn = normalize(ax[v], ay[v], az[v], UNIT as i128);
        let nv = Vec3 { x: nn.0 as i32, y: nn.1 as i32, z: nn.2 as i32 };
        normals.push(nv);
        v = v + 1;
    }
    normals
}

/// The sign of `k`: -1, 0 or 1.
pub open spec fn sign(k: int) -> int {
    if k > 0 {
        1
    } else if k < 0 {
        -1
    } else {
        0
    }
}

proof fn lemma_reduced_vertical(k: int)
    ensures
        reduced((0, k, 0)) == (0int, reduced((0, k, 0)).1, 0int),
        sign(reduced((0, k, 0)).1) == sign(k),
    decreases abs_int(k),
{
    lemma_halved((0, k, 0));
    if max_abs((0, k, 0)) > 0x2000_0000_0000_0000 {
        assert(halved((0, k, 0)) == (0int, quot(k, 2), 0int));
        lemma_reduced_vertical(quot(k, 2));
    }
}

proof fn lemma_lifted_vertical(k: int)
    ensures
        lifted((0, k, 0)) == (0int, lifted((0, k, 0)).1, 0int),
        sign(lifted((0, k, 0)).1) == sign(k),
    decreases lift_room((0, k, 0)),
{
    lemma_doubled_norm((0, k, 0));
    if 0 < norm_sq((0, k, 0)) < 0x1_0000_0000_0000_0000_0000 {
        assert(doubled((0, k, 0)) == (0int, 2 * k, 0int));
        lemma_doubled_norm((0, 2 * k, 0));
        lemma_lifted_vertical(2 * k);
    }
}

proof fn lemma_normalized_vertical(k: int, u: int)
    requires
        u > 0,
    ensures
        k == 0 ==> normalized((0, k, 0), u) == (0int, 0int, 0int),
        k > 0 ==> normalized((0, k, 0), u) == (0int, u, 0int),
        k < 0 ==> normalized((0, k, 0), u) == (0int, -u, 0int),
{
    lemma_reduced_vertical(k);
    let k1 = reduced((0, k, 0)).1;
    lemma_lifted_vertical(k1);
    let k2 = lifted((0, k1, 0)).1;
    assert(rescaled((0, k, 0)) == (0int, k2, 0int));
    assert(sign(k2) == sign(k));
    lemma_unit_scaled_vertical(k2, u);
}

proof fn lemma_unit_scaled_vertical(k: int, u: int)
    requires
        u > 0,
    ensures
        k == 0 ==> unit_scaled((0, k, 0), u) == (0int, 0int, 0int),
        k > 0 ==> unit_scaled((0, k, 0), u) == (0int, u, 0int),
        k < 0 ==> unit_scaled((0, k, 0), u) == (0int, -u, 0int),
{
    let a = abs_int(k);
    assert(norm_sq((0, k, 0)) == k * k) by (nonlinear_arith);
    assert(a * a == k * k) by (nonlinear_arith)
        requires
            a == abs_int(k),
    ;
    assert(k * k < (a + 1) * (a + 1)) by (nonlinear_arith)
        requires
            a == abs_int(k),
    ;
    lemma_sqrt_unique(k * k, a);
    if k != 0 {
        assert(0int * u == 0);
        lemma_round_div(0, a);
        assert(round_div(0, a) == 0);
        lemma_scaled_coord(k, a, u);
        let t = abs_int(round_div(k * u, a));
        assert(t == u) by (nonlinear_arith)
            requires
                2 * t * a <= 2 * (a * u) + a < 2 * (t + 1) * a,
                a > 0,
        ;
    }
}

/// Every position lies in the plane `y = 0`.
pub open spec fn flat(pos: Seq<Vec3>) -> bool {
    forall|i: int| 0 <= i < pos.len() ==> (#[trigger] pos[i]).y == 0
}

pub open spec fn indices_valid(pos: Seq<Vec3>, idx: Seq<u32>) -> bool {
    forall|i: int| 0 <= i < idx.len() ==> (#[trigger] idx[i] as int) < pos.len()
}

proof fn lemma_face_vertical(pos: Seq<Vec3>, idx: Seq<u32>, f: int)
    requires
        flat(pos),
        indices_valid(pos, idx),
        0 <= f,
        3 * f + 3 <= idx.len(),
    ensures
        face_normal(pos, idx, f) == normalized((0, face_cross(pos[idx[3 * f] as int], pos[idx[3 * f + 1] as int], pos[idx[3 * f + 2] as int]).1, 0), FACE_UNIT as int),
{
    assert(idx[3 * f] as int >= 0);
    let p0 = pos[idx[3 * f] as int];
    let p1 = pos[idx[3 * f + 1] as int];
    let p2 = pos[idx[3 * f + 2] as int];
    assert(p0.y == 0 && p1.y == 0 && p2.y == 0);
    let c = face_cross(p0, p1, p2);
    assert(c.0 == 0 && c.2 == 0) by (nonlinear_arith)
        requires
            c == face_cross(p0, p1, p2),
            p0.y == 0,
            p1.y == 0,
            p2.y == 0,
    ;
}

/// The y coordinate of the cross product of face `f`.
pub open spec fn face_turn(pos: Seq<Vec3>, idx: Seq<u32>, f: int) -> int {
    face_cross(pos[idx[3 * f] as int], pos[idx[3 * f + 1] as int], pos[idx[3 * f + 2] as int]).1
}

proof fn lemma_accumulated_vertical(pos: Seq<Vec3>, idx: Seq<u32>, t: int, v: int)
    requires
        flat(pos),
        indices_valid(pos, idx),
        0 <= t,
        3 * t <= idx.len(),
    ensures
        accumulated(pos, idx, t, v).0 == 0,
        accumulated(pos, idx, t, v).2 == 0,
    decreases t,
{
    if t > 0 {
        lemma_accumulated_vertical(pos, idx, t - 1, v);
        lemma_face_vertical(pos, idx, t - 1);
        let k = face_turn(pos, idx, t - 1);
        lemma_normalized_vertical(k, FACE_UNIT as int);
    }
}

/// `y` points up (where `up`) or down, strictly.
pub open spec fn points(y: int, up: bool) -> bool {
    if up {
        y > 0
    } else {
        y < 0
    }
}

proof fn lemma_accumulated_signed(pos: Seq<Vec3>, idx: Seq<u32>, t: int, v: int, up: bool)
    requires
        flat(pos),
        indices_valid(pos, idx),
        0 <= t,
        3 * t <= idx.len(),
        forall|f: int| 0 <= f < t ==> points(#[trigger] face_turn(pos, idx, f), up),
    ensures
        points(accumulated(pos, idx, t, v).1, up) || accumulated(pos, idx, t, v).1 == 0,
        forall|k: int| 0 <= k < 3 * t && idx[k] == v ==> points(accumulated(pos, idx, t, v).1, up),
    decreases t,
{
    if t > 0 {
        let f = t - 1;
        lemma_accumulated_signed(pos, idx, f, v, up);
        lemma_face_vertical(pos, idx, f);
        let k = face_turn(pos, idx, f);
        assert(points(k, up));
        lemma_normalized_vertical(k, FACE_UNIT as int);
        assert(face_normal(pos, idx, f) == normalized((0, k, 0), FACE_UNIT as int));
        assert(points(face_normal(pos, idx, f).1, up));
    }
}

/// For positions that all lie in the plane `y = 0`, every vertex normal is vertical: the
/// unit vector up, the unit vector down, or zero. Where moreover every face turns the
/// same way, up or down (the y coordinate of each face's cross product has that sign),
/// every vertex that some index names gets exactly the unit vector that way.
pub proof fn lemma_flat_normals(pos: Seq<Vec3>, idx: Seq<u32>, up: bool)
    requires
        flat(pos),
        indices_valid(pos, idx),
        idx.len() % 3 == 0,
    ensures
        forall|v: int|
            0 <= v < pos.len() ==> {
                let nv = #[trigger] vertex_normals(pos, idx)[v];
                nv == (0int, UNIT as int, 0int) || nv == (0int, -UNIT, 0int) || nv == (0int, 0int, 0int)
            },
        (forall|f: int| 0 <= f < idx.len() / 3 ==> points(#[trigger] face_turn(pos, idx, f), up))
            ==> forall|k: int|
            0 <= k < idx.len() ==> #[trigger] vertex_normals(pos, idx)[idx[k] as int] == (
                0int,
                if up {
                    UNIT as int
                } else {
                    -UNIT
                },
                0int,
            ),
{
    let t = idx.len() as int / 3;
    assert forall|v: int| 0 <= v < pos.len() implies {
        let nv = #[trigger] vertex_normals(pos, idx)[v];
        nv == (0int, UNIT as int, 0int) || nv == (0int, -UNIT, 0int) || nv == (0int, 0int, 0int)
    } by {
        lemma_accumulated_vertical(pos, idx, t, v);
        lemma_normalized_vertical(accumulated(pos, idx, t, v).1, UNIT as int);
        assert(accumulated(pos, idx, t, v) == (0int, accumulated(pos, idx, t, v).1, 0int));
    }
    if forall|f: int| 0 <= f < idx.len() / 3 ==> points(#[trigger] face_turn(pos, idx, f), up) {
        assert forall|k: int| 0 <= k < idx.len() implies #[trigger] vertex_normals(pos, idx)[idx[k] as int]
            == (0int, if up {
            UNIT as int
        } else {
            -UNIT
        }, 0int) by {
            let v = idx[k] as int;
            assert(v < pos.len());
            lemma_accumulated_vertical(pos, idx, t, v);
            lemma_accumulated_signed(pos, idx, t, v, up);
            let y = accumulated(pos, idx, t, v).1;
            assert(points(y, up));
            lemma_normalized_vertical(y, UNIT as int);
            assert(accumulated(pos, idx, t, v) == (0int, y, 0int));
        }
    }
}

/// `n` has the sign of `c` and lies within one unit of `c * scale / sqrt(nsq)`, stated
/// with squares.
pub open spec fn near(n: int, c: int, scale: int, nsq: int) -> bool {
    &&& c >= 0 ==> n >= 0
    &&& c <= 0 ==> n <= 0
    &&& (c * scale) * (c * scale) <= (abs_int(n) + 1) * (abs_int(n) + 1) * nsq
    &&& abs_int(n) >= 1 ==> (abs_int(n) - 1) * (abs_int(n) - 1) * nsq <= (c * scale) * (c
        * scale)
}

pub open spec fn all_near(n: V3, v: V3, scale: int) -> bool {
    &&& near(n.0, v.0, scale, norm_sq(v))
    &&& near(n.1, v.1, scale, norm_sq(v))
    &&& near(n.2, v.2, scale, norm_sq(v))
}

proof fn lemma_sqrt_exists(x: int)
    requires
        x >= 0,
    ensures
        is_sqrt_of(x, int_sqrt(x)),
    decreases x,
{
    if x == 0 {
        lemma_sqrt_unique(0, 0);
    } else {
        lemma_sqrt_exists(x - 1);
        let r = int_sqrt(x - 1);
        if (r + 1) * (r + 1) <= x {
            assert(x < (r + 2) * (r + 2)) by (nonlinear_arith)
                requires
                    x - 1 < (r + 1) * (r + 1),
                    r >= 0,
            ;
            lemma_sqrt_unique(x, r + 1);
        } else {
            lemma_sqrt_unique(x, r);
        }
    }
}

proof fn lemma_near_final(c: int, s: int, len: int, scale: int)
    requires
        abs_int(c) <= len,
        len * len <= s < (len + 1) * (len + 1),
        len >= 0x100_0000_0000,
        1 <= scale <= 0x20_0000,
    ensures
        near(round_div(c * scale, len), c, scale, s),
{
    lemma_scaled_coord(c, len, scale);
    let b = abs_int(c) * scale;
    let t = abs_int(round_div(c * scale, len));
    assert((c * scale) * (c * scale) == b * b) by (nonlinear_arith)
        requires
            b * b == c * c * scale * scale,
    ;
    assert(b * b <= (t + 1) * (t + 1) * s) by (nonlinear_arith)
        requires
            2 * b + len < 2 * (t + 1) * len,
            len * len <= s,
            b >= 0,
            t >= 0,
    ;
    if t >= 1 {
        assert((t - 1) * (len + 1) <= b) by (nonlinear_arith)
            requires
                2 * t * len <= 2 * b + len,
                t <= 0x20_0000,
                len >= 0x100_0000_0000,
        ;
        let q = (t - 1) * (len + 1);
        assert((t - 1) * (t - 1) * s <= q * q) by (nonlinear_arith)
            requires
                q == (t - 1) * (len + 1),
                s < (len + 1) * (len + 1),
                t >= 1,
        ;
        assert(q * q <= b * b) by (nonlinear_arith)
            requires
                0 <= q <= b,
        ;
    }
}

proof fn lemma_near_doubled(n: int, c: int, scale: int, nsq: int)
    requires
        near(n, 2 * c, scale, 4 * nsq),
    ensures
        near(n, c, scale, nsq),
{
    let a = abs_int(n);
    assert((2 * c * scale) * (2 * c * scale) == 4 * ((c * scale) * (c * scale))) by (
    nonlinear_arith);
    assert((a + 1) * (a + 1) * (4 * nsq) == 4 * ((a + 1) * (a + 1) * nsq)) by (nonlinear_arith);
    assert((a - 1) * (a - 1) * (4 * nsq) == 4 * ((a - 1) * (a - 1) * nsq)) by (nonlinear_arith);
}

proof fn lemma_near_lifted(w: V3, n: V3, scale: int)
    requires
        all_near(n, lifted(w), scale),
    ensures
        all_near(n, w, scale),
    decreases lift_room(w),
{
    lemma_doubled_norm(w);
    if 0 < norm_sq(w) < 0x1_0000_0000_0000_0000_0000 {
        lemma_near_lifted(doubled(w), n, scale);
        lemma_near_doubled(n.0, w.0, scale, norm_sq(w));
        lemma_near_doubled(n.1, w.1, scale, norm_sq(w));
        lemma_near_doubled(n.2, w.2, scale, norm_sq(w));
    }
}

/// What `normalized` computes, stated directly: for `v` with no coordinate above 2^61 in
/// magnitude (larger vectors are first halved, rounding toward zero) and
/// `1 <= scale <= 2^21`, the zero vector stays zero, and otherwise each coordinate `n_i`
/// of `normalized(v, scale)` has the sign of `v_i` and lies within one unit of
/// `v_i * scale / |v|`: `(|n_i| - 1)^2 * |v|^2 <= (v_i * scale)^2 <= (|n_i| + 1)^2 * |v|^2`.
pub proof fn lemma_normalized_direct(v: V3, scale: int)
    requires
        max_abs(v) <= 0x2000_0000_0000_0000,
        1 <= scale <= 0x20_0000,
    ensures
        v == (0int, 0int, 0int) ==> normalized(v, scale) == (0int, 0int, 0int),
        v != (0int, 0int, 0int) ==> all_near(normalized(v, scale), v, scale),
{
    assert(reduced(v) == v);
    lemma_lifted_props(v);
    lemma_doubled_norm(v);
    let w = lifted(v);
    lemma_doubled_norm(w);
    lemma_sqrt_exists(norm_sq(w));
    let len = int_sqrt(norm_sq(w));
    if v == (0int, 0int, 0int) {
        lemma_sqrt_unique(0, 0);
    } else {
        let s = norm_sq(w);
        assert(len >= 0x100_0000_0000) by (nonlinear_arith)
            requires
                s < (len + 1) * (len + 1),
                s >= 0x1_0000_0000_0000_0000_0000,
                len >= 0,
        ;
        assert(w.0 * w.0 <= s && w.1 * w.1 <= s && w.2 * w.2 <= s) by (nonlinear_arith)
            requires
                s == w.0 * w.0 + w.1 * w.1 + w.2 * w.2,
        ;
        lemma_coord_le_len(w.0, s, len);
        lemma_coord_le_len(w.1, s, len);
        lemma_coord_le_len(w.2, s, len);
        lemma_near_final(w.0, s, len, scale);
        lemma_near_final(w.1, s, len, scale);
        lemma_near_final(w.2, s, len, scale);
        lemma_near_lifted(v, normalized(v, scale), scale);
    }
}

} // verus!
