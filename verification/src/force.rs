//! The force simulation engine: a cyclic graph's nodes are seeded on a
//! circle and then relaxed by a fixed number of spring iterations. Every
//! ordered pair of distinct nodes exchanges a spring force each iteration:
//! connected pairs pull toward their mean edge weight times the vertical
//! scale, unconnected pairs toward a fixed neutral separation. All
//! arithmetic is integer: coordinates are kept in thousandths of a pixel
//! and saturate at a fixed bound instead of overflowing.

use vstd::prelude::*;

use crate::model::LayoutGraph;
use crate::model::LayoutError;
use crate::model::Pos;

verus! {

/// Coordinates, velocities and accelerations saturate at this magnitude
/// (in thousandths of a pixel).
pub const SAT: i64 = 2_000_000_000_000;

/// The fixed number of relaxation iterations.
pub const STEPS: usize = 300;

/// Saturation: values are clamped into the representable band.
pub open spec fn clip_s(v: int) -> int {
    if v > SAT {
        SAT as int
    } else if v < -SAT {
        -SAT as int
    } else {
        v
    }
}

/// Truncating division (toward zero) by a positive divisor.
pub open spec fn tdiv_s(a: int, b: int) -> int {
    if a >= 0 {
        a / b
    } else {
        -((-a) / b)
    }
}

/// The integer square root: the greatest `r` with `r * r <= v`.
pub open spec fn isqrt_s(v: int) -> int {
    choose|r: int| #![trigger r * r] r >= 0 && r * r <= v && (r + 1) * (r + 1) > v
}

/// Euclidean length of a vector, rounded down.
pub open spec fn dist_s(dx: int, dy: int) -> int {
    isqrt_s(dx * dx + dy * dy)
}

/// Whether an edge connects `u` and `v`, in either direction.
pub open spec fn connects(e: (usize, usize, i32), u: int, v: int) -> bool {
    (e.0 == u && e.1 == v) || (e.0 == v && e.1 == u)
}

/// How many edges connect `u` and `v`, counting both directions.
pub open spec fn conn_count(es: Seq<(usize, usize, i32)>, u: int, v: int) -> int
    decreases es.len(),
{
    if es.len() == 0 {
        0
    } else {
        conn_count(es.drop_last(), u, v) + if connects(es.last(), u, v) {
            1int
        } else {
            0int
        }
    }
}

/// The summed weight of the edges connecting `u` and `v`.
pub open spec fn weight_sum(es: Seq<(usize, usize, i32)>, u: int, v: int) -> int
    decreases es.len(),
{
    if es.len() == 0 {
        0
    } else {
        weight_sum(es.drop_last(), u, v) + if connects(es.last(), u, v) {
            es.last().2 as int
        } else {
            0int
        }
    }
}

/// The mean connecting weight, truncated toward zero.
pub open spec fn pair_mean(es: Seq<(usize, usize, i32)>, u: int, v: int) -> int {
    tdiv_s(weight_sum(es, u, v), conn_count(es, u, v))
}

/// The spring stiffness numerator (over a denominator of 10) for a pair.
pub open spec fn pair_spring(es: Seq<(usize, usize, i32)>, u: int, v: int) -> int {
    if conn_count(es, u, v) > 0 {
        7
    } else {
        5
    }
}

/// The relaxed separation for a pair, in thousandths of a pixel.
pub open spec fn pair_relaxed(es: Seq<(usize, usize, i32)>, u: int, v: int) -> int {
    if conn_count(es, u, v) > 0 {
        pair_mean(es, u, v) * 100000
    } else {
        300000
    }
}

/// The mass dividing a pair's restoring force.
pub open spec fn pair_mass(es: Seq<(usize, usize, i32)>, u: int, v: int) -> int {
    if conn_count(es, u, v) > 0 {
        100
    } else {
        500
    }
}

/// Every connected pair's mean weight fits the 16-bit range the layout
/// scale arithmetic expects.
pub open spec fn weights_ok(es: Seq<(usize, usize, i32)>, n: int) -> bool {
    forall|u: int, v: int|
        0 <= u < n && 0 <= v < n && u != v && conn_count(es, u, v) > 0 ==> 0 <= #[trigger]
            pair_mean(es, u, v) <= 65535
}

/// The acceleration one ordered pair `(u, v)` contributes: the restoring
/// force toward the relaxed separation, divided by the mass, along the
/// unit displacement, plus a constant one-pixel nudge in that direction.
/// Two coincident nodes exert nothing on each other.
pub open spec fn accel_pair(
    es: Seq<(usize, usize, i32)>,
    pos: Seq<(int, int)>,
    u: int,
    v: int,
) -> (int, int) {
    let dx = clip_s(pos[v].0 - pos[u].0);
    let dy = clip_s(pos[v].1 - pos[u].1);
    let d = dist_s(dx, dy);
    if d == 0 {
        (0, 0)
    } else {
        let diff = d - pair_relaxed(es, u, v);
        let acc = if conn_count(es, u, v) > 0 {
            tdiv_s(-7 * diff, 1000)
        } else {
            tdiv_s(-5 * diff, 5000)
        };
        (
            clip_s(tdiv_s(acc * dx, d) + tdiv_s(1000 * dx, d)),
            clip_s(tdiv_s(acc * dy, d) + tdiv_s(1000 * dy, d)),
        )
    }
}

/// A zeroed per-node vector.
pub open spec fn zeros(n: int) -> Seq<(int, int)> {
    Seq::new(n as nat, |i: int| (0int, 0int))
}

/// Applies one pair's contribution: subtracted at `u`, added at `v`.
pub open spec fn apply_pair(
    es: Seq<(usize, usize, i32)>,
    pos: Seq<(int, int)>,
    acc: Seq<(int, int)>,
    u: int,
    v: int,
) -> Seq<(int, int)> {
    let w = accel_pair(es, pos, u, v);
    let a1 = acc.update(u, (clip_s(acc[u].0 - w.0), clip_s(acc[u].1 - w.1)));
    a1.update(v, (clip_s(a1[v].0 + w.0), clip_s(a1[v].1 + w.1)))
}

/// The accumulated accelerations after node `u` has exchanged forces with
/// the first `v` other nodes.
pub open spec fn accs_inner(
    es: Seq<(usize, usize, i32)>,
    pos: Seq<(int, int)>,
    u: int,
    v: int,
    acc: Seq<(int, int)>,
) -> Seq<(int, int)>
    decreases v,
{
    if v <= 0 {
        acc
    } else {
        let a = accs_inner(es, pos, u, v - 1, acc);
        if v - 1 == u {
            a
        } else {
            apply_pair(es, pos, a, u, v - 1)
        }
    }
}

/// The accumulated accelerations after the first `u` nodes have exchanged
/// forces with every other node.
pub open spec fn accs_outer(
    es: Seq<(usize, usize, i32)>,
    pos: Seq<(int, int)>,
    u: int,
    n: int,
    acc: Seq<(int, int)>,
) -> Seq<(int, int)>
    decreases u,
{
    if u <= 0 {
        acc
    } else {
        accs_inner(es, pos, u - 1, n, accs_outer(es, pos, u - 1, n, acc))
    }
}

/// One node's integration: velocity takes the acceleration, loses one
/// pixel of magnitude as friction (when moving at all), and moves the
/// position.
pub open spec fn integrate_one(p: (int, int), vel: (int, int), a: (int, int)) -> (
    (int, int),
    (int, int),
) {
    let v1 = (clip_s(vel.0 + a.0), clip_s(vel.1 + a.1));
    let sp = dist_s(v1.0, v1.1);
    let v2 = if sp == 0 {
        v1
    } else {
        (clip_s(v1.0 - tdiv_s(1000 * v1.0, sp)), clip_s(v1.1 - tdiv_s(1000 * v1.1, sp)))
    };
    ((clip_s(p.0 + v2.0), clip_s(p.1 + v2.1)), v2)
}

/// One full iteration: all pairwise forces, then integration.
pub open spec fn sim_step(
    es: Seq<(usize, usize, i32)>,
    pos: Seq<(int, int)>,
    vel: Seq<(int, int)>,
    n: int,
) -> (Seq<(int, int)>, Seq<(int, int)>) {
    let acc = accs_outer(es, pos, n, n, zeros(n));
    (
        Seq::new(pos.len(), |i: int| integrate_one(pos[i], vel[i], acc[i]).0),
        Seq::new(pos.len(), |i: int| integrate_one(pos[i], vel[i], acc[i]).1),
    )
}

/// `k` iterations of the relaxation.
pub open spec fn sim_iter(
    es: Seq<(usize, usize, i32)>,
    pos: Seq<(int, int)>,
    vel: Seq<(int, int)>,
    n: int,
    k: nat,
) -> (Seq<(int, int)>, Seq<(int, int)>)
    decreases k,
{
    if k == 0 {
        (pos, vel)
    } else {
        let s = sim_step(es, pos, vel, n);
        sim_iter(es, s.0, s.1, n, (k - 1) as nat)
    }
}

/// The integer views of a position vector, in pixels.
pub open spec fn pos_views(ps: Seq<Pos>) -> Seq<(int, int)> {
    ps.map_values(|p: Pos| (p.x as int, p.y as int))
}

/// Pixel positions scaled into thousandths, saturated.
pub open spec fn to_milli(ps: Seq<(int, int)>) -> Seq<(int, int)> {
    ps.map_values(|p: (int, int)| (clip_s(p.0 * 1000), clip_s(p.1 * 1000)))
}

/// What `simulate` computes: the relaxed positions, scaled back to pixels.
pub open spec fn simulate_spec(g: LayoutGraph, ps: Seq<Pos>) -> Seq<(int, int)> {
    let m = sim_iter(g.edges@, to_milli(pos_views(ps)), zeros(ps.len() as int), g.n(), STEPS as nat).0;
    m.map_values(|p: (int, int)| (tdiv_s(p.0, 1000), tdiv_s(p.1, 1000)))
}

/// The integer square root is unique.
proof fn lemma_isqrt_unique(v: int, r1: int, r2: int)
    requires
        r1 >= 0 && r1 * r1 <= v && (r1 + 1) * (r1 + 1) > v,
        r2 >= 0 && r2 * r2 <= v && (r2 + 1) * (r2 + 1) > v,
    ensures
        r1 == r2,
{
    if r1 < r2 {
        assert(r2 * r2 >= (r1 + 1) * (r1 + 1)) by (nonlinear_arith)
            requires
                0 <= r1 + 1 <= r2,
        ;
    }
    if r2 < r1 {
        assert(r1 * r1 >= (r2 + 1) * (r2 + 1)) by (nonlinear_arith)
            requires
                0 <= r2 + 1 <= r1,
        ;
    }
}

/// Saturation, executable.
fn clip128(v: i128) -> (r: i64)
    ensures
        r as int == clip_s(v as int),
{
    if v > SAT as i128 {
        SAT
    } else if v < -(SAT as i128) {
        -SAT
    } else {
        v as i64
    }
}

/// Truncating division, executable.
fn tdiv128(a: i128, b: i128) -> (r: i128)
    requires
        b > 0,
        a > i128::MIN,
    ensures
        r as int == tdiv_s(a as int, b as int),
        if r as int >= 0 { r as int } else { -(r as int) } <= if a as int >= 0 { a as int } else { -(a as int) },
{
    if a >= 0 {
        let q = (a as u128) / (b as u128);
        proof {
            assert(q <= a as u128) by (nonlinear_arith)
                requires
                    b as u128 >= 1,
                    q == (a as u128) / (b as u128),
            ;
        }
        q as i128
    } else {
        let m = (-a) as u128;
        let q = m / (b as u128);
        proof {
            assert(q <= m) by (nonlinear_arith)
                requires
                    b as u128 >= 1,
                    q == m / (b as u128),
            ;
        }
        -(q as i128)
    }
}

/// The integer square root, by bisection.
fn isqrt128(v: u128) -> (r: u128)
    ensures
        r as int == isqrt_s(v as int),
        r as int * r as int <= v as int,
        (r as int + 1) * (r as int + 1) > v as int,
{
    let mut lo: u128 = 0;
    let mut hi: u128 = 0x1_0000_0000_0000_0000;
    proof {
        assert((hi as int) * (hi as int) > v as int) by (nonlinear_arith)
            requires
                hi == 0x1_0000_0000_0000_0000u128,
                v <= u128::MAX,
        ;
    }
    while lo + 1 < hi
        invariant
            0 <= lo < hi <= 0x1_0000_0000_0000_0000,
            (lo as int) * (lo as int) <= v as int,
            (hi as int) * (hi as int) > v as int,
        decreases hi - lo,
    {
        let mid = lo + (hi - lo) / 2;
        proof {
            assert(mid * mid <= u128::MAX) by (nonlinear_arith)
                requires
                    mid < 0x1_0000_0000_0000_0000u128,
            ;
        }
        if mid * mid <= v {
            lo = mid;
        } else {
            hi = mid;
        }
    }
    proof {
        assert(exists|r: int| #![trigger r * r]
            r >= 0 && r * r <= v as int && (r + 1) * (r + 1) > v as int) by {
            assert(lo as int >= 0 && (lo as int) * (lo as int) <= v as int && (lo as int + 1) * (
            lo as int + 1) > v as int);
        }
        let c = isqrt_s(v as int);
        lemma_isqrt_unique(v as int, lo as int, c);
    }
    lo
}

/// The saturated length of a displacement, executable.
fn dist_exec(dx: i64, dy: i64) -> (r: i64)
    requires
        -SAT <= dx <= SAT,
        -SAT <= dy <= SAT,
    ensures
        r as int == dist_s(dx as int, dy as int),
        0 <= r as int <= 3_000_000_000_000,
{
    proof {
        assert(0 <= (dx as int) * (dx as int) <= 4_000_000_000_000_000_000_000_000int
            && 0 <= (dy as int) * (dy as int) <= 4_000_000_000_000_000_000_000_000int)
            by (nonlinear_arith)
            requires
                -2_000_000_000_000 <= dx as int <= 2_000_000_000_000,
                -2_000_000_000_000 <= dy as int <= 2_000_000_000_000,
        ;
    }
    let dx2 = (dx as i128) * (dx as i128);
    let dy2 = (dy as i128) * (dy as i128);
    let s = (dx2 as u128) + (dy2 as u128);
    let r = isqrt128(s);
    proof {
        let ri = r as int;
        assert(ri <= 3_000_000_000_000) by (nonlinear_arith)
            requires
                ri >= 0,
                ri * ri <= s as int,
                s as int <= 8_000_000_000_000_000_000_000_000int,
        ;
    }
    r as i64
}


/// The integer views of a coordinate vector.
pub open spec fn vecs(ps: Seq<(i64, i64)>) -> Seq<(int, int)> {
    ps.map_values(|p: (i64, i64)| (p.0 as int, p.1 as int))
}

/// Every component within the saturation band.
pub open spec fn bounded(ps: Seq<(int, int)>) -> bool {
    forall|i: int|
        0 <= i < ps.len() ==> -SAT <= (#[trigger] ps[i]).0 <= SAT && -SAT <= ps[i].1 <= SAT
}

/// The connection count and weight sum of a pair, by one scan.
fn pair_stats(g: &LayoutGraph, u: usize, v: usize) -> (r: (u128, i128))
    ensures
        r.0 as int == conn_count(g.edges@, u as int, v as int),
        r.0 as int <= g.edges@.len(),
        r.0 as int <= usize::MAX,
        r.1 as int == weight_sum(g.edges@, u as int, v as int),
        -(g.edges@.len() as int) * 0x8000_0000 <= r.1 as int <= (g.edges@.len() as int)
            * 0x8000_0000,
        -0x8000_0000_0000_0000_0000_0000i128 <= r.1 <= 0x8000_0000_0000_0000_0000_0000i128,
{
    let m = g.edges.len();
    let mut count: u128 = 0;
    let mut total: i128 = 0;
    let mut k: usize = 0;
    proof {
        assert(g.edges@.take(0) =~= Seq::<(usize, usize, i32)>::empty());
    }
    while k < m
        invariant
            0 <= k <= m,
            m == g.edges@.len(),
            count as int == conn_count(g.edges@.take(k as int), u as int, v as int),
            total as int == weight_sum(g.edges@.take(k as int), u as int, v as int),
            count as int <= k,
            -(k as int) * 0x8000_0000 <= total as int <= (k as int) * 0x8000_0000,
        decreases m - k,
    {
        let ghost pref = g.edges@.take(k as int);
        proof {
            assert(g.edges@.take(k + 1) =~= pref.push(g.edges@[k as int]));
            assert(g.edges@.take(k + 1).drop_last() =~= pref);
        }
        let e = g.edges[k];
        if (e.0 == u && e.1 == v) || (e.0 == v && e.1 == u) {
            count = count + 1;
            total = total + (e.2 as i128);
        }
        k = k + 1;
    }
    proof {
        assert(g.edges@.take(m as int) =~= g.edges@);
    }
    (count, total)
}

/// Decides whether every connected pair's mean weight is in range.
fn validate_weights(g: &LayoutGraph) -> (r: bool)
    ensures
        r == weights_ok(g.edges@, g.n()),
{
    let n = g.names.len();
    let mut u: usize = 0;
    while u < n
        invariant
            0 <= u <= n,
            n == g.n(),
            forall|u0: int, v0: int|
                0 <= u0 < u && 0 <= v0 < n && u0 != v0 && conn_count(g.edges@, u0, v0) > 0
                    ==> 0 <= #[trigger] pair_mean(g.edges@, u0, v0) <= 65535,
        decreases n - u,
    {
        let mut v: usize = 0;
        while v < n
            invariant
                0 <= v <= n,
                0 <= u < n,
                n == g.n(),
                forall|v0: int|
                    0 <= v0 < v && u as int != v0 && conn_count(g.edges@, u as int, v0) > 0
                        ==> 0 <= #[trigger] pair_mean(g.edges@, u as int, v0) <= 65535,
            decreases n - v,
        {
            if v != u {
                let (count, total) = pair_stats(g, u, v);
                if count > 0 {
                    let mean = tdiv128(total, count as i128);
                    proof {
                        assert(mean as int == pair_mean(g.edges@, u as int, v as int));
                    }
                    if mean < 0 || mean > 65535 {
                        proof {
                            assert(!weights_ok(g.edges@, g.n()));
                        }
                        return false;
                    }
                } else {
                    proof {
                        assert(conn_count(g.edges@, u as int, v as int) == 0);
                    }
                }
            }
            v = v + 1;
        }
        u = u + 1;
    }
    true
}

/// One ordered pair's acceleration contribution, executable.
fn accel_pair_exec(g: &LayoutGraph, pos: &Vec<(i64, i64)>, u: usize, v: usize) -> (r: (i64, i64))
    requires
        u < pos@.len(),
        v < pos@.len(),
        bounded(vecs(pos@)),
        conn_count(g.edges@, u as int, v as int) > 0 ==> 0 <= pair_mean(
            g.edges@,
            u as int,
            v as int,
        ) <= 65535,
    ensures
        (r.0 as int, r.1 as int) == accel_pair(g.edges@, vecs(pos@), u as int, v as int),
        -SAT <= r.0 <= SAT,
        -SAT <= r.1 <= SAT,
{
    let (count, total) = pair_stats(g, u, v);
    let dx = clip128(pos[v].0 as i128 - pos[u].0 as i128);
    let dy = clip128(pos[v].1 as i128 - pos[u].1 as i128);
    let d = dist_exec(dx, dy);
    if d == 0 {
        proof {
            assert(accel_pair(g.edges@, vecs(pos@), u as int, v as int) == (0int, 0int));
        }
        (0, 0)
    } else {
        let relaxed: i128 = if count > 0 {
            let mean = tdiv128(total, count as i128);
            proof {
                assert(mean as int == pair_mean(g.edges@, u as int, v as int));
                assert(0 <= mean as int <= 65535);
            }
            mean * 100000
        } else {
            300000
        };
        proof {
            assert(0 <= relaxed as int <= 6_553_500_000);
            assert(relaxed as int == pair_relaxed(g.edges@, u as int, v as int));
            assert(0 <= d as int <= 3_000_000_000_000);
        }
        let diff: i128 = (d as i128) - relaxed;
        proof {
            assert(-6_553_500_000 <= diff as int <= 3_000_000_000_000);
            assert(conn_count(g.edges@, u as int, v as int) == count as int);
        }
        proof {
            assert(-21_000_000_000_000_000 < 7 * (diff as int) < 21_000_000_000_000_000);
            assert(-21_000_000_000_000_000 < 5 * (diff as int) < 21_000_000_000_000_000);
        }
        let num: i128 = if count > 0 {
            7 * diff
        } else {
            5 * diff
        };
        let den: i128 = if count > 0 {
            1000
        } else {
            5000
        };
        let acc: i128 = tdiv128(-num, den);
        proof {
            assert(-SAT as i128 <= dx as i128 <= SAT as i128);
            assert(if acc as int >= 0 {
                acc as int
            } else {
                -(acc as int)
            } <= 7 * (3_000_000_000_000 + 6_553_500_000) + 1);
            assert(acc * (dx as i128) <= 50_000_000_000_000_000_000_000_000int
                && acc * (dx as i128) >= -50_000_000_000_000_000_000_000_000int
                && acc * (dy as i128) <= 50_000_000_000_000_000_000_000_000int
                && acc * (dy as i128) >= -50_000_000_000_000_000_000_000_000int)
                by (nonlinear_arith)
                requires
                    -22_000_000_000_000i128 <= acc <= 22_000_000_000_000i128,
                    -2_000_000_000_000i128 <= dx as i128 <= 2_000_000_000_000i128,
                    -2_000_000_000_000i128 <= dy as i128 <= 2_000_000_000_000i128,
            ;
        }
        let tx = tdiv128(acc * (dx as i128), d as i128);
        let nx = tdiv128(1000 * (dx as i128), d as i128);
        let ty = tdiv128(acc * (dy as i128), d as i128);
        let ny = tdiv128(1000 * (dy as i128), d as i128);
        let rx = clip128(tx + nx);
        let ry = clip128(ty + ny);
        proof {
            let es = g.edges@;
            let pv = vecs(pos@);
            let ui = u as int;
            let vi = v as int;
            assert(dx as int == clip_s(pv[vi].0 - pv[ui].0));
            assert(dy as int == clip_s(pv[vi].1 - pv[ui].1));
            assert(d as int == dist_s(dx as int, dy as int) && d as int != 0);
            assert(diff as int == d as int - pair_relaxed(es, ui, vi));
            assert(num as int == pair_spring(es, ui, vi) * (diff as int)) by {
                if count > 0 {
                    assert(pair_spring(es, ui, vi) == 7);
                    assert(num as int == 7 * (diff as int));
                } else {
                    assert(pair_spring(es, ui, vi) == 5);
                    assert(num as int == 5 * (diff as int));
                }
            }
            assert(acc as int == tdiv_s(-(num as int), den as int));
            if count > 0 {
                assert(-(num as int) == -7 * (diff as int));
                assert(acc as int == tdiv_s(-7 * (diff as int), 1000));
            } else {
                assert(-(num as int) == -5 * (diff as int));
                assert(acc as int == tdiv_s(-5 * (diff as int), 5000));
            }
            assert(tx as int == tdiv_s((acc as int) * (dx as int), d as int));
            assert(nx as int == tdiv_s(1000 * (dx as int), d as int));
            assert(ty as int == tdiv_s((acc as int) * (dy as int), d as int));
            assert(ny as int == tdiv_s(1000 * (dy as int), d as int));
            assert(rx as int == clip_s(tx as int + nx as int));
            assert(ry as int == clip_s(ty as int + ny as int));
            assert((rx as int, ry as int) == accel_pair(es, pv, ui, vi));
        }
        (rx, ry)
    }
}

/// All pairwise forces of one iteration, accumulated in loop order.
fn compute_accels(g: &LayoutGraph, pos: &Vec<(i64, i64)>) -> (acc: Vec<(i64, i64)>)
    requires
        pos@.len() == g.n(),
        bounded(vecs(pos@)),
        weights_ok(g.edges@, g.n()),
    ensures
        acc@.len() == g.n(),
        vecs(acc@) == accs_outer(g.edges@, vecs(pos@), g.n(), g.n(), zeros(g.n())),
        bounded(vecs(acc@)),
{
    let n = g.names.len();
    let mut acc: Vec<(i64, i64)> = Vec::new();
    let mut i: usize = 0;
    while i < n
        invariant
            0 <= i <= n,
            acc@.len() == i,
            forall|j: int| 0 <= j < i ==> acc@[j] == (0i64, 0i64),
        decreases n - i,
    {
        acc.push((0, 0));
        i = i + 1;
    }
    proof {
        assert(vecs(acc@) =~= zeros(n as int));
    }
    let ghost es = g.edges@;
    let ghost pv = vecs(pos@);
    let mut u: usize = 0;
    while u < n
        invariant
            0 <= u <= n,
            n == g.n(),
            es == g.edges@,
            pv == vecs(pos@),
            pos@.len() == n,
            bounded(pv),
            weights_ok(es, n as int),
            acc@.len() == n,
            vecs(acc@) == accs_outer(es, pv, u as int, n as int, zeros(n as int)),
            bounded(vecs(acc@)),
        decreases n - u,
    {
        let mut v: usize = 0;
        while v < n
            invariant
                0 <= v <= n,
                0 <= u < n,
                n == g.n(),
                es == g.edges@,
                pv == vecs(pos@),
                pos@.len() == n,
                bounded(pv),
                weights_ok(es, n as int),
                acc@.len() == n,
                vecs(acc@) == accs_inner(
                    es,
                    pv,
                    u as int,
                    v as int,
                    accs_outer(es, pv, u as int, n as int, zeros(n as int)),
                ),
                bounded(vecs(acc@)),
            decreases n - v,
        {
            if v != u {
                let ghost before = vecs(acc@);
                let w = accel_pair_exec(g, pos, u, v);
                let au = acc[u];
                let nu = (clip128(au.0 as i128 - w.0 as i128), clip128(au.1 as i128 - w.1 as i128));
                acc.set(u, nu);
                let av = acc[v];
                let nv = (clip128(av.0 as i128 + w.0 as i128), clip128(av.1 as i128 + w.1 as i128));
                acc.set(v, nv);
                proof {
                    let wsp = accel_pair(es, pv, u as int, v as int);
                    let a1 = before.update(
                        u as int,
                        (clip_s(before[u as int].0 - wsp.0), clip_s(before[u as int].1 - wsp.1)),
                    );
                    assert(vecs(acc@) =~= a1.update(
                        v as int,
                        (clip_s(a1[v as int].0 + wsp.0), clip_s(a1[v as int].1 + wsp.1)),
                    ));
                    assert(vecs(acc@) =~= apply_pair(es, pv, before, u as int, v as int));
                }
            }
            v = v + 1;
        }
        u = u + 1;
    }
    acc
}

/// One iteration, executable: forces then integration.
fn step_exec(g: &LayoutGraph, pos: &Vec<(i64, i64)>, vel: &Vec<(i64, i64)>) -> (r: (
    Vec<(i64, i64)>,
    Vec<(i64, i64)>,
))
    requires
        pos@.len() == g.n(),
        vel@.len() == g.n(),
        bounded(vecs(pos@)),
        bounded(vecs(vel@)),
        weights_ok(g.edges@, g.n()),
    ensures
        r.0@.len() == g.n(),
        r.1@.len() == g.n(),
        (vecs(r.0@), vecs(r.1@)) == sim_step(g.edges@, vecs(pos@), vecs(vel@), g.n()),
        bounded(vecs(r.0@)),
        bounded(vecs(r.1@)),
{
    let n = g.names.len();
    let acc = compute_accels(g, pos);
    let ghost es = g.edges@;
    let ghost pv = vecs(pos@);
    let ghost vv = vecs(vel@);
    let ghost av = vecs(acc@);
    let mut np: Vec<(i64, i64)> = Vec::new();
    let mut nv: Vec<(i64, i64)> = Vec::new();
    let mut i: usize = 0;
    while i < n
        invariant
            0 <= i <= n,
            n == g.n(),
            pos@.len() == n,
            vel@.len() == n,
            acc@.len() == n,
            es == g.edges@,
            pv == vecs(pos@),
            vv == vecs(vel@),
            av == vecs(acc@),
            bounded(pv),
            bounded(vv),
            bounded(av),
            np@.len() == i,
            nv@.len() == i,
            forall|j: int|
                0 <= j < i ==> ((#[trigger] np@[j]).0 as int, np@[j].1 as int) == integrate_one(
                    pv[j],
                    vv[j],
                    av[j],
                ).0,
            forall|j: int|
                0 <= j < i ==> ((#[trigger] nv@[j]).0 as int, nv@[j].1 as int) == integrate_one(
                    pv[j],
                    vv[j],
                    av[j],
                ).1,
            forall|j: int|
                0 <= j < i ==> -SAT <= (#[trigger] np@[j]).0 <= SAT && -SAT <= np@[j].1 <= SAT,
            forall|j: int|
                0 <= j < i ==> -SAT <= (#[trigger] nv@[j]).0 <= SAT && -SAT <= nv@[j].1 <= SAT,
        decreases n - i,
    {
        let v1 = (
            clip128(vel[i].0 as i128 + acc[i].0 as i128),
            clip128(vel[i].1 as i128 + acc[i].1 as i128),
        );
        let sp = dist_exec(v1.0, v1.1);
        let v2 = if sp == 0 {
            v1
        } else {
            let fx = tdiv128(1000 * (v1.0 as i128), sp as i128);
            let fy = tdiv128(1000 * (v1.1 as i128), sp as i128);
            (clip128(v1.0 as i128 - fx), clip128(v1.1 as i128 - fy))
        };
        let p2 = (clip128(pos[i].0 as i128 + v2.0 as i128), clip128(pos[i].1 as i128 + v2.1 as i128));
        np.push(p2);
        nv.push(v2);
        i = i + 1;
    }
    proof {
        assert(vecs(np@) =~= Seq::new(pv.len(), |j: int| integrate_one(pv[j], vv[j], av[j]).0));
        assert(vecs(nv@) =~= Seq::new(pv.len(), |j: int| integrate_one(pv[j], vv[j], av[j]).1));
    }
    (np, nv)
}

/// Dividing a saturated coordinate back into pixels lands within two
/// billion pixels of the origin.
proof fn lemma_tdiv_band(a: int)
    requires
        -SAT <= a <= SAT,
    ensures
        -2_000_000_000 <= tdiv_s(a, 1000) <= 2_000_000_000,
{
    if a >= 0 {
        vstd::arithmetic::div_mod::lemma_div_is_ordered(a, SAT as int, 1000);
        vstd::arithmetic::div_mod::lemma_div_is_ordered(0, a, 1000);
    } else {
        vstd::arithmetic::div_mod::lemma_div_is_ordered(-a, SAT as int, 1000);
        vstd::arithmetic::div_mod::lemma_div_is_ordered(0, -a, 1000);
    }
}

/// The force simulation: refines the given positions by the fixed number
/// of spring iterations. Fails exactly when some connected pair's mean
/// weight leaves the 16-bit range — the one conversion the scale
/// arithmetic depends on. Coordinates themselves never fail: positions
/// beyond the representable band saturate at its edge on the way in, and
/// every returned coordinate lies within two billion pixels of the
/// origin. Every node keeps an entry.
pub fn simulate(g: &LayoutGraph, init: &Vec<Pos>) -> (r: Result<Vec<Pos>, LayoutError>)
    requires
        init@.len() == g.n(),
    ensures
        r.is_ok() == weights_ok(g.edges@, g.n()),
        match r {
            Ok(out) => out@.len() == g.n() && pos_views(out@) == simulate_spec(*g, init@) && (
            forall|i: int|
                0 <= i < out@.len() ==> -2_000_000_000 <= (#[trigger] out@[i]).x
                    <= 2_000_000_000 && -2_000_000_000 <= out@[i].y <= 2_000_000_000),
            Err(e) => e == LayoutError::OutOfRange,
        },
{
    if !validate_weights(g) {
        return Err(LayoutError::OutOfRange);
    }
    let n = g.names.len();
    let mut pos: Vec<(i64, i64)> = Vec::new();
    let mut vel: Vec<(i64, i64)> = Vec::new();
    let mut i: usize = 0;
    while i < n
        invariant
            0 <= i <= n,
            n == g.n(),
            init@.len() == n,
            pos@.len() == i,
            vel@.len() == i,
            forall|j: int|
                0 <= j < i ==> ((#[trigger] pos@[j]).0 as int, pos@[j].1 as int) == (
                    clip_s(pos_views(init@)[j].0 * 1000),
                    clip_s(pos_views(init@)[j].1 * 1000),
                ),
            forall|j: int| 0 <= j < i ==> vel@[j] == (0i64, 0i64),
            forall|j: int|
                0 <= j < i ==> -SAT <= (#[trigger] pos@[j]).0 <= SAT && -SAT <= pos@[j].1 <= SAT,
        decreases n - i,
    {
        let p = init[i];
        let mx = clip128((p.x as i128) * 1000);
        let my = clip128((p.y as i128) * 1000);
        pos.push((mx, my));
        vel.push((0, 0));
        i = i + 1;
    }
    proof {
        assert(vecs(pos@) =~= to_milli(pos_views(init@)));
        assert(vecs(vel@) =~= zeros(n as int));
    }
    let ghost es = g.edges@;
    let ghost p0 = vecs(pos@);
    let ghost v0 = vecs(vel@);

    let mut k: usize = 0;
    while k < STEPS
        invariant
            0 <= k <= STEPS,
            n == g.n(),
            es == g.edges@,
            weights_ok(es, n as int),
            pos@.len() == n,
            vel@.len() == n,
            bounded(vecs(pos@)),
            bounded(vecs(vel@)),
            sim_iter(es, p0, v0, n as int, STEPS as nat) == sim_iter(
                es,
                vecs(pos@),
                vecs(vel@),
                n as int,
                (STEPS - k) as nat,
            ),
        decreases STEPS - k,
    {
        let (np, nv) = step_exec(g, &pos, &vel);
        pos = np;
        vel = nv;
        k = k + 1;
    }
    proof {
        assert(sim_iter(es, vecs(pos@), vecs(vel@), n as int, 0) == (vecs(pos@), vecs(vel@)));
    }

    let mut out: Vec<Pos> = Vec::new();
    let mut i2: usize = 0;
    while i2 < n
        invariant
            0 <= i2 <= n,
            pos@.len() == n,
            bounded(vecs(pos@)),
            out@.len() == i2,
            forall|j: int|
                0 <= j < i2 ==> ((#[trigger] out@[j]).x as int, out@[j].y as int) == (
                    tdiv_s(vecs(pos@)[j].0, 1000),
                    tdiv_s(vecs(pos@)[j].1, 1000),
                ),
            forall|j: int|
                0 <= j < i2 ==> -2_000_000_000 <= (#[trigger] out@[j]).x <= 2_000_000_000
                    && -2_000_000_000 <= out@[j].y <= 2_000_000_000,
        decreases n - i2,
    {
        let px = tdiv128(pos[i2].0 as i128, 1000);
        let py = tdiv128(pos[i2].1 as i128, 1000);
        proof {
            lemma_tdiv_band(vecs(pos@)[i2 as int].0);
            lemma_tdiv_band(vecs(pos@)[i2 as int].1);
        }
        out.push(Pos { x: px as i64, y: py as i64 });
        i2 = i2 + 1;
    }
    proof {
        assert(pos_views(out@) =~= simulate_spec(*g, init@));
    }
    Ok(out)
}


/// Where node `i` of `n` is seeded: on a circle of radius 50 times
/// `n - 1`, centred at (300, 300), at an angle of `i / n` turns taken
/// four times around. The angle is realised in integer arithmetic: the
/// fraction picks a point on the square diamond of the quadrant, which is
/// then pushed out to the circle by its own length.
pub open spec fn seed_point(i: int, n: int) -> (int, int) {
    if n <= 1 {
        (300, 300)
    } else {
        let r = 50 * (n - 1);
        let m = (4 * i) % n;
        let q = (4 * m) / n;
        let t = (4 * m) % n;
        let a = tdiv_s(r * (n - t), n);
        let b = tdiv_s(r * t, n);
        let l = dist_s(a, b);
        if l == 0 {
            (300, 300)
        } else {
            let x0 = tdiv_s(a * r, l);
            let y0 = tdiv_s(b * r, l);
            if q == 0 {
                (300 + x0, 300 + y0)
            } else if q == 1 {
                (300 - y0, 300 + x0)
            } else if q == 2 {
                (300 - x0, 300 - y0)
            } else {
                (300 + y0, 300 - x0)
            }
        }
    }
}

/// Seeds every node on the circle. Fails exactly when the node count
/// leaves the 16-bit signed range the seed arithmetic is scaled for.
pub fn seed_positions(n: usize) -> (r: Result<Vec<Pos>, LayoutError>)
    ensures
        r.is_ok() == (n <= 32767),
        match r {
            Ok(v) => v@.len() == n && forall|i: int|
                0 <= i < n ==> ((#[trigger] v@[i]).x as int, v@[i].y as int) == seed_point(
                    i,
                    n as int,
                ),
            Err(e) => e == LayoutError::OutOfRange,
        },
{
    if n > 32767 {
        return Err(LayoutError::OutOfRange);
    }
    let mut v: Vec<Pos> = Vec::new();
    let mut i: usize = 0;
    while i < n
        invariant
            0 <= i <= n,
            n <= 32767,
            v@.len() == i,
            forall|j: int|
                0 <= j < i ==> ((#[trigger] v@[j]).x as int, v@[j].y as int) == seed_point(
                    j,
                    n as int,
                ),
        decreases n - i,
    {
        let p: Pos = if n <= 1 {
            Pos { x: 300, y: 300 }
        } else {
            let r64: i64 = 50 * ((n as i64) - 1);
            let m: usize = (4 * i) % n;
            let q: usize = (4 * m) / n;
            let t: usize = (4 * m) % n;
            proof {
                assert(0 <= (r64 as int) * ((n - t) as int)
                    && (r64 as int) * ((n - t) as int) <= 53_684_224_100
                    && 0 <= (r64 as int) * (t as int)
                    && (r64 as int) * (t as int) <= 53_684_224_100) by (nonlinear_arith)
                    requires
                        0 <= r64 as int <= 1_638_300,
                        0 <= t < n <= 32767,
                ;
            }
            let a128 = tdiv128((r64 as i128) * ((n - t) as i128), n as i128);
            let b128 = tdiv128((r64 as i128) * (t as i128), n as i128);
            let a = a128 as i64;
            let b = b128 as i64;
            let l = dist_exec(a, b);
            if l == 0 {
                Pos { x: 300, y: 300 }
            } else {
                proof {
                    assert(-54_000_000_000 <= a as int <= 54_000_000_000);
                    assert((a as int) * (r64 as int) <= 90_000_000_000_000_000
                        && (a as int) * (r64 as int) >= -90_000_000_000_000_000
                        && (b as int) * (r64 as int) <= 90_000_000_000_000_000
                        && (b as int) * (r64 as int) >= -90_000_000_000_000_000)
                        by (nonlinear_arith)
                        requires
                            -54_000_000_000 <= a as int <= 54_000_000_000,
                            -54_000_000_000 <= b as int <= 54_000_000_000,
                            0 <= r64 as int <= 1_638_300,
                ;
                }
                let x0 = tdiv128((a as i128) * (r64 as i128), l as i128);
                let y0 = tdiv128((b as i128) * (r64 as i128), l as i128);
                let (px, py): (i128, i128) = if q == 0 {
                    (300 + x0, 300 + y0)
                } else if q == 1 {
                    (300 - y0, 300 + x0)
                } else if q == 2 {
                    (300 - x0, 300 - y0)
                } else {
                    (300 + y0, 300 - x0)
                };
                Pos { x: px as i64, y: py as i64 }
            }
        };
        v.push(p);
        i = i + 1;
    }
    Ok(v)
}

/// An edgeless pair is unconnected however it is queried.
pub proof fn lemma_no_edges_no_connection(es: Seq<(usize, usize, i32)>, u: int, v: int)
    requires
        es.len() == 0,
    ensures
        conn_count(es, u, v) == 0,
{
}

/// Between two unconnected nodes the neutral spring governs the force in
/// every iteration: stiffness 5 over 10, relaxed separation 300 pixels,
/// mass 500. The choice depends only on the edge list, never on the
/// positions, so it holds at every step of the simulation; the
/// acceleration such a pair exchanges is exactly the neutral formula.
pub proof fn lemma_unconnected_pair_spring(
    es: Seq<(usize, usize, i32)>,
    pos: Seq<(int, int)>,
    u: int,
    v: int,
)
    requires
        conn_count(es, u, v) == 0,
    ensures
        pair_spring(es, u, v) == 5,
        pair_relaxed(es, u, v) == 300000,
        pair_mass(es, u, v) == 500,
        ({
            let dx = clip_s(pos[v].0 - pos[u].0);
            let dy = clip_s(pos[v].1 - pos[u].1);
            let d = dist_s(dx, dy);
            accel_pair(es, pos, u, v) == if d == 0 {
                (0int, 0int)
            } else {
                let acc = tdiv_s(-5 * (d - 300000), 5000);
                (
                    clip_s(tdiv_s(acc * dx, d) + tdiv_s(1000 * dx, d)),
                    clip_s(tdiv_s(acc * dy, d) + tdiv_s(1000 * dy, d)),
                )
            }
        }),
{
}

/// The square root of zero.
proof fn lemma_isqrt_zero()
    ensures
        isqrt_s(0) == 0,
{
    assert(exists|r: int| #![trigger r * r] r >= 0 && r * r <= 0 && (r + 1) * (r + 1) > 0) by {
        assert(0 * 0 <= 0 && (0 + 1) * (0 + 1) > 0);
    }
    let c = isqrt_s(0);
    lemma_isqrt_unique(0, 0, c);
}

/// Simulation stability: a lone node exchanges forces with nobody, so
/// every iteration leaves its position exactly where it was.
pub proof fn lemma_single_node_stable(
    es: Seq<(usize, usize, i32)>,
    pos: Seq<(int, int)>,
    k: nat,
)
    requires
        pos.len() == 1,
        -SAT <= pos[0].0 <= SAT,
        -SAT <= pos[0].1 <= SAT,
    ensures
        sim_iter(es, pos, zeros(1), 1, k).0 == pos,
        sim_iter(es, pos, zeros(1), 1, k).1 == zeros(1),
    decreases k,
{
    if k > 0 {
        let acc = accs_outer(es, pos, 1, 1, zeros(1));
        assert(acc == accs_inner(es, pos, 0, 1, accs_outer(es, pos, 0, 1, zeros(1))));
        assert(accs_outer(es, pos, 0, 1, zeros(1)) == zeros(1));
        assert(accs_inner(es, pos, 0, 0, zeros(1)) == zeros(1));
        assert(accs_inner(es, pos, 0, 1, zeros(1)) == zeros(1));
        assert(acc == zeros(1));
        lemma_isqrt_zero();
        let s = sim_step(es, pos, zeros(1), 1);
        assert(zeros(1)[0] == (0int, 0int));
        assert(clip_s(0) == 0);
        assert(dist_s(0, 0) == 0);
        assert(clip_s(pos[0].0 + 0) == pos[0].0);
        assert(clip_s(pos[0].1 + 0) == pos[0].1);
        assert(integrate_one(pos[0], (0int, 0int), (0int, 0int)).0 == pos[0]);
        assert(integrate_one(pos[0], (0int, 0int), (0int, 0int)).1 == (0int, 0int));
        assert(s.0 =~= pos);
        assert(s.1 =~= zeros(1));
        lemma_single_node_stable(es, pos, (k - 1) as nat);
    }
}

/// Simulation stability at the interface: for a single node within the
/// representable pixel band, the whole relaxation hands back the seed
/// position unchanged.
pub proof fn lemma_simulate_single_node(g: LayoutGraph, ps: Seq<Pos>)
    requires
        g.n() == 1,
        ps.len() == 1,
        -2_000_000_000 <= ps[0].x <= 2_000_000_000,
        -2_000_000_000 <= ps[0].y <= 2_000_000_000,
    ensures
        simulate_spec(g, ps) == pos_views(ps),
{
    let p0 = pos_views(ps);
    let m0 = to_milli(p0);
    assert(m0[0].0 == clip_s(p0[0].0 * 1000) && m0[0].1 == clip_s(p0[0].1 * 1000));
    assert(m0[0].0 == p0[0].0 * 1000 && m0[0].1 == p0[0].1 * 1000);
    assert(m0.len() == 1);
    lemma_single_node_stable(g.edges@, m0, STEPS as nat);
    let fin = sim_iter(g.edges@, m0, zeros(1), 1, STEPS as nat).0;
    assert(fin == m0);
    assert(tdiv_s(p0[0].0 * 1000, 1000) == p0[0].0);
    assert(tdiv_s(p0[0].1 * 1000, 1000) == p0[0].1);
    assert(simulate_spec(g, ps) =~= p0);
}

} // verus!
