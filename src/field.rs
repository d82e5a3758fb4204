//! The scalar field of a set of metaballs.
use vstd::prelude::*;

verus! {

/// Fixed-point units per 1.0 of field value.
pub const SCALE: u64 = 65536;

/// The iso-threshold, 1.0 in fixed-point units: a point is inside the
/// surface when its field value is greater than this.
pub const THRESHOLD: u64 = 65536;

/// The value standing for an unbounded field (a sample on a source's centre).
pub const UNBOUNDED: u64 = 0xffff_ffff_ffff_ffff;

/// One influence source. Its effective centre is `(x + x_offset, y + y_offset)`.
#[derive(Clone, Copy, Debug, PartialEq, Eq)]
pub struct Metaball {
    pub x: i32,
    pub y: i32,
    /// Radius (strength): the field of a lone source is 1.0 at this distance.
    pub r: u32,
    pub x_change: i32,
    pub y_change: i32,
    pub x_offset: i32,
    pub y_offset: i32,
}

impl Metaball {
    /// A source at `(x, y)` with radius `r`, per-step velocity
    /// `(x_change, y_change)` and no offset.
    pub fn new(x: i32, y: i32, r: u32, x_change: i32, y_change: i32) -> (m: Self)
        ensures
            m.x == x && m.y == y && m.r == r,
            m.x_change == x_change && m.y_change == y_change,
            m.x_offset == 0 && m.y_offset == 0,
    {
        Metaball { x, y, r, x_change, y_change, x_offset: 0, y_offset: 0 }
    }

    pub open spec fn center_x(self) -> int {
        self.x + self.x_offset
    }

    pub open spec fn center_y(self) -> int {
        self.y + self.y_offset
    }
}

/// `t` is the integer square root of `n`.
pub open spec fn is_root(n: nat, t: nat) -> bool {
    t * t <= n < (t + 1) * (t + 1)
}

/// The integer square root: the largest `t` with `t * t <= n`.
pub open spec fn root(n: nat) -> nat
    decreases n,
{
    if n == 0 {
        0
    } else {
        let t = root((n - 1) as nat);
        if (t + 1) * (t + 1) <= n {
            t + 1
        } else {
            t
        }
    }
}

proof fn lemma_root(n: nat)
    ensures
        is_root(n, root(n)),
    decreases n,
{
    if n == 0 {
        assert(is_root(0, 0)) by (nonlinear_arith);
    } else {
        lemma_root((n - 1) as nat);
        let t = root((n - 1) as nat);
        if (t + 1) * (t + 1) <= n {
            let u = (t + 1) as nat;
            assert(is_root(n, u)) by (nonlinear_arith)
                requires
                    u * u <= n,
                    n - 1 < u * u,
            ;
        } else {
            assert(is_root(n, t));
        }
    }
}

proof fn lemma_root_unique(n: nat, t: nat)
    requires
        is_root(n, t),
    ensures
        t == root(n),
{
    lemma_root(n);
    let u = root(n);
    if t < u {
        assert((t + 1) * (t + 1) <= u * u) by (nonlinear_arith)
            requires
                t + 1 <= u,
        ;
    } else if u < t {
        assert((u + 1) * (u + 1) <= t * t) by (nonlinear_arith)
            requires
                u + 1 <= t,
        ;
    }
}

/// The integer square root of `n`, by bisection.
fn isqrt(n: u128) -> (t: u64)
    requires
        n <= 0x1_0000_0000_0000_0000_0000_0000,
    ensures
        t == root(n as nat),
        t <= 0x1_0000_0000_0000,
{
    let mut lo: u128 = 0;
    let mut hi: u128 = 0x1_0000_0000_0001;
    assert(n < hi * hi) by (nonlinear_arith)
        requires
            n <= 0x1_0000_0000_0000_0000_0000_0000,
            hi == 0x1_0000_0000_0001,
    ;
    while hi - lo > 1
        invariant
            lo < hi <= 0x1_0000_0000_0001,
            lo * lo <= n < hi * hi,
        decreases hi - lo,
    {
        let mid: u128 = lo + (hi - lo) / 2;
        assert(mid * mid <= 0x1_0000_0000_0001 * 0x1_0000_0000_0001) by (nonlinear_arith)
            requires
                mid <= 0x1_0000_0000_0001,
        ;
        if mid * mid <= n {
            lo = mid;
        } else {
            hi = mid;
        }
    }
    proof {
        assert(is_root(n as nat, lo as nat));
        lemma_root_unique(n as nat, lo as nat);
        if lo > 0x1_0000_0000_0000 {
            assert(lo * lo > n) by (nonlinear_arith)
                requires
                    lo > 0x1_0000_0000_0000,
                    n <= 0x1_0000_0000_0000_0000_0000_0000,
            ;
        }
    }
    lo as u64
}

/// The least `t` with `n <= t * t`.
pub open spec fn ceil_root(n: nat) -> nat {
    let t = root(n);
    if t * t == n {
        t
    } else {
        t + 1
    }
}

/// `x / d` rounded up.
pub open spec fn ceil_div(x: nat, d: nat) -> nat {
    ((x + d - 1) as nat) / d
}

proof fn lemma_ceil_root(n: nat)
    ensures
        n <= ceil_root(n) * ceil_root(n),
        ceil_root(n) > 0 ==> (ceil_root(n) - 1) * (ceil_root(n) - 1) < n,
{
    lemma_root(n);
    let t = root(n);
    if t * t != n {
        assert(n <= (t + 1) * (t + 1) && t * t < n);
    } else if t > 0 {
        assert((t - 1) * (t - 1) < t * t) by (nonlinear_arith)
            requires
                t > 0,
        ;
    }
}

/// For `d > 0`: `x / d >= k` exactly when `x >= k * d`.
pub(crate) proof fn lemma_div_at_least(x: int, d: int, k: int)
    requires
        d > 0,
    ensures
        (x / d >= k) == (x >= k * d),
{
    vstd::arithmetic::div_mod::lemma_fundamental_div_mod(x, d);
    let q = x / d;
    let r = x % d;
    assert((q >= k) == (x >= k * d)) by (nonlinear_arith)
        requires
            x == d * q + r,
            0 <= r < d,
            d > 0,
    ;
}

/// The contribution of one source at a point: `r / distance` in fixed point,
/// rounded up (so that a lone source is above the threshold exactly at the
/// points nearer than its radius); unbounded on the centre itself (nothing
/// for a zero radius).
pub open spec fn term(m: Metaball, px: int, py: int) -> nat {
    let dx = px - m.center_x();
    let dy = py - m.center_y();
    let d2 = dx * dx + dy * dy;
    if d2 == 0 {
        if m.r == 0 {
            0
        } else {
            UNBOUNDED as nat
        }
    } else {
        ceil_root(ceil_div((SCALE * SCALE * m.r * m.r) as nat, d2 as nat))
    }
}

/// The exact sum of the contributions of `ms` at a point.
pub open spec fn field_sum(ms: Seq<Metaball>, px: int, py: int) -> nat
    decreases ms.len(),
{
    if ms.len() == 0 {
        0
    } else {
        field_sum(ms.drop_last(), px, py) + term(ms.last(), px, py)
    }
}

/// The field value at a point, saturated at `UNBOUNDED`.
pub open spec fn field(ms: Seq<Metaball>, px: int, py: int) -> nat {
    if field_sum(ms, px, py) < UNBOUNDED {
        field_sum(ms, px, py)
    } else {
        UNBOUNDED as nat
    }
}

/// Whether a point lies inside the iso-surface.
pub open spec fn is_inside(ms: Seq<Metaball>, px: int, py: int) -> bool {
    field(ms, px, py) > THRESHOLD
}

proof fn lemma_square_bound(d: int, a: int)
    requires
        a == d || a == -d,
        0 <= a <= 0x8000_0001_0000_0000,
    ensures
        a * a == d * d,
        a * a <= 0x4000_0001_0000_0001_0000_0000_0000_0000,
{
    assert(a * a == d * d) by (nonlinear_arith)
        requires
            a == d || a == -d,
    ;
    assert(a * a <= 0x4000_0001_0000_0001_0000_0000_0000_0000) by (nonlinear_arith)
        requires
            0 <= a <= 0x8000_0001_0000_0000,
    ;
}

fn metaball_term(m: &Metaball, px: i64, py: i64) -> (t: u64)
    ensures
        t == term(*m, px as int, py as int),
{
    let dx: i128 = px as i128 - (m.x as i128 + m.x_offset as i128);
    let dy: i128 = py as i128 - (m.y as i128 + m.y_offset as i128);
    let ax: u128 = if dx < 0 { (0 - dx) as u128 } else { dx as u128 };
    let ay: u128 = if dy < 0 { (0 - dy) as u128 } else { dy as u128 };
    proof {
        lemma_square_bound(dx as int, ax as int);
        lemma_square_bound(dy as int, ay as int);
    }
    let dx2: u128 = ax * ax;
    let dy2: u128 = ay * ay;
    let r: u128 = m.r as u128;
    assert(r * r <= 0xffff_ffff * 0xffff_ffff) by (nonlinear_arith)
        requires
            r <= 0xffff_ffff,
    ;
    let n: u128 = (SCALE as u128) * (SCALE as u128) * (r * r);
    assert(SCALE * SCALE * m.r * m.r == n) by (nonlinear_arith)
        requires
            n == (SCALE as int) * (SCALE as int) * (r * r),
            r == m.r,
    ;
    if dx2 == 0 && dy2 == 0 {
        if m.r == 0 {
            0
        } else {
            UNBOUNDED
        }
    } else if dx2 > n || dy2 > n {
        // farther than `r * SCALE`: the contribution is below one unit
        let ghost d2 = dx * dx + dy * dy;
        proof {
            assert(d2 > n && d2 >= 1);
            lemma_div_at_least(n + d2 - 1, d2, 0);
            lemma_div_at_least(n + d2 - 1, d2, 1);
            lemma_div_at_least(n + d2 - 1, d2, 2);
            assert(root(0) == 0);
            assert(ceil_root(0) == 0);
            assert(is_root(1, 1)) by (nonlinear_arith);
            lemma_root_unique(1, 1);
            assert(ceil_div(n as nat, d2 as nat) == if n == 0 { 0nat } else { 1nat });
        }
        if n == 0 {
            0
        } else {
            1
        }
    } else {
        let d2: u128 = dx2 + dy2;
        let q: u128 = (n + d2 - 1) / d2;
        proof {
            lemma_div_at_least(n + d2 - 1, d2 as int, n + 1);
        }
        assert(q <= n) by (nonlinear_arith)
            requires
                d2 >= 1,
                (q >= n + 1) == (n + d2 - 1 >= (n + 1) * d2),
        ;
        let t = isqrt(q);
        assert(t * t <= 0x1_0000_0000_0000 * 0x1_0000_0000_0000) by (nonlinear_arith)
            requires
                t <= 0x1_0000_0000_0000,
        ;
        assert(q == ceil_div(n as nat, d2 as nat));
        if (t as u128) * (t as u128) == q {
            t
        } else {
            t + 1
        }
    }
}

/// The field value of `metaballz` at `(px, py)`: the sum over the sources of
/// `r / distance` (each rounded up to a whole fixed-point unit), saturated at
/// `UNBOUNDED`.
pub fn evaluate(px: i64, py: i64, metaballz: &Vec<Metaball>) -> (v: u64)
    ensures
        v == field(metaballz@, px as int, py as int),
{
    let ghost ms = metaballz@;
    let mut total: u64 = 0;
    let mut k: usize = 0;
    while k < metaballz.len()
        invariant
            ms == metaballz@,
            k <= ms.len(),
            total == field(ms.take(k as int), px as int, py as int),
        decreases ms.len() - k,
    {
        let t = metaball_term(&metaballz[k], px, py);
        proof {
            assert(ms.take(k + 1).drop_last() =~= ms.take(k as int));
            assert(ms.take(k + 1).last() == ms[k as int]);
        }
        if total > UNBOUNDED - t {
            total = UNBOUNDED;
        } else {
            total = total + t;
        }
        k = k + 1;
    }
    assert(ms.take(ms.len() as int) =~= ms);
    total
}

/// With no sources the field is zero everywhere.
pub proof fn lemma_field_of_no_sources(px: int, py: int)
    ensures
        field(Seq::<Metaball>::empty(), px, py) == 0,
{
}

proof fn lemma_field_of_one(m: Metaball, px: int, py: int)
    ensures
        field_sum(seq![m], px, py) == term(m, px, py),
{
    assert(seq![m].drop_last() =~= Seq::<Metaball>::empty());
    assert(field_sum(Seq::<Metaball>::empty(), px, py) == 0);
    assert(seq![m].last() == m);
}

/// A lone source of radius `r > 0` has field exactly 1.0 (the threshold) at
/// every point at distance `r` from its centre: its iso-contour is the circle
/// of its radius.
pub proof fn lemma_field_at_radius(m: Metaball, px: int, py: int)
    requires
        m.r > 0,
        (px - m.center_x()) * (px - m.center_x()) + (py - m.center_y()) * (py - m.center_y()) == m.r
            * m.r,
    ensures
        field(seq![m], px, py) == THRESHOLD,
{
    lemma_field_of_one(m, px, py);
    let r2 = m.r * m.r;
    let n = SCALE * SCALE * m.r * m.r;
    assert(r2 > 0 && n == SCALE * SCALE * r2) by (nonlinear_arith)
        requires
            m.r > 0,
            r2 == m.r * m.r,
            n == SCALE * SCALE * m.r * m.r,
    ;
    lemma_div_at_least(n + r2 - 1, r2, SCALE * SCALE);
    lemma_div_at_least(n + r2 - 1, r2, SCALE * SCALE + 1);
    let q = (n + r2 - 1) / r2;
    assert(n + r2 - 1 >= (SCALE * SCALE) * r2 && n + r2 - 1 < (SCALE * SCALE + 1) * r2)
        by (nonlinear_arith)
        requires
            n == SCALE * SCALE * r2,
            r2 > 0,
    ;
    assert(q == SCALE * SCALE);
    assert(ceil_div(n as nat, r2 as nat) == SCALE * SCALE);
    assert(is_root((SCALE * SCALE) as nat, SCALE as nat)) by (nonlinear_arith);
    lemma_root_unique((SCALE * SCALE) as nat, SCALE as nat);
}

/// A lone source classifies a point exactly by its distance: the point is
/// inside the surface if and only if it is nearer to the centre than the
/// radius.
pub proof fn lemma_lone_source_inside(m: Metaball, px: int, py: int)
    ensures
        is_inside(seq![m], px, py) == ((px - m.center_x()) * (px - m.center_x()) + (py - m.center_y()) * (
        py - m.center_y()) < m.r * m.r),
{
    lemma_field_of_one(m, px, py);
    let dx = px - m.center_x();
    let dy = py - m.center_y();
    let d2 = dx * dx + dy * dy;
    let r2 = m.r * m.r;
    assert(d2 >= 0 && r2 >= 0 && (m.r > 0 ==> r2 > 0)) by (nonlinear_arith)
        requires
            d2 == dx * dx + dy * dy,
            r2 == m.r * m.r,
    ;
    if d2 > 0 {
        let n = SCALE * SCALE * m.r * m.r;
        assert(n == SCALE * SCALE * r2) by (nonlinear_arith)
            requires
                n == SCALE * SCALE * m.r * m.r,
                r2 == m.r * m.r,
        ;
        let c = ceil_div(n as nat, d2 as nat);
        let t = ceil_root(c);
        lemma_ceil_root(c);
        lemma_div_at_least(n + d2 - 1, d2, n + 1);
        lemma_div_at_least(n + d2 - 1, d2, SCALE * SCALE + 1);
        assert(c <= n) by (nonlinear_arith)
            requires
                d2 >= 1,
                n >= 0,
                (c >= n + 1) == (n + d2 - 1 >= (n + 1) * d2),
        ;
        assert(r2 <= 0xffff_ffff * 0xffff_ffff) by (nonlinear_arith)
            requires
                r2 == m.r * m.r,
                m.r <= 0xffff_ffff,
        ;
        assert(t <= 0x1_0000_0000_0001) by (nonlinear_arith)
            requires
                c <= t * t,
                t > 0 ==> (t - 1) * (t - 1) < c,
                c <= n,
                n == 65536 * 65536 * r2,
                r2 <= 0xffff_ffff * 0xffff_ffff,
        ;
        assert((t > SCALE) == (c > SCALE * SCALE)) by (nonlinear_arith)
            requires
                c <= t * t,
                t > 0 ==> (t - 1) * (t - 1) < c,
        ;
        assert((n >= SCALE * SCALE * d2 + 1) == (r2 > d2)) by (nonlinear_arith)
            requires
                n == 65536 * 65536 * r2,
        ;
    }
}

/// The field of a lone source is symmetric about its centre along the
/// horizontal axis: the points `d` to the right and `d` to the left of the
/// centre have the same value.
pub proof fn lemma_field_symmetric(m: Metaball, d: int)
    ensures
        field(seq![m], m.center_x() + d, m.center_y()) == field(seq![m], m.center_x() - d, m.center_y()),
{
    lemma_field_of_one(m, m.center_x() + d, m.center_y());
    lemma_field_of_one(m, m.center_x() - d, m.center_y());
    assert(d * d == (-d) * (-d)) by (nonlinear_arith);
}

} // verus!
