//! Marching squares: corner classification, the case table, edge
//! interpolation and the extraction of segments over a grid.
use vstd::prelude::*;
use crate::field::{evaluate, field, is_inside, lemma_div_at_least, Metaball, THRESHOLD};

verus! {

/// One side of a grid cell. With corners `A` (top-left), `B` (top-right),
/// `C` (bottom-left) and `D` (bottom-right): `Top` joins `A` and `B`, `Left`
/// joins `A` and `C`, `Right` joins `B` and `D`, `Bottom` joins `C` and `D`.
#[derive(Clone, Copy, Debug, PartialEq, Eq, Structural)]
pub enum Edge {
    Top,
    Left,
    Right,
    Bottom,
}

/// What the contour does in one cell, by the inside/outside pattern of its
/// corners.
#[derive(Clone, Copy, Debug, PartialEq, Eq, Structural)]
pub enum CellCase {
    /// Every corner is outside: nothing is drawn.
    Empty,
    /// Every corner is inside: no segment, the cell is flagged as filled.
    Full,
    /// One segment, from the crossing on the first edge to the crossing on
    /// the second.
    Single(Edge, Edge),
    /// Two segments. Used for the two diagonal patterns, which are not
    /// disambiguated: each is drawn as the two one-corner cases it holds.
    Double(Edge, Edge, Edge, Edge),
}

/// The case table, keyed by whether corners `A`, `B`, `C`, `D` are inside.
pub open spec fn case_table(a: bool, b: bool, c: bool, d: bool) -> CellCase {
    match (a, b, c, d) {
        (false, false, false, false) => CellCase::Empty,
        (true, false, false, false) => CellCase::Single(Edge::Left, Edge::Top),
        (false, true, false, false) => CellCase::Single(Edge::Right, Edge::Top),
        (false, false, true, false) => CellCase::Single(Edge::Bottom, Edge::Left),
        (false, false, false, true) => CellCase::Single(Edge::Bottom, Edge::Right),
        (true, true, false, false) => CellCase::Single(Edge::Left, Edge::Right),
        (false, true, false, true) => CellCase::Single(Edge::Top, Edge::Bottom),
        (false, false, true, true) => CellCase::Single(Edge::Left, Edge::Right),
        (true, false, true, false) => CellCase::Single(Edge::Top, Edge::Bottom),
        (true, false, true, true) => CellCase::Single(Edge::Right, Edge::Top),
        (true, true, true, false) => CellCase::Single(Edge::Right, Edge::Bottom),
        (true, true, false, true) => CellCase::Single(Edge::Left, Edge::Bottom),
        (false, true, true, true) => CellCase::Single(Edge::Left, Edge::Top),
        (true, false, false, true) => CellCase::Double(Edge::Left, Edge::Top, Edge::Bottom, Edge::Right),
        (false, true, true, false) => CellCase::Double(Edge::Right, Edge::Top, Edge::Bottom, Edge::Left),
        (true, true, true, true) => CellCase::Full,
    }
}

/// Whether the contour crosses edge `e`: its two corners differ.
pub open spec fn crosses(e: Edge, a: bool, b: bool, c: bool, d: bool) -> bool {
    match e {
        Edge::Top => a != b,
        Edge::Left => a != c,
        Edge::Right => b != d,
        Edge::Bottom => c != d,
    }
}

/// Looks up the case of a cell in the table.
pub fn classify(a: bool, b: bool, c: bool, d: bool) -> (k: CellCase)
    ensures
        k == case_table(a, b, c, d),
{
    match (a, b, c, d) {
        (false, false, false, false) => CellCase::Empty,
        (true, false, false, false) => CellCase::Single(Edge::Left, Edge::Top),
        (false, true, false, false) => CellCase::Single(Edge::Right, Edge::Top),
        (false, false, true, false) => CellCase::Single(Edge::Bottom, Edge::Left),
        (false, false, false, true) => CellCase::Single(Edge::Bottom, Edge::Right),
        (true, true, false, false) => CellCase::Single(Edge::Left, Edge::Right),
        (false, true, false, true) => CellCase::Single(Edge::Top, Edge::Bottom),
        (false, false, true, true) => CellCase::Single(Edge::Left, Edge::Right),
        (true, false, true, false) => CellCase::Single(Edge::Top, Edge::Bottom),
        (true, false, true, true) => CellCase::Single(Edge::Right, Edge::Top),
        (true, true, true, false) => CellCase::Single(Edge::Right, Edge::Bottom),
        (true, true, false, true) => CellCase::Single(Edge::Left, Edge::Bottom),
        (false, true, true, true) => CellCase::Single(Edge::Left, Edge::Top),
        (true, false, false, true) => CellCase::Double(Edge::Left, Edge::Top, Edge::Bottom, Edge::Right),
        (false, true, true, false) => CellCase::Double(Edge::Right, Edge::Top, Edge::Bottom, Edge::Left),
        (true, true, true, true) => CellCase::Full,
    }
}

/// Every edge that the table names is crossed by the contour; the empty case
/// is exactly "all outside" and the full case exactly "all inside".
pub proof fn lemma_case_table_edges_cross(a: bool, b: bool, c: bool, d: bool)
    ensures
        (case_table(a, b, c, d) == CellCase::Empty) == (!a && !b && !c && !d),
        (case_table(a, b, c, d) == CellCase::Full) == (a && b && c && d),
        case_table(a, b, c, d) matches CellCase::Single(e1, e2) ==> crosses(e1, a, b, c, d)
            && crosses(e2, a, b, c, d) && e1 != e2,
        case_table(a, b, c, d) matches CellCase::Double(e1, e2, e3, e4) ==> crosses(e1, a, b, c, d)
            && crosses(e2, a, b, c, d) && crosses(e3, a, b, c, d) && crosses(e4, a, b, c, d),
{
}

/// The values `v1` and `v2` differ and the threshold lies between them (one
/// is at least the threshold, the other at most).
pub open spec fn straddles(v1: int, v2: int) -> bool {
    v1 != v2 && ((v1 <= THRESHOLD <= v2) || (v2 <= THRESHOLD <= v1))
}

pub open spec fn abs(x: int) -> nat {
    if x < 0 {
        (-x) as nat
    } else {
        x as nat
    }
}

/// Linear interpolation of the threshold crossing between coordinate `a`
/// (value `v1`) and coordinate `b` (value `v2`):
/// `a + (threshold - v1) / (v2 - v1) * (b - a)`, rounded down to a whole
/// unit. For straddling values the fraction is `|threshold - v1| / |v2 - v1|`.
pub open spec fn interpolation(a: int, b: int, v1: int, v2: int) -> int {
    a + (abs(THRESHOLD - v1) * (b - a)) / (abs(v2 - v1) as int)
}

/// For `d > 0`: dividing `-x` rounds down, so it is minus `x / d` rounded up.
proof fn lemma_div_negated(x: int, d: int)
    requires
        x >= 0,
        d > 0,
    ensures
        (-x) / d == -((x + d - 1) / d),
{
    vstd::arithmetic::div_mod::lemma_fundamental_div_mod(x + d - 1, d);
    let q = (x + d - 1) / d;
    let r = (x + d - 1) % d;
    assert(-x == (-q) * d + (d - 1 - r)) by (nonlinear_arith)
        requires
            x + d - 1 == d * q + r,
    ;
    vstd::arithmetic::div_mod::lemma_fundamental_div_mod_converse(-x, d, -q, d - 1 - r);
}

/// For `d > 0`: adding `k * d` to the dividend adds `k` to the quotient.
proof fn lemma_div_shift(k: int, x: int, d: int)
    requires
        d > 0,
    ensures
        (k * d + x) / d == k + x / d,
{
    vstd::arithmetic::div_mod::lemma_fundamental_div_mod(x, d);
    let q = x / d;
    let r = x % d;
    assert(k * d + x == (k + q) * d + r) by (nonlinear_arith)
        requires
            x == d * q + r,
    ;
    vstd::arithmetic::div_mod::lemma_fundamental_div_mod_converse(k * d + x, d, k + q, r);
}

/// Division by a positive number keeps the order of fractions:
/// `x1 / d1 <= x2 / d2` (as rationals) gives the same order after rounding
/// down.
proof fn lemma_div_monotonic(x1: int, d1: int, x2: int, d2: int)
    requires
        d1 > 0,
        d2 > 0,
        x1 * d2 <= x2 * d1,
    ensures
        x1 / d1 <= x2 / d2,
{
    vstd::arithmetic::div_mod::lemma_fundamental_div_mod(x1, d1);
    let q = x1 / d1;
    assert(q * d1 <= x1) by (nonlinear_arith)
        requires
            x1 == d1 * q + x1 % d1,
            0 <= x1 % d1,
    ;
    assert(q * d2 <= x2) by (nonlinear_arith)
        requires
            q * d1 <= x1,
            x1 * d2 <= x2 * d1,
            d1 > 0,
            d2 > 0,
    ;
    lemma_div_at_least(x2, d2, q);
}

/// With `0 <= n <= d`, `n * z / d` rounded down lies between `0` and `z`.
proof fn lemma_scaled_between(n: int, d: int, z: int)
    requires
        0 <= n <= d,
        d > 0,
    ensures
        z >= 0 ==> 0 <= (n * z) / d <= z,
        z <= 0 ==> z <= (n * z) / d <= 0,
{
    if z >= 0 {
        assert(0 * d <= (n * z) * 1 && (n * z) * 1 <= z * d) by (nonlinear_arith)
            requires
                0 <= n <= d,
                z >= 0,
        ;
        lemma_div_monotonic(0, 1, n * z, d);
        lemma_div_monotonic(n * z, d, z, 1);
    } else {
        assert(z * d <= (n * z) * 1 && (n * z) * 1 <= 0 * d) by (nonlinear_arith)
            requires
                0 <= n <= d,
                z < 0,
        ;
        lemma_div_monotonic(z, 1, n * z, d);
        lemma_div_monotonic(n * z, d, 0, 1);
    }
}

/// The coordinate where the contour crosses the edge from `a` to `b`, whose
/// end values are `v1` and `v2`.
pub fn interpolate(a: i64, b: i64, v1: u64, v2: u64) -> (r: i64)
    requires
        straddles(v1 as int, v2 as int),
    ensures
        r == interpolation(a as int, b as int, v1 as int, v2 as int),
        a <= b ==> a <= r <= b,
        b <= a ==> b <= r <= a,
{
    let n: u128 = if v1 > THRESHOLD { (v1 - THRESHOLD) as u128 } else { (THRESHOLD - v1) as u128 };
    let d: u128 = if v2 > v1 { (v2 - v1) as u128 } else { (v1 - v2) as u128 };
    let w: u128 = if a <= b { (b as i128 - a as i128) as u128 } else { (a as i128 - b as i128) as u128 };
    assert(n * w <= 0xffff_ffff_ffff_ffff * 0xffff_ffff_ffff_ffff) by (nonlinear_arith)
        requires
            n <= 0xffff_ffff_ffff_ffff,
            w <= 0xffff_ffff_ffff_ffff,
    ;
    proof {
        lemma_scaled_between(n as int, d as int, b - a);
    }
    if a <= b {
        let off: u128 = n * w / d;
        (a as i128 + off as i128) as i64
    } else {
        let off: u128 = (n * w + d - 1) / d;
        proof {
            lemma_div_negated(n * w, d as int);
            assert(n * (b - a) == -(n * w)) by (nonlinear_arith)
                requires
                    w == a - b,
            ;
        }
        (a as i128 - off as i128) as i64
    }
}

/// The crossing is `a` itself when `v1` is exactly the threshold, and `b`
/// itself when `v2` is.
pub proof fn lemma_interpolation_endpoints(a: int, b: int, v1: int, v2: int)
    requires
        straddles(v1, v2),
    ensures
        v1 == THRESHOLD ==> interpolation(a, b, v1, v2) == a,
        v2 == THRESHOLD ==> interpolation(a, b, v1, v2) == b,
{
    let d = abs(v2 - v1) as int;
    if v1 == THRESHOLD {
        assert(0 * (b - a) / d == 0) by (nonlinear_arith)
            requires
                d > 0,
        ;
    }
    if v2 == THRESHOLD {
        lemma_div_shift(b - a, 0, d);
        assert(d * (b - a) == (b - a) * d + 0) by (nonlinear_arith);
    }
}

/// The crossing does not depend on the direction in which the edge is
/// walked: from `a` (value `v1`) to `b` (value `v2`), or back.
pub proof fn lemma_interpolation_symmetric(a: int, b: int, v1: int, v2: int)
    requires
        straddles(v1, v2),
    ensures
        interpolation(a, b, v1, v2) == interpolation(b, a, v2, v1),
{
    let n = abs(THRESHOLD - v1) as int;
    let m = abs(THRESHOLD - v2) as int;
    let d = abs(v2 - v1) as int;
    assert(n + m == d);
    assert(abs(v1 - v2) == d);
    assert(m * (a - b) == (a - b) * d + n * (b - a)) by (nonlinear_arith)
        requires
            m == d - n,
    ;
    lemma_div_shift(a - b, n * (b - a), d);
}

/// Monotonicity: the crossing moves from `a` towards `b` as the fraction
/// `|threshold - v1| / |v2 - v1|` grows. Of two straddling pairs, the one
/// with the smaller fraction gives a crossing no farther from `a`, and both
/// lie between `a` and `b`.
pub proof fn lemma_interpolation_monotonic(a: int, b: int, v1: int, v2: int, u1: int, u2: int)
    requires
        straddles(v1, v2),
        straddles(u1, u2),
        abs(THRESHOLD - v1) * abs(u2 - u1) <= abs(THRESHOLD - u1) * abs(v2 - v1),
    ensures
        a <= b ==> a <= interpolation(a, b, v1, v2) <= interpolation(a, b, u1, u2) <= b,
        b <= a ==> b <= interpolation(a, b, u1, u2) <= interpolation(a, b, v1, v2) <= a,
{
    let nv = abs(THRESHOLD - v1) as int;
    let dv = abs(v2 - v1) as int;
    let nu = abs(THRESHOLD - u1) as int;
    let du = abs(u2 - u1) as int;
    let z = b - a;
    lemma_scaled_between(nv, dv, z);
    lemma_scaled_between(nu, du, z);
    if z >= 0 {
        assert((nv * z) * du <= (nu * z) * dv) by (nonlinear_arith)
            requires
                nv * du <= nu * dv,
                z >= 0,
        ;
        lemma_div_monotonic(nv * z, dv, nu * z, du);
    } else {
        assert((nu * z) * dv <= (nv * z) * du) by (nonlinear_arith)
            requires
                nv * du <= nu * dv,
                z < 0,
        ;
        lemma_div_monotonic(nu * z, du, nv * z, dv);
    }
}

/// A point in viewport coordinates.
#[derive(Clone, Copy, Debug, PartialEq, Eq, Structural)]
pub struct Point {
    pub x: i64,
    pub y: i64,
}

/// A line segment of the contour.
#[derive(Clone, Copy, Debug, PartialEq, Eq, Structural)]
pub struct Segment {
    pub start: Point,
    pub end: Point,
}

/// The result of one contour pass: the segments, and the cells (column, row)
/// whose four corners are all inside.
#[derive(Clone, Debug, PartialEq, Eq)]
pub struct Contours {
    pub segments: Vec<Segment>,
    pub full_cells: Vec<(u32, u32)>,
}

/// Where the contour crosses edge `e` of the cell with top-left corner
/// `(x0, y0)`, side `s` and corner values `va`, `vb`, `vc`, `vd`.
pub open spec fn crossing(e: Edge, x0: int, y0: int, s: int, va: int, vb: int, vc: int, vd: int) -> Point {
    match e {
        Edge::Top => Point { x: interpolation(x0, x0 + s, va, vb) as i64, y: y0 as i64 },
        Edge::Left => Point { x: x0 as i64, y: interpolation(y0, y0 + s, va, vc) as i64 },
        Edge::Right => Point { x: (x0 + s) as i64, y: interpolation(y0, y0 + s, vb, vd) as i64 },
        Edge::Bottom => Point { x: interpolation(x0, x0 + s, vc, vd) as i64, y: (y0 + s) as i64 },
    }
}

/// The segments of the cell with top-left corner `(x0, y0)` and side `s`.
pub open spec fn cell_segments(ms: Seq<Metaball>, x0: int, y0: int, s: int) -> Seq<Segment> {
    let va = field(ms, x0, y0) as int;
    let vb = field(ms, x0 + s, y0) as int;
    let vc = field(ms, x0, y0 + s) as int;
    let vd = field(ms, x0 + s, y0 + s) as int;
    match case_table(va > THRESHOLD, vb > THRESHOLD, vc > THRESHOLD, vd > THRESHOLD) {
        CellCase::Single(e1, e2) => seq![
            Segment {
                start: crossing(e1, x0, y0, s, va, vb, vc, vd),
                end: crossing(e2, x0, y0, s, va, vb, vc, vd),
            },
        ],
        CellCase::Double(e1, e2, e3, e4) => seq![
            Segment {
                start: crossing(e1, x0, y0, s, va, vb, vc, vd),
                end: crossing(e2, x0, y0, s, va, vb, vc, vd),
            },
            Segment {
                start: crossing(e3, x0, y0, s, va, vb, vc, vd),
                end: crossing(e4, x0, y0, s, va, vb, vc, vd),
            },
        ],
        _ => seq![],
    }
}

/// Whether all four corners of the cell are inside.
pub open spec fn cell_is_full(ms: Seq<Metaball>, x0: int, y0: int, s: int) -> bool {
    is_inside(ms, x0, y0) && is_inside(ms, x0 + s, y0) && is_inside(ms, x0, y0 + s)
        && is_inside(ms, x0 + s, y0 + s)
}

fn edge_crossing(e: Edge, x0: i64, y0: i64, s: i64, va: u64, vb: u64, vc: u64, vd: u64) -> (p: Point)
    requires
        0 <= x0,
        0 <= y0,
        0 < s,
        x0 + s <= 0xffff_ffff,
        y0 + s <= 0xffff_ffff,
        crosses(e, va > THRESHOLD, vb > THRESHOLD, vc > THRESHOLD, vd > THRESHOLD),
    ensures
        p == crossing(e, x0 as int, y0 as int, s as int, va as int, vb as int, vc as int, vd as int),
{
    match e {
        Edge::Top => Point { x: interpolate(x0, x0 + s, va, vb), y: y0 },
        Edge::Left => Point { x: x0, y: interpolate(y0, y0 + s, va, vc) },
        Edge::Right => Point { x: x0 + s, y: interpolate(y0, y0 + s, vb, vd) },
        Edge::Bottom => Point { x: interpolate(x0, x0 + s, vc, vd), y: y0 + s },
    }
}

/// Samples the four corners of one cell, appends its segments to `out`, and
/// tells whether the cell is full.
fn cell_contour(metaballz: &Vec<Metaball>, x0: i64, y0: i64, s: i64, out: &mut Vec<Segment>) -> (full: bool)
    requires
        0 <= x0,
        0 <= y0,
        0 < s,
        x0 + s <= 0xffff_ffff,
        y0 + s <= 0xffff_ffff,
    ensures
        final(out)@ == old(out)@ + cell_segments(metaballz@, x0 as int, y0 as int, s as int),
        full == cell_is_full(metaballz@, x0 as int, y0 as int, s as int),
{
    let va = evaluate(x0, y0, metaballz);
    let vb = evaluate(x0 + s, y0, metaballz);
    let vc = evaluate(x0, y0 + s, metaballz);
    let vd = evaluate(x0 + s, y0 + s, metaballz);
    let (a, b, c, d) = (va > THRESHOLD, vb > THRESHOLD, vc > THRESHOLD, vd > THRESHOLD);
    proof {
        lemma_case_table_edges_cross(a, b, c, d);
    }
    let ghost old_out = out@;
    match classify(a, b, c, d) {
        CellCase::Single(e1, e2) => {
            let p1 = edge_crossing(e1, x0, y0, s, va, vb, vc, vd);
            let p2 = edge_crossing(e2, x0, y0, s, va, vb, vc, vd);
            out.push(Segment { start: p1, end: p2 });
        },
        CellCase::Double(e1, e2, e3, e4) => {
            let p1 = edge_crossing(e1, x0, y0, s, va, vb, vc, vd);
            let p2 = edge_crossing(e2, x0, y0, s, va, vb, vc, vd);
            let p3 = edge_crossing(e3, x0, y0, s, va, vb, vc, vd);
            let p4 = edge_crossing(e4, x0, y0, s, va, vb, vc, vd);
            out.push(Segment { start: p1, end: p2 });
            out.push(Segment { start: p3, end: p4 });
        },
        _ => {},
    }
    assert(out@ =~= old_out + cell_segments(metaballz@, x0 as int, y0 as int, s as int));
    a && b && c && d
}

/// Number of whole cells across: a partial trailing cell is dropped.
pub open spec fn columns(s: nat, width: nat) -> nat {
    width / s
}

/// Number of whole cells down.
pub open spec fn rows(s: nat, height: nat) -> nat {
    height / s
}

/// The segments of the first `k` cells in row-major order (cell `k` is in
/// column `k % columns` and row `k / columns`).
pub open spec fn segments_upto(ms: Seq<Metaball>, s: nat, width: nat, k: nat) -> Seq<Segment>
    decreases k,
{
    if k == 0 {
        seq![]
    } else {
        let c = (k - 1) as nat;
        let cols = columns(s, width);
        segments_upto(ms, s, width, c) + cell_segments(ms, ((c % cols) * s) as int, ((c / cols) * s) as int, s as int)
    }
}

/// The full cells, as (column, row), among the first `k` cells in row-major
/// order.
pub open spec fn full_upto(ms: Seq<Metaball>, s: nat, width: nat, k: nat) -> Seq<(u32, u32)>
    decreases k,
{
    if k == 0 {
        seq![]
    } else {
        let c = (k - 1) as nat;
        let cols = columns(s, width);
        let i = c % cols;
        let j = c / cols;
        if cell_is_full(ms, (i * s) as int, (j * s) as int, s as int) {
            full_upto(ms, s, width, c).push((i as u32, j as u32))
        } else {
            full_upto(ms, s, width, c)
        }
    }
}

/// All segments of the grid with cell size `s` over a `width` by `height`
/// viewport.
pub open spec fn contour_segments(ms: Seq<Metaball>, s: nat, width: nat, height: nat) -> Seq<Segment> {
    segments_upto(ms, s, width, columns(s, width) * rows(s, height))
}

/// All full cells of the grid, in row-major order.
pub open spec fn contour_full_cells(ms: Seq<Metaball>, s: nat, width: nat, height: nat) -> Seq<(u32, u32)> {
    full_upto(ms, s, width, columns(s, width) * rows(s, height))
}

proof fn lemma_cell_in_grid(k: nat, s: nat, width: nat, height: nat)
    requires
        s > 0,
        k < columns(s, width) * rows(s, height),
    ensures
        columns(s, width) > 0,
        k % columns(s, width) < columns(s, width),
        k / columns(s, width) < rows(s, height),
        (k % columns(s, width)) * s + s <= width,
        (k / columns(s, width)) * s + s <= height,
{
    let cols = columns(s, width);
    let rs = rows(s, height);
    assert(cols > 0) by (nonlinear_arith)
        requires
            k < cols * rs,
    ;
    let i = k % cols;
    let j = k / cols;
    assert(i < cols && j < rs && k == j * cols + i) by (nonlinear_arith)
        requires
            cols > 0,
            k < cols * rs,
            i == k % cols,
            j == k / cols,
    ;
    assert(i * s + s <= width) by (nonlinear_arith)
        requires
            i + 1 <= cols,
            cols == width / s,
            s > 0,
    ;
    assert(j * s + s <= height) by (nonlinear_arith)
        requires
            j + 1 <= rs,
            rs == height / s,
            s > 0,
    ;
}

/// One contour pass: samples the field of `metaballz` at the corners of every
/// `grid_size`-sided cell of a `width` by `height` viewport, in row-major order,
/// and returns every segment and every full cell.
pub fn extract_contours(metaballz: &Vec<Metaball>, grid_size: u32, width: u32, height: u32) -> (c: Contours)
    requires
        grid_size >= 1,
    ensures
        c.segments@ == contour_segments(metaballz@, grid_size as nat, width as nat, height as nat),
        c.full_cells@ == contour_full_cells(metaballz@, grid_size as nat, width as nat, height as nat),
{
    let ghost ms = metaballz@;
    let ghost sn = grid_size as nat;
    let cols: u64 = (width / grid_size) as u64;
    let rs: u64 = (height / grid_size) as u64;
    assert(cols * rs <= 0xffff_ffff * 0xffff_ffff) by (nonlinear_arith)
        requires
            cols <= 0xffff_ffff,
            rs <= 0xffff_ffff,
    ;
    let total: u64 = cols * rs;
    let mut segments: Vec<Segment> = Vec::new();
    let mut full_cells: Vec<(u32, u32)> = Vec::new();
    let mut k: u64 = 0;
    while k < total
        invariant
            ms == metaballz@,
            sn == grid_size as nat,
            grid_size >= 1,
            cols == columns(sn, width as nat),
            rs == rows(sn, height as nat),
            total == cols * rs,
            k <= total,
            segments@ == segments_upto(ms, sn, width as nat, k as nat),
            full_cells@ == full_upto(ms, sn, width as nat, k as nat),
        decreases total - k,
    {
        proof {
            lemma_cell_in_grid(k as nat, sn, width as nat, height as nat);
        }
        let i: u64 = k % cols;
        let j: u64 = k / cols;
        let x0: u64 = i * (grid_size as u64);
        let y0: u64 = j * (grid_size as u64);
        let full = cell_contour(metaballz, x0 as i64, y0 as i64, grid_size as i64, &mut segments);
        if full {
            full_cells.push((i as u32, j as u32));
        }
        k = k + 1;
    }
    Contours { segments, full_cells }
}

proof fn lemma_no_sources_upto(s: nat, width: nat, k: nat)
    requires
        s > 0,
    ensures
        segments_upto(Seq::<Metaball>::empty(), s, width, k) == Seq::<Segment>::empty(),
        full_upto(Seq::<Metaball>::empty(), s, width, k) == Seq::<(u32, u32)>::empty(),
    decreases k,
{
    if k > 0 {
        let c = (k - 1) as nat;
        lemma_no_sources_upto(s, width, c);
        let cols = columns(s, width);
        let x0 = ((c % cols) * s) as int;
        let y0 = ((c / cols) * s) as int;
        let ms = Seq::<Metaball>::empty();
        assert(field(ms, x0, y0) == 0);
        assert(field(ms, x0 + s, y0) == 0);
        assert(field(ms, x0, y0 + s) == 0);
        assert(field(ms, x0 + s, y0 + s) == 0);
        assert(cell_segments(ms, x0, y0, s as int) =~= Seq::<Segment>::empty());
        assert(segments_upto(ms, s, width, k) =~= Seq::<Segment>::empty());
    }
}

/// With no sources there is no contour: no segment and no full cell, for any
/// grid.
pub proof fn lemma_no_sources_no_contour(s: nat, width: nat, height: nat)
    requires
        s >= 1,
    ensures
        contour_segments(Seq::<Metaball>::empty(), s, width, height) == Seq::<Segment>::empty(),
        contour_full_cells(Seq::<Metaball>::empty(), s, width, height) == Seq::<(u32, u32)>::empty(),
{
    lemma_no_sources_upto(s, width, columns(s, width) * rows(s, height));
}

/// A contour pass keeps no state: two passes over the same sources and grid
/// give identical segments and full cells.
pub proof fn lemma_repeated_pass_identical(
    first: Contours,
    second: Contours,
    ms: Seq<Metaball>,
    s: nat,
    width: nat,
    height: nat,
)
    requires
        first.segments@ == contour_segments(ms, s, width, height),
        first.full_cells@ == contour_full_cells(ms, s, width, height),
        second.segments@ == contour_segments(ms, s, width, height),
        second.full_cells@ == contour_full_cells(ms, s, width, height),
    ensures
        first.segments@ == second.segments@,
        first.full_cells@ == second.full_cells@,
{
}

} // verus!
