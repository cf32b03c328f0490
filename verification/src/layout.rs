//! Layout of the parsed graph: initial placement (anchor choice, masses,
//! seeded random positions for the free nodes, a separate row for the
//! disconnected ones), the force relaxation engine, and the bounding box
//! of the relaxed positions. All geometry is in fixed-point milliunits and
//! every step is pinned to a spec-level mirror, so a layout is an exact
//! mathematical function of the description, the configuration and the seed.

use vstd::prelude::*;
use crate::model::{
    count_disconnected, degrees_ok, edges_in_range, edges_unique,
    lemma_count_disconnected_bounds, names_unique, EdgeRec, GraphError, NodeData, NodeDataView,
    ParsedGraph,
};
use crate::parse::{spec_find_name, spec_ingest, ParsedView};
use crate::rng::{spec_draw, spec_next, SeededRng};

verus! {

/// Positions live in `[-POS_MAX, POS_MAX]` milliunits on each axis.
pub const POS_MAX: i64 = 1_000_000_000;

/// Net force components are saturated at this magnitude.
pub const FORCE_MAX: i64 = 1_000_000_000_000_000_000;

/// Masses are saturated at this magnitude.
pub const MASS_MAX: i64 = 1_000_000_000_000;

/// The tuning of a layout. Lengths are in milliunits.
#[derive(Clone, Copy, Debug, PartialEq, Eq, Structural)]
pub struct LayoutConfig {
    /// Drawing scale of the graph; 1000 is a scale of one unit.
    pub draw_scale: i64,
    /// Reciprocal of the global force constant; 50 stands for 0.02.
    pub force_divisor: u64,
    /// Half-extent of the square from which free nodes draw their
    /// initial position.
    pub half_extent: i64,
    /// Disconnected nodes advance by `row_spacing * draw_scale` each.
    pub row_spacing: i64,
    /// Rest length of the edge springs.
    pub rest_length: i64,
    /// Strength of the pairwise repulsion.
    pub repulsion: i64,
    /// Distances are capped below by this before repulsion divides by them.
    pub min_distance: i64,
}

impl LayoutConfig {
    /// The ranges within which every arithmetic step of the engine is exact.
    pub open spec fn valid(self) -> bool {
        &&& 10 <= self.draw_scale <= POS_MAX
        &&& 1 <= self.force_divisor <= 1_000_000_000
        &&& 0 <= self.half_extent <= POS_MAX
        &&& 0 <= self.row_spacing <= 1_000_000
        &&& 0 <= self.rest_length <= POS_MAX
        &&& 0 <= self.repulsion <= 1_000_000_000
        &&& 1 <= self.min_distance <= POS_MAX
    }

    /// The standard tuning: force constant 0.02, a ±500 unit
    /// square for initial positions, fifteen scale units of row spacing
    /// for the disconnected nodes, springs resting at 100 units, and a
    /// one-unit distance floor under the repulsion.
    pub fn standard(draw_scale: i64) -> (c: LayoutConfig)
        requires
            10 <= draw_scale <= POS_MAX,
        ensures
            c.valid(),
            c.draw_scale == draw_scale,
            c.force_divisor == 50,
            c.half_extent == 500_000,
            c.row_spacing == 15,
            c.rest_length == 100_000,
            c.repulsion == 100_000_000,
            c.min_distance == 1_000,
    {
        LayoutConfig {
            draw_scale,
            force_divisor: 50,
            half_extent: 500_000,
            row_spacing: 15,
            rest_length: 100_000,
            repulsion: 100_000_000,
            min_distance: 1_000,
        }
    }
}

/// The role a node is given once, during initialization.
#[derive(Clone, Copy, Debug, PartialEq, Eq, Structural)]
pub enum NodeRole {
    /// Fixed at the origin; never moved by relaxation.
    Anchored,
    /// Moved by every relaxation pass.
    Free,
    /// Degree zero: outside the simulation, placed on its own row.
    Disconnected,
}

/// Position, mass and role of one node during the simulation.
#[derive(Clone, Copy, Debug, PartialEq, Eq, Structural)]
pub struct SimNode {
    pub x: i64,
    pub y: i64,
    pub mass: i64,
    pub role: NodeRole,
}

/// Extents of the connected nodes' positions relative to the origin.
#[derive(Clone, Copy, Debug, PartialEq, Eq, Structural)]
pub struct Bounds {
    pub top: i64,
    pub bottom: i64,
    pub left: i64,
    pub right: i64,
}

/// Every simulated position is within `[-POS_MAX, POS_MAX]` on each axis.
pub open spec fn sim_in_bounds(sim: Seq<SimNode>) -> bool {
    forall|i: int|
        0 <= i < sim.len() ==> -POS_MAX <= (#[trigger] sim[i]).x <= POS_MAX && -POS_MAX <= sim[i].y
            <= POS_MAX
}

/// Signed division truncating toward zero, as the engine computes it.
pub open spec fn sdiv(a: int, b: int) -> int {
    if a >= 0 {
        a / b
    } else {
        -((-a) / b)
    }
}

/// `v` forced into `[lo, hi]`.
pub open spec fn clamp(v: int, lo: int, hi: int) -> int {
    if v < lo {
        lo
    } else if v > hi {
        hi
    } else {
        v
    }
}

/// Signed truncating division on `i64`, exactly `sdiv`.
fn sdiv64(a: i64, b: i64) -> (r: i64)
    requires
        1 <= b,
        -0x7fff_ffff_ffff_ffff <= a,
    ensures
        r as int == sdiv(a as int, b as int),
{
    if a >= 0 {
        (((a as u64) / (b as u64)) as i64)
    } else {
        -((((-a) as u64) / (b as u64)) as i64)
    }
}

/// Signed truncating division on `i128`, exactly `sdiv`.
fn sdiv128(a: i128, b: i128) -> (r: i128)
    requires
        1 <= b,
        -0x7fff_ffff_ffff_ffff_ffff_ffff_ffff_ffff <= a,
    ensures
        r as int == sdiv(a as int, b as int),
{
    if a >= 0 {
        (((a as u128) / (b as u128)) as i128)
    } else {
        -((((-a) as u128) / (b as u128)) as i128)
    }
}

/// Largest `r` with `r * r <= n` (0 for negative `n`).
pub open spec fn sqrt_floor(n: int) -> int
    decreases n
{
    if n <= 0 {
        0
    } else {
        let r = sqrt_floor(n - 1);
        if (r + 1) * (r + 1) <= n {
            r + 1
        } else {
            r
        }
    }
}

/// `sqrt_floor` is the integer square root: its square is at most `n` and
/// the next square is beyond `n`.
pub proof fn lemma_sqrt_floor(n: int)
    requires
        n >= 0,
    ensures
        sqrt_floor(n) >= 0,
        sqrt_floor(n) * sqrt_floor(n) <= n,
        n < (sqrt_floor(n) + 1) * (sqrt_floor(n) + 1),
    decreases n
{
    if n > 0 {
        lemma_sqrt_floor(n - 1);
        let r = sqrt_floor(n - 1);
        if (r + 1) * (r + 1) <= n {
            assert((r + 1) * (r + 1) < (r + 2) * (r + 2)) by (nonlinear_arith)
                requires
                    r >= 0,
            ;
        }
    }
}

/// Any `r` in the square-root window is `sqrt_floor`.
pub proof fn lemma_sqrt_floor_unique(n: int, r: int)
    requires
        n >= 0,
        r >= 0,
        r * r <= n,
        n < (r + 1) * (r + 1),
    ensures
        r == sqrt_floor(n),
{
    lemma_sqrt_floor(n);
    let s = sqrt_floor(n);
    if r < s {
        assert((r + 1) * (r + 1) <= s * s) by (nonlinear_arith)
            requires
                0 <= r,
                r + 1 <= s,
        ;
    } else if r > s {
        assert((s + 1) * (s + 1) <= r * r) by (nonlinear_arith)
            requires
                0 <= s,
                s + 1 <= r,
        ;
    }
}

/// Integer square root of a `u64`, exactly `sqrt_floor`.
pub fn isqrt64(n: u64) -> (r: u64)
    ensures
        r as int == sqrt_floor(n as int),
        r <= 0x1_0000_0000,
{
    let mut lo: u64 = 0;
    let mut hi: u64 = 0x1_0000_0000;
    proof {
        assert((0x1_0000_0000u64 as int) * (0x1_0000_0000u64 as int) > u64::MAX as int);
    }
    while lo + 1 < hi
        invariant
            lo < hi <= 0x1_0000_0000,
            (lo as int) * (lo as int) <= n as int,
            (n as int) < (hi as int) * (hi as int),
        decreases hi - lo,
    {
        let mid = lo + (hi - lo) / 2;
        proof {
            assert((mid as int) * (mid as int) <= 0xffff_ffff * 0xffff_ffff) by (nonlinear_arith)
                requires
                    0 <= mid <= 0xffff_ffff,
            ;
        }
        if mid * mid <= n {
            lo = mid;
        } else {
            hi = mid;
        }
    }
    proof {
        lemma_sqrt_floor_unique(n as int, lo as int);
    }
    lo
}

/// Mass of a node: six tenths of the drawing scale for each unit of degree,
/// saturated at `MASS_MAX`.
pub open spec fn spec_node_mass(degree: u32, scale: i64) -> int {
    let m = 6 * scale * degree / 10;
    if m > MASS_MAX {
        MASS_MAX as int
    } else {
        m
    }
}

/// Mass from degree and drawing scale, exactly `spec_node_mass`; at least
/// one for a connected node under a valid scale.
pub fn get_node_mass(degree: u32, scale: i64) -> (m: i64)
    requires
        10 <= scale <= POS_MAX,
    ensures
        m as int == spec_node_mass(degree, scale),
        degree >= 1 ==> 1 <= m,
        0 <= m <= MASS_MAX,
{
    proof {
        assert((6 * (scale as int)) * (degree as int) <= 26_000_000_000_000_000_000) by (nonlinear_arith)
            requires
                10 <= scale <= 1_000_000_000,
                0 <= degree <= 4_294_967_295,
        ;
    }
    let wide: u128 = 6u128 * (scale as u128) * (degree as u128);
    let m = wide / 10;
    proof {
        assert(6 * (scale as int) * (degree as int) == wide as int) by (nonlinear_arith)
            requires
                10 <= scale <= POS_MAX,
                0 <= degree <= u32::MAX,
                wide == 6u128 * (scale as u128) * (degree as u128),
        ;
        if degree >= 1 {
            assert(6 * (scale as int) * (degree as int) >= 60) by (nonlinear_arith)
                requires
                    scale >= 10,
                    degree >= 1,
            ;
        }
    }
    if m > MASS_MAX as u128 {
        MASS_MAX
    } else {
        m as i64
    }
}

/// Repulsion component along the axis whose separation is `dx` (`dy` is the
/// other axis): the strength times the separation, divided by the square of
/// the distance, the distance being capped below by `min_distance`.
pub open spec fn rep_axis(dx: int, dy: int, cfg: LayoutConfig) -> int {
    let d = sqrt_floor(dx * dx + dy * dy);
    let dc = if d < cfg.min_distance as int {
        cfg.min_distance as int
    } else {
        d
    };
    sdiv(cfg.repulsion as int * dx, dc * dc)
}

/// Spring component along the axis whose separation is `dx`: deviation of
/// the distance from the rest length, projected on that axis.
pub open spec fn spring_axis(dx: int, dy: int, cfg: LayoutConfig) -> int {
    let d = sqrt_floor(dx * dx + dy * dy);
    let dd = if d < 1 {
        1
    } else {
        d
    };
    sdiv((d - cfg.rest_length as int) * dx, dd)
}

/// Net repulsive force on node `i` along x from the connected nodes among
/// the first `j`, saturated at `FORCE_MAX` after every addition.
pub open spec fn rep_force_x(sim: Seq<SimNode>, i: int, j: int, cfg: LayoutConfig) -> int
    decreases j
{
    if j <= 0 {
        0
    } else {
        let prev = rep_force_x(sim, i, j - 1, cfg);
        if j - 1 == i || sim[j - 1].role is Disconnected {
            prev
        } else {
            clamp(
                prev + rep_axis(
                    sim[i].x - sim[j - 1].x,
                    sim[i].y - sim[j - 1].y,
                    cfg,
                ),
                -(FORCE_MAX as int),
                FORCE_MAX as int,
            )
        }
    }
}

/// Net repulsive force on node `i` along y, as `rep_force_x` with the axes
/// swapped.
pub open spec fn rep_force_y(sim: Seq<SimNode>, i: int, j: int, cfg: LayoutConfig) -> int
    decreases j
{
    if j <= 0 {
        0
    } else {
        let prev = rep_force_y(sim, i, j - 1, cfg);
        if j - 1 == i || sim[j - 1].role is Disconnected {
            prev
        } else {
            clamp(
                prev + rep_axis(
                    sim[i].y - sim[j - 1].y,
                    sim[i].x - sim[j - 1].x,
                    cfg,
                ),
                -(FORCE_MAX as int),
                FORCE_MAX as int,
            )
        }
    }
}

/// Net force on node `i` along x: the repulsion from every other connected
/// node, then the spring of each of the first `k` edges incident to `i`,
/// each addition saturated at `FORCE_MAX`.
pub open spec fn total_force_x(
    sim: Seq<SimNode>,
    edges: Seq<EdgeRec>,
    i: int,
    k: int,
    cfg: LayoutConfig,
) -> int
    decreases k
{
    if k <= 0 {
        rep_force_x(sim, i, sim.len() as int, cfg)
    } else {
        let prev = total_force_x(sim, edges, i, k - 1, cfg);
        let e = edges[k - 1];
        let sx = spring_axis(
            sim[e.b as int].x - sim[e.a as int].x,
            sim[e.b as int].y - sim[e.a as int].y,
            cfg,
        );
        let after_a = if e.a as int == i {
            clamp(prev + sx, -(FORCE_MAX as int), FORCE_MAX as int)
        } else {
            prev
        };
        if e.b as int == i {
            clamp(after_a - sx, -(FORCE_MAX as int), FORCE_MAX as int)
        } else {
            after_a
        }
    }
}

/// Net force on node `i` along y, as `total_force_x` with the axes swapped.
pub open spec fn total_force_y(
    sim: Seq<SimNode>,
    edges: Seq<EdgeRec>,
    i: int,
    k: int,
    cfg: LayoutConfig,
) -> int
    decreases k
{
    if k <= 0 {
        rep_force_y(sim, i, sim.len() as int, cfg)
    } else {
        let prev = total_force_y(sim, edges, i, k - 1, cfg);
        let e = edges[k - 1];
        let sy = spring_axis(
            sim[e.b as int].y - sim[e.a as int].y,
            sim[e.b as int].x - sim[e.a as int].x,
            cfg,
        );
        let after_a = if e.a as int == i {
            clamp(prev + sy, -(FORCE_MAX as int), FORCE_MAX as int)
        } else {
            prev
        };
        if e.b as int == i {
            clamp(after_a - sy, -(FORCE_MAX as int), FORCE_MAX as int)
        } else {
            after_a
        }
    }
}

/// Where one pass moves node `i` on the x axis: an anchored or disconnected
/// node does not move; a free node moves by the net force divided by the
/// force divisor and its mass, the position clamped to the layout square.
pub open spec fn step_x(sim: Seq<SimNode>, edges: Seq<EdgeRec>, i: int, cfg: LayoutConfig) -> int {
    if !(sim[i].role is Free) {
        sim[i].x as int
    } else {
        let f = total_force_x(sim, edges, i, edges.len() as int, cfg);
        let delta = sdiv(f * 1000, cfg.force_divisor as int * sim[i].mass as int);
        clamp(sim[i].x + delta, -(POS_MAX as int), POS_MAX as int)
    }
}

/// Where one pass moves node `i` on the y axis.
pub open spec fn step_y(sim: Seq<SimNode>, edges: Seq<EdgeRec>, i: int, cfg: LayoutConfig) -> int {
    if !(sim[i].role is Free) {
        sim[i].y as int
    } else {
        let f = total_force_y(sim, edges, i, edges.len() as int, cfg);
        let delta = sdiv(f * 1000, cfg.force_divisor as int * sim[i].mass as int);
        clamp(sim[i].y + delta, -(POS_MAX as int), POS_MAX as int)
    }
}

/// One synchronous relaxation pass: every node's new position is computed
/// from the old positions; masses and roles never change.
pub open spec fn relax_pass(sim: Seq<SimNode>, edges: Seq<EdgeRec>, cfg: LayoutConfig) -> Seq<
    SimNode,
> {
    Seq::new(
        sim.len(),
        |i: int|
            SimNode {
                x: step_x(sim, edges, i, cfg) as i64,
                y: step_y(sim, edges, i, cfg) as i64,
                mass: sim[i].mass,
                role: sim[i].role,
            },
    )
}

/// The positions after `t` relaxation passes.
pub open spec fn relax_n(sim: Seq<SimNode>, edges: Seq<EdgeRec>, cfg: LayoutConfig, t: nat) -> Seq<
    SimNode,
>
    decreases t
{
    if t == 0 {
        sim
    } else {
        relax_pass(relax_n(sim, edges, cfg, (t - 1) as nat), edges, cfg)
    }
}

/// Repulsion components between two positioned nodes, exactly `rep_axis` on
/// each axis.
fn rep_pair(xi: i64, yi: i64, xj: i64, yj: i64, cfg: &LayoutConfig) -> (f: (i64, i64))
    requires
        cfg.valid(),
        -POS_MAX <= xi <= POS_MAX,
        -POS_MAX <= yi <= POS_MAX,
        -POS_MAX <= xj <= POS_MAX,
        -POS_MAX <= yj <= POS_MAX,
    ensures
        f.0 as int == rep_axis(xi - xj, yi - yj, *cfg),
        f.1 as int == rep_axis(yi - yj, xi - xj, *cfg),
        -2_000_000_000_000_000_000 <= f.0 <= 2_000_000_000_000_000_000,
        -2_000_000_000_000_000_000 <= f.1 <= 2_000_000_000_000_000_000,
{
    let dx = xi - xj;
    let dy = yi - yj;
    proof {
        assert(dx * dx <= 4_000_000_000_000_000_000 && dx * dx >= 0) by (nonlinear_arith)
            requires
                -2_000_000_000 <= dx <= 2_000_000_000,
        ;
        assert(dy * dy <= 4_000_000_000_000_000_000 && dy * dy >= 0) by (nonlinear_arith)
            requires
                -2_000_000_000 <= dy <= 2_000_000_000,
        ;
    }
    let d2 = dx * dx + dy * dy;
    let d = isqrt64(d2 as u64);
    let dc: u64 = if d < cfg.min_distance as u64 {
        cfg.min_distance as u64
    } else {
        d
    };
    proof {
        lemma_sqrt_floor(d2 as int);
        assert((d as int) * (d as int) <= 8_000_000_000_000_000_000) by (nonlinear_arith)
            requires
                0 <= d,
                (d as int) * (d as int) <= d2 as int,
                d2 <= 8_000_000_000_000_000_000,
        ;
        assert((dc as int) * (dc as int) <= 8_000_000_000_000_000_000 && 1 <= (dc as int) * (
        dc as int)) by (nonlinear_arith)
            requires
                0 <= dc,
                dc as int <= 1_000_000_000 || (dc as int) * (dc as int)
                    <= 8_000_000_000_000_000_000,
                dc == (if (d as int) < cfg.min_distance as int {
                    cfg.min_distance as int
                } else {
                    d as int
                }),
                1 <= cfg.min_distance <= 1_000_000_000,
        ;
    }
    let dc2 = dc * dc;
    let rep = cfg.repulsion as u64;
    let ax: u64 = if dx >= 0 {
        dx as u64
    } else {
        (-dx) as u64
    };
    let ay: u64 = if dy >= 0 {
        dy as u64
    } else {
        (-dy) as u64
    };
    proof {
        assert(rep * ax <= 2_000_000_000_000_000_000) by (nonlinear_arith)
            requires
                0 <= rep <= 1_000_000_000,
                0 <= ax <= 2_000_000_000,
        ;
        assert(rep * ay <= 2_000_000_000_000_000_000) by (nonlinear_arith)
            requires
                0 <= rep <= 1_000_000_000,
                0 <= ay <= 2_000_000_000,
        ;
    }
    let qx = (rep * ax) / dc2;
    let qy = (rep * ay) / dc2;
    proof {
        vstd::arithmetic::div_mod::lemma_div_nonincreasing((rep * ax) as int, dc2 as int);
        vstd::arithmetic::div_mod::lemma_div_nonincreasing((rep * ay) as int, dc2 as int);
    }
    let fx: i64 = if dx >= 0 {
        qx as i64
    } else {
        -(qx as i64)
    };
    let fy: i64 = if dy >= 0 {
        qy as i64
    } else {
        -(qy as i64)
    };
    proof {
        assert(rep as int * (dx as int) == (if dx >= 0 {
            (rep * ax) as int
        } else {
            -((rep * ax) as int)
        })) by (nonlinear_arith)
            requires
                rep == cfg.repulsion as u64,
                ax == (if dx >= 0 {
                    dx as int
                } else {
                    -(dx as int)
                }),
                rep * ax <= 2_000_000_000_000_000_000,
        ;
        assert(rep as int * (dy as int) == (if dy >= 0 {
            (rep * ay) as int
        } else {
            -((rep * ay) as int)
        })) by (nonlinear_arith)
            requires
                rep == cfg.repulsion as u64,
                ay == (if dy >= 0 {
                    dy as int
                } else {
                    -(dy as int)
                }),
                rep * ay <= 2_000_000_000_000_000_000,
        ;
    }
    (fx, fy)
}

/// Spring components from node `a` toward node `b`, exactly `spring_axis`
/// on each axis.
fn spring_pair(xa: i64, ya: i64, xb: i64, yb: i64, cfg: &LayoutConfig) -> (f: (i64, i64))
    requires
        cfg.valid(),
        -POS_MAX <= xa <= POS_MAX,
        -POS_MAX <= ya <= POS_MAX,
        -POS_MAX <= xb <= POS_MAX,
        -POS_MAX <= yb <= POS_MAX,
    ensures
        f.0 as int == spring_axis(xb - xa, yb - ya, *cfg),
        f.1 as int == spring_axis(yb - ya, xb - xa, *cfg),
        -5_700_000_000_000_000_000 <= f.0 <= 5_700_000_000_000_000_000,
        -5_700_000_000_000_000_000 <= f.1 <= 5_700_000_000_000_000_000,
{
    let dx = xb - xa;
    let dy = yb - ya;
    proof {
        assert(dx * dx <= 4_000_000_000_000_000_000 && dx * dx >= 0) by (nonlinear_arith)
            requires
                -2_000_000_000 <= dx <= 2_000_000_000,
        ;
        assert(dy * dy <= 4_000_000_000_000_000_000 && dy * dy >= 0) by (nonlinear_arith)
            requires
                -2_000_000_000 <= dy <= 2_000_000_000,
        ;
    }
    let d2 = dx * dx + dy * dy;
    let d = isqrt64(d2 as u64);
    let dd: i64 = if d < 1 {
        1
    } else {
        d as i64
    };
    let diff: i64 = (d as i64) - cfg.rest_length;
    proof {
        lemma_sqrt_floor(d2 as int);
        assert(d as int <= 2_828_427_125) by (nonlinear_arith)
            requires
                0 <= d,
                (d as int) * (d as int) <= 8_000_000_000_000_000_000,
        ;
        assert(diff * dx <= 5_700_000_000_000_000_000 && diff * dx
            >= -5_700_000_000_000_000_000) by (nonlinear_arith)
            requires
                -1_000_000_000 <= diff <= 2_828_427_125,
                -2_000_000_000 <= dx <= 2_000_000_000,
        ;
        assert(diff * dy <= 5_700_000_000_000_000_000 && diff * dy
            >= -5_700_000_000_000_000_000) by (nonlinear_arith)
            requires
                -1_000_000_000 <= diff <= 2_828_427_125,
                -2_000_000_000 <= dy <= 2_000_000_000,
        ;
    }
    let fx = sdiv64(diff * dx, dd);
    let fy = sdiv64(diff * dy, dd);
    proof {
        let a = (diff * dx) as int;
        if a >= 0 {
            vstd::arithmetic::div_mod::lemma_div_nonincreasing(a, dd as int);
        } else {
            vstd::arithmetic::div_mod::lemma_div_nonincreasing(-a, dd as int);
        }
        let b = (diff * dy) as int;
        if b >= 0 {
            vstd::arithmetic::div_mod::lemma_div_nonincreasing(b, dd as int);
        } else {
            vstd::arithmetic::div_mod::lemma_div_nonincreasing(-b, dd as int);
        }
    }
    (fx, fy)
}

/// `v` saturated at the force bound, exactly `clamp`.
fn clamp_force(v: i64) -> (r: i64)
    ensures
        r as int == clamp(v as int, -(FORCE_MAX as int), FORCE_MAX as int),
        -FORCE_MAX <= r <= FORCE_MAX,
{
    if v < -FORCE_MAX {
        -FORCE_MAX
    } else if v > FORCE_MAX {
        FORCE_MAX
    } else {
        v
    }
}

/// Net force on node `i`, exactly the spec totals over all nodes and edges.
fn force_on(sim: &Vec<SimNode>, edges: &Vec<EdgeRec>, i: usize, cfg: &LayoutConfig) -> (f: (
    i64,
    i64,
))
    requires
        cfg.valid(),
        sim_in_bounds(sim@),
        edges_in_range(sim@.len() as int, edges@),
        i < sim@.len(),
    ensures
        f.0 as int == total_force_x(sim@, edges@, i as int, edges@.len() as int, *cfg),
        f.1 as int == total_force_y(sim@, edges@, i as int, edges@.len() as int, *cfg),
{
    let n = sim.len();
    let mut fx: i64 = 0;
    let mut fy: i64 = 0;
    let mut j: usize = 0;
    while j < n
        invariant
            j <= n,
            n == sim@.len(),
            i < n,
            cfg.valid(),
            sim_in_bounds(sim@),
            fx as int == rep_force_x(sim@, i as int, j as int, *cfg),
            fy as int == rep_force_y(sim@, i as int, j as int, *cfg),
            -FORCE_MAX <= fx <= FORCE_MAX,
            -FORCE_MAX <= fy <= FORCE_MAX,
        decreases n - j,
    {
        if j != i && !matches!(sim[j].role, NodeRole::Disconnected) {
            let (rx, ry) = rep_pair(sim[i].x, sim[i].y, sim[j].x, sim[j].y, cfg);
            fx = clamp_force(fx + rx);
            fy = clamp_force(fy + ry);
        }
        j += 1;
    }
    let m = edges.len();
    let mut k: usize = 0;
    while k < m
        invariant
            k <= m,
            m == edges@.len(),
            n == sim@.len(),
            i < n,
            cfg.valid(),
            sim_in_bounds(sim@),
            edges_in_range(sim@.len() as int, edges@),
            fx as int == total_force_x(sim@, edges@, i as int, k as int, *cfg),
            fy as int == total_force_y(sim@, edges@, i as int, k as int, *cfg),
            -FORCE_MAX <= fx <= FORCE_MAX,
            -FORCE_MAX <= fy <= FORCE_MAX,
        decreases m - k,
    {
        let e = edges[k];
        if e.a == i || e.b == i {
            let (sx, sy) = spring_pair(
                sim[e.a].x,
                sim[e.a].y,
                sim[e.b].x,
                sim[e.b].y,
                cfg,
            );
            if e.a == i {
                fx = clamp_force(fx + sx);
                fy = clamp_force(fy + sy);
            }
            if e.b == i {
                fx = clamp_force(fx - sx);
                fy = clamp_force(fy - sy);
            }
        }
        k += 1;
    }
    (fx, fy)
}

/// The byte string `root`, the name that marks a tree graph.
pub open spec fn root_name() -> Seq<u8> {
    seq![114u8, 111u8, 111u8, 116u8]
}

/// A graph is a tree when some node is named exactly `root`.
pub open spec fn spec_is_tree(nodes: Seq<NodeDataView>) -> bool {
    spec_find_name(nodes, root_name(), 0) is Some
}

/// Index of the first node at or after `from` with an incident edge.
pub open spec fn spec_first_connected(nodes: Seq<NodeDataView>, from: int) -> Option<int>
    decreases nodes.len() - from
{
    if from < 0 || from >= nodes.len() {
        None
    } else if nodes[from].degree > 0 {
        Some(from)
    } else {
        spec_first_connected(nodes, from + 1)
    }
}

/// What `spec_first_connected` finds is connected and nothing before it is.
pub proof fn lemma_first_connected(nodes: Seq<NodeDataView>, from: int)
    requires
        0 <= from,
    ensures
        match spec_first_connected(nodes, from) {
            Some(i) => from <= i < nodes.len() && nodes[i].degree > 0 && forall|j: int|
                from <= j < i ==> (#[trigger] nodes[j]).degree == 0,
            None => forall|j: int| from <= j < nodes.len() ==> (#[trigger] nodes[j]).degree == 0,
        },
    decreases nodes.len() - from
{
    if from < nodes.len() && !(nodes[from].degree > 0) {
        lemma_first_connected(nodes, from + 1);
    }
}

/// State carried across the initializer's walk over the nodes.
pub struct InitAcc {
    pub sim: Seq<SimNode>,
    pub rng: u64,
    pub disc: int,
    pub have_anchor: bool,
}

/// What initialization does with one node. A degree-zero node joins the
/// disconnected row, advancing it by `row_spacing * draw_scale`; the tree
/// root, or the first connected node of a non-tree graph, is anchored at
/// the origin; every other connected node draws a position from the seeded
/// source, two draws per node.
pub open spec fn init_step(nd: NodeDataView, is_tree: bool, cfg: LayoutConfig, st: InitAcc) -> InitAcc {
    if nd.degree == 0 {
        InitAcc {
            sim: st.sim.push(
                SimNode {
                    x: 0,
                    y: clamp(
                        st.disc * cfg.row_spacing as int * cfg.draw_scale as int,
                        -(POS_MAX as int),
                        POS_MAX as int,
                    ) as i64,
                    mass: spec_node_mass(nd.degree, cfg.draw_scale) as i64,
                    role: NodeRole::Disconnected,
                },
            ),
            rng: st.rng,
            disc: st.disc + 1,
            have_anchor: st.have_anchor,
        }
    } else if (is_tree && nd.name == root_name()) || (!is_tree && !st.have_anchor) {
        InitAcc {
            sim: st.sim.push(
                SimNode {
                    x: 0,
                    y: 0,
                    mass: spec_node_mass(nd.degree, cfg.draw_scale) as i64,
                    role: NodeRole::Anchored,
                },
            ),
            rng: st.rng,
            disc: st.disc,
            have_anchor: true,
        }
    } else {
        InitAcc {
            sim: st.sim.push(
                SimNode {
                    x: spec_draw(st.rng, cfg.half_extent as int) as i64,
                    y: spec_draw(spec_next(st.rng), cfg.half_extent as int) as i64,
                    mass: spec_node_mass(nd.degree, cfg.draw_scale) as i64,
                    role: NodeRole::Free,
                },
            ),
            rng: spec_next(spec_next(st.rng)),
            disc: st.disc,
            have_anchor: st.have_anchor,
        }
    }
}

/// The initializer's state after the nodes from `k` on.
pub open spec fn spec_init_acc(
    nodes: Seq<NodeDataView>,
    k: int,
    is_tree: bool,
    cfg: LayoutConfig,
    st: InitAcc,
) -> InitAcc
    decreases nodes.len() - k
{
    if k < 0 || k >= nodes.len() {
        st
    } else {
        spec_init_acc(nodes, k + 1, is_tree, cfg, init_step(nodes[k], is_tree, cfg, st))
    }
}

/// The whole initial placement, a function of the parsed nodes, the
/// configuration and the seed alone.
pub open spec fn spec_init(nodes: Seq<NodeDataView>, cfg: LayoutConfig, seed: u64) -> Seq<SimNode> {
    spec_init_acc(
        nodes,
        0,
        spec_is_tree(nodes),
        cfg,
        InitAcc { sim: Seq::empty(), rng: seed, disc: 0, have_anchor: false },
    ).sim
}

/// Everything initialization promises of node `i`'s simulation record.
pub open spec fn init_node_ok(
    nodes: Seq<NodeDataView>,
    is_tree: bool,
    cfg: LayoutConfig,
    i: int,
    sn: SimNode,
) -> bool {
    &&& ((sn.role is Disconnected) <==> nodes[i].degree == 0)
    &&& sn.mass as int == spec_node_mass(nodes[i].degree, cfg.draw_scale)
    &&& -POS_MAX <= sn.x <= POS_MAX
    &&& -POS_MAX <= sn.y <= POS_MAX
    &&& (sn.role is Anchored ==> sn.x == 0 && sn.y == 0)
    &&& (is_tree ==> ((sn.role is Anchored) <==> (nodes[i].degree > 0 && nodes[i].name
        == root_name())))
    &&& (!is_tree ==> ((sn.role is Anchored) <==> Some(i) == spec_first_connected(nodes, 0)))
}

#[verifier::rlimit(100)]
proof fn lemma_init_acc_props(
    nodes: Seq<NodeDataView>,
    k: int,
    is_tree: bool,
    cfg: LayoutConfig,
    st: InitAcc,
)
    requires
        cfg.valid(),
        0 <= k <= nodes.len(),
        st.sim.len() == k,
        st.disc >= 0,
        !is_tree ==> (st.have_anchor <==> (spec_first_connected(nodes, 0) is Some
            && spec_first_connected(nodes, 0).unwrap() < k)),
        forall|i: int| 0 <= i < k ==> init_node_ok(nodes, is_tree, cfg, i, #[trigger] st.sim[i]),
    ensures
        spec_init_acc(nodes, k, is_tree, cfg, st).sim.len() == nodes.len(),
        forall|i: int|
            0 <= i < nodes.len() ==> init_node_ok(
                nodes,
                is_tree,
                cfg,
                i,
                #[trigger] spec_init_acc(nodes, k, is_tree, cfg, st).sim[i],
            ),
    decreases nodes.len() - k
{
    if k < nodes.len() {
        let nd = nodes[k];
        let st2 = init_step(nd, is_tree, cfg, st);
        lemma_first_connected(nodes, 0);
            if nd.degree == 0 {
            } else if (is_tree && nd.name == root_name()) || (!is_tree && !st.have_anchor) {
                if !is_tree {
                    // k is connected and nothing before it is, so k is the
                    // first connected index
                    match spec_first_connected(nodes, 0) {
                        Some(i0) => {
                            if i0 < k {
                                assert(st.have_anchor);
                                assert(false);
                            }
                            if i0 > k {
                                assert(nodes[k].degree == 0);
                                assert(false);
                            }
                        },
                        None => {
                            assert(nodes[k].degree == 0);
                            assert(false);
                        },
                    }
                }
            } else {
                // a free node draws from [-half_extent, half_extent]
                vstd::arithmetic::div_mod::lemma_mod_bound(
                    spec_next(st.rng) as int,
                    2 * cfg.half_extent as int + 1,
                );
                vstd::arithmetic::div_mod::lemma_mod_bound(
                    spec_next(spec_next(st.rng)) as int,
                    2 * cfg.half_extent as int + 1,
                );
                if !is_tree && !st.have_anchor {
                    assert(false);
                }
                if !is_tree {
                    // the anchor came earlier, so k is not the first
                    // connected index
                    assert(spec_first_connected(nodes, 0).unwrap() < k);
                }
            }
        assert(init_node_ok(nodes, is_tree, cfg, k, st2.sim[k as int]));
        lemma_init_acc_props(nodes, k + 1, is_tree, cfg, st2);
    }
}

/// What the initial placement makes of every node: the degree-zero nodes
/// and only they are disconnected; every mass is `spec_node_mass` of the
/// node's degree; every position lies in the layout square; an anchored
/// node sits at the origin; in a tree graph the connected node named
/// `root` and only it is anchored, and in any other graph the first
/// connected node and only it is anchored.
#[verifier::rlimit(100)]
pub proof fn lemma_init_props(nodes: Seq<NodeDataView>, cfg: LayoutConfig, seed: u64)
    requires
        cfg.valid(),
    ensures
        spec_init(nodes, cfg, seed).len() == nodes.len(),
        forall|i: int|
            0 <= i < nodes.len() ==> init_node_ok(
                nodes,
                spec_is_tree(nodes),
                cfg,
                i,
                #[trigger] spec_init(nodes, cfg, seed)[i],
            ),
{
    let st0 = InitAcc { sim: Seq::empty(), rng: seed, disc: 0, have_anchor: false };
    let t = spec_is_tree(nodes);
    lemma_first_connected(nodes, 0);
    lemma_init_acc_props(nodes, 0, t, cfg, st0);
    let res = spec_init_acc(nodes, 0, t, cfg, st0);
    assert(spec_init(nodes, cfg, seed) == res.sim);
    assert forall|i: int| 0 <= i < nodes.len() implies init_node_ok(
        nodes,
        t,
        cfg,
        i,
        #[trigger] spec_init(nodes, cfg, seed)[i],
    ) by {
        assert(init_node_ok(nodes, t, cfg, i, res.sim[i]));
    }
}

/// Masses are within range and every free node can divide by its mass.
pub open spec fn masses_ok(sim: Seq<SimNode>) -> bool {
    forall|i: int|
        0 <= i < sim.len() ==> 0 <= (#[trigger] sim[i]).mass <= MASS_MAX && ((sim[i].role is Free)
            ==> 1 <= sim[i].mass)
}

/// One pass keeps the node count, every role and mass, and the position of
/// every node that is not free; positions stay in the layout square and
/// masses stay usable.
pub proof fn lemma_pass_preserves(sim: Seq<SimNode>, edges: Seq<EdgeRec>, cfg: LayoutConfig)
    ensures
        relax_pass(sim, edges, cfg).len() == sim.len(),
        forall|i: int|
            0 <= i < sim.len() ==> {
                let p = #[trigger] relax_pass(sim, edges, cfg)[i];
                p.mass == sim[i].mass && p.role == sim[i].role && (!(sim[i].role is Free) ==> p.x
                    == sim[i].x && p.y == sim[i].y)
            },
        sim_in_bounds(sim) ==> sim_in_bounds(relax_pass(sim, edges, cfg)),
        masses_ok(sim) ==> masses_ok(relax_pass(sim, edges, cfg)),
{
}

/// Any number of passes keeps the node count, every role and mass, and the
/// position of every node that is not free. In particular an anchored
/// node's position is unchanged by any number of relaxation passes.
pub proof fn lemma_relax_fixes_non_free(
    sim: Seq<SimNode>,
    edges: Seq<EdgeRec>,
    cfg: LayoutConfig,
    t: nat,
)
    ensures
        relax_n(sim, edges, cfg, t).len() == sim.len(),
        forall|i: int|
            0 <= i < sim.len() ==> {
                let p = #[trigger] relax_n(sim, edges, cfg, t)[i];
                p.mass == sim[i].mass && p.role == sim[i].role && (!(sim[i].role is Free) ==> p.x
                    == sim[i].x && p.y == sim[i].y)
            },
        sim_in_bounds(sim) ==> sim_in_bounds(relax_n(sim, edges, cfg, t)),
        masses_ok(sim) ==> masses_ok(relax_n(sim, edges, cfg, t)),
    decreases t
{
    if t > 0 {
        lemma_relax_fixes_non_free(sim, edges, cfg, (t - 1) as nat);
        lemma_pass_preserves(relax_n(sim, edges, cfg, (t - 1) as nat), edges, cfg);
    }
}

/// Node `i` after one pass, exactly the pass's record for it.
fn step_node(sim: &Vec<SimNode>, edges: &Vec<EdgeRec>, i: usize, cfg: &LayoutConfig) -> (p:
    SimNode)
    requires
        cfg.valid(),
        sim_in_bounds(sim@),
        masses_ok(sim@),
        edges_in_range(sim@.len() as int, edges@),
        i < sim@.len(),
    ensures
        p == relax_pass(sim@, edges@, *cfg)[i as int],
{
    let nd = sim[i];
    if !matches!(nd.role, NodeRole::Free) {
        return nd;
    }
    let (fx, fy) = force_on(sim, edges, i, cfg);
    proof {
        assert(1 <= (cfg.force_divisor as int) * (nd.mass as int)
            <= 1_000_000_000_000_000_000_000) by (nonlinear_arith)
            requires
                1 <= cfg.force_divisor <= 1_000_000_000,
                1 <= nd.mass <= 1_000_000_000_000,
        ;
    }
    let den: i128 = (cfg.force_divisor as i128) * (nd.mass as i128);
    let dx = sdiv128((fx as i128) * 1000, den);
    let dy = sdiv128((fy as i128) * 1000, den);
    let nx128 = (nd.x as i128) + dx;
    let ny128 = (nd.y as i128) + dy;
    let nx: i64 = if nx128 < -(POS_MAX as i128) {
        -POS_MAX
    } else if nx128 > POS_MAX as i128 {
        POS_MAX
    } else {
        nx128 as i64
    };
    let ny: i64 = if ny128 < -(POS_MAX as i128) {
        -POS_MAX
    } else if ny128 > POS_MAX as i128 {
        POS_MAX
    } else {
        ny128 as i64
    };
    SimNode { x: nx, y: ny, mass: nd.mass, role: nd.role }
}

/// One relaxation pass over all nodes, exactly `relax_pass`.
fn relax_pass_exec(sim: &Vec<SimNode>, edges: &Vec<EdgeRec>, cfg: &LayoutConfig) -> (out: Vec<
    SimNode,
>)
    requires
        cfg.valid(),
        sim_in_bounds(sim@),
        masses_ok(sim@),
        edges_in_range(sim@.len() as int, edges@),
    ensures
        out@ == relax_pass(sim@, edges@, *cfg),
{
    let n = sim.len();
    let mut out: Vec<SimNode> = Vec::new();
    let mut i: usize = 0;
    while i < n
        invariant
            i <= n,
            n == sim@.len(),
            cfg.valid(),
            sim_in_bounds(sim@),
            masses_ok(sim@),
            edges_in_range(sim@.len() as int, edges@),
            out@.len() == i,
            forall|k: int| 0 <= k < i ==> out@[k] == relax_pass(sim@, edges@, *cfg)[k],
        decreases n - i,
    {
        let p = step_node(sim, edges, i, cfg);
        out.push(p);
        i += 1;
    }
    proof {
        assert(out@ =~= relax_pass(sim@, edges@, *cfg));
    }
    out
}

/// The force-directed graph ready for relaxation and rendering: metadata,
/// simulation records and edges in parse order, the node counts, the
/// extents of the relaxed connected positions, and the tuning it was laid
/// out with.
pub struct DrawableGraph {
    pub nodes: Vec<NodeData>,
    pub sim: Vec<SimNode>,
    pub edges: Vec<EdgeRec>,
    pub total_nodes: usize,
    pub total_disconnected_nodes: usize,
    pub graph_dimensions: Bounds,
    pub config: LayoutConfig,
}

impl DrawableGraph {
    /// Everything construction promises and relaxation preserves.
    pub open spec fn wf(self) -> bool {
        &&& self.config.valid()
        &&& self.sim@.len() == self.nodes@.len()
        &&& self.total_nodes == self.nodes@.len()
        &&& self.total_disconnected_nodes as int == count_disconnected(self.nodes.deep_view())
        &&& names_unique(self.nodes.deep_view())
        &&& edges_in_range(self.nodes@.len() as int, self.edges@)
        &&& edges_unique(self.edges@)
        &&& degrees_ok(self.nodes.deep_view(), self.edges@)
        &&& sim_in_bounds(self.sim@)
        &&& masses_ok(self.sim@)
        &&& forall|i: int|
            0 <= i < self.sim@.len() ==> (((#[trigger] self.sim@[i]).role is Disconnected)
                <==> self.nodes.deep_view()[i].degree == 0)
        &&& -POS_MAX <= self.graph_dimensions.top <= POS_MAX
        &&& -POS_MAX <= self.graph_dimensions.bottom <= POS_MAX
        &&& -POS_MAX <= self.graph_dimensions.left <= POS_MAX
        &&& -POS_MAX <= self.graph_dimensions.right <= POS_MAX
    }

    /// Number of nodes inside the simulation. Together with the count
    /// ensured at construction this is exactly the number of nodes whose
    /// degree is positive, and the node total is always the disconnected
    /// count plus this.
    pub open spec fn connected_count(self) -> int {
        self.total_nodes - self.total_disconnected_nodes
    }
}

/// Extents of the connected positions among the first `k` nodes, starting
/// from the origin: each extent only ever moves outward, so the box always
/// contains the origin.
pub open spec fn spec_bounds(sim: Seq<SimNode>, k: int) -> Bounds
    decreases k
{
    if k <= 0 {
        Bounds { top: 0, bottom: 0, left: 0, right: 0 }
    } else {
        let b = spec_bounds(sim, k - 1);
        let nd = sim[k - 1];
        if nd.role is Disconnected {
            b
        } else {
            Bounds {
                top: if nd.y > b.top {
                    nd.y
                } else {
                    b.top
                },
                bottom: if nd.y < b.bottom {
                    nd.y
                } else {
                    b.bottom
                },
                left: if nd.x < b.left {
                    nd.x
                } else {
                    b.left
                },
                right: if nd.x > b.right {
                    nd.x
                } else {
                    b.right
                },
            }
        }
    }
}

/// The box of `spec_bounds` always includes the origin, and stays within
/// the layout square when the positions do.
pub proof fn lemma_bounds_origin(sim: Seq<SimNode>, k: int)
    requires
        k <= sim.len(),
    ensures
        spec_bounds(sim, k).top >= 0,
        spec_bounds(sim, k).bottom <= 0,
        spec_bounds(sim, k).right >= 0,
        spec_bounds(sim, k).left <= 0,
        sim_in_bounds(sim) ==> {
            let b = spec_bounds(sim, k);
            -POS_MAX <= b.top <= POS_MAX && -POS_MAX <= b.bottom <= POS_MAX && -POS_MAX <= b.left
                <= POS_MAX && -POS_MAX <= b.right <= POS_MAX
        },
    decreases k
{
    if k > 0 {
        lemma_bounds_origin(sim, k - 1);
    }
}

/// Scan of the connected nodes' final positions: the extents of the box
/// around them and the origin, exactly `spec_bounds`; each extent is only
/// moved outward from zero, so `top >= 0 >= bottom` and
/// `right >= 0 >= left` hold of every result.
pub fn compute_bounds(sim: &Vec<SimNode>) -> (b: Bounds)
    requires
        sim_in_bounds(sim@),
    ensures
        b == spec_bounds(sim@, sim@.len() as int),
        b.top >= 0 && b.bottom <= 0 && b.right >= 0 && b.left <= 0,
        -POS_MAX <= b.top <= POS_MAX && -POS_MAX <= b.bottom <= POS_MAX && -POS_MAX <= b.left
            <= POS_MAX && -POS_MAX <= b.right <= POS_MAX,
{
    let n = sim.len();
    let mut top: i64 = 0;
    let mut bottom: i64 = 0;
    let mut left: i64 = 0;
    let mut right: i64 = 0;
    let mut k: usize = 0;
    while k < n
        invariant
            k <= n,
            n == sim@.len(),
            sim_in_bounds(sim@),
            (Bounds { top, bottom, left, right }) == spec_bounds(sim@, k as int),
            top >= 0 && bottom <= 0 && right >= 0 && left <= 0,
            -POS_MAX <= top <= POS_MAX && -POS_MAX <= bottom <= POS_MAX && -POS_MAX <= left
                <= POS_MAX && -POS_MAX <= right <= POS_MAX,
        decreases n - k,
    {
        let nd = sim[k];
        if !matches!(nd.role, NodeRole::Disconnected) {
            if nd.y > top {
                top = nd.y;
            }
            if nd.y < bottom {
                bottom = nd.y;
            }
            if nd.x < left {
                left = nd.x;
            }
            if nd.x > right {
                right = nd.x;
            }
        }
        k += 1;
    }
    Bounds { top, bottom, left, right }
}

/// For a tree graph (some node is named `root`) whose root node has an
/// incident edge, initialization anchors the root at the origin, and the
/// root is still at the origin after any number of relaxation passes.
pub proof fn lemma_tree_root_pinned(
    nodes: Seq<NodeDataView>,
    edges: Seq<EdgeRec>,
    cfg: LayoutConfig,
    seed: u64,
    t: nat,
    r: int,
)
    requires
        cfg.valid(),
        spec_is_tree(nodes),
        0 <= r < nodes.len(),
        nodes[r].name == root_name(),
        nodes[r].degree > 0,
    ensures
        spec_init(nodes, cfg, seed)[r].role is Anchored,
        spec_init(nodes, cfg, seed)[r].x == 0 && spec_init(nodes, cfg, seed)[r].y == 0,
        relax_n(spec_init(nodes, cfg, seed), edges, cfg, t)[r].x == 0,
        relax_n(spec_init(nodes, cfg, seed), edges, cfg, t)[r].y == 0,
{
    lemma_init_props(nodes, cfg, seed);
    lemma_relax_fixes_non_free(spec_init(nodes, cfg, seed), edges, cfg, t);
}

/// For a non-tree graph with at least one connected node, exactly one
/// connected node is anchored: the first connected one in parse order,
/// and it sits at the origin.
pub proof fn lemma_non_tree_anchor(nodes: Seq<NodeDataView>, cfg: LayoutConfig, seed: u64)
    requires
        cfg.valid(),
        !spec_is_tree(nodes),
        spec_first_connected(nodes, 0) is Some,
    ensures
        forall|i: int|
            0 <= i < nodes.len() ==> ((#[trigger] spec_init(nodes, cfg, seed)[i].role
                is Anchored) <==> Some(i) == spec_first_connected(nodes, 0)),
        spec_init(nodes, cfg, seed)[spec_first_connected(nodes, 0).unwrap()].x == 0,
        spec_init(nodes, cfg, seed)[spec_first_connected(nodes, 0).unwrap()].y == 0,
        spec_init(nodes, cfg, seed)[spec_first_connected(nodes, 0).unwrap()].role is Anchored,
        nodes[spec_first_connected(nodes, 0).unwrap()].degree > 0,
{
    lemma_init_props(nodes, cfg, seed);
    lemma_first_connected(nodes, 0);
    let f = spec_first_connected(nodes, 0).unwrap();
    assert(init_node_ok(nodes, spec_is_tree(nodes), cfg, f, spec_init(nodes, cfg, seed)[f]));
}

/// The mass formula stays within range and gives a connected node a mass
/// at least one under a valid scale.
pub proof fn lemma_node_mass_bounds(degree: u32, scale: i64)
    requires
        10 <= scale <= POS_MAX,
    ensures
        0 <= spec_node_mass(degree, scale) <= MASS_MAX,
        degree >= 1 ==> spec_node_mass(degree, scale) >= 1,
{
    let w = 6 * scale * degree;
    assert(w >= 0 && (degree >= 1 ==> w >= 60)) by (nonlinear_arith)
        requires
            w == 6 * scale * degree,
            10 <= scale,
            0 <= degree,
    ;
    vstd::arithmetic::div_mod::lemma_div_pos_is_pos(w as int, 10);
    if degree >= 1 {
        vstd::arithmetic::div_mod::lemma_div_is_ordered(60, w as int, 10);
    }
}

/// The initial placement of a parsed graph: exactly `spec_init` of the
/// nodes, the configuration and the seed. Metadata and edges pass through
/// unchanged; `total_disconnected_nodes` counts the degree-zero nodes; the
/// dimensions start at zero until relaxation fills them in.
pub fn initialize_layout(parsed: ParsedGraph, config: &LayoutConfig, seed: u64) -> (g:
    DrawableGraph)
    requires
        config.valid(),
        parsed.wf(),
    ensures
        g.wf(),
        g.nodes@ == parsed.nodes@,
        g.edges@ == parsed.edges@,
        g.config == *config,
        g.total_nodes == parsed.nodes@.len(),
        g.total_disconnected_nodes as int == count_disconnected(parsed.nodes.deep_view()),
        g.sim@ == spec_init(parsed.nodes.deep_view(), *config, seed),
        g.graph_dimensions == (Bounds { top: 0, bottom: 0, left: 0, right: 0 }),
{
    let ghost ndv = parsed.nodes.deep_view();
    let n = parsed.nodes.len();
    proof {
        assert(ndv.len() == n);
    }
    let root_pat: Vec<u8> = vec![114u8, 111u8, 111u8, 116u8];
    proof {
        assert(root_pat@ =~= root_name());
    }
    let is_tree = match crate::parse::find_name(&parsed.nodes, root_pat.as_slice()) {
        Some(_) => true,
        None => false,
    };
    let mut rng = SeededRng::new(seed);
    let mut sim: Vec<SimNode> = Vec::new();
    let mut disc: usize = 0;
    let mut have_anchor = false;
    let ghost st0 = InitAcc { sim: Seq::empty(), rng: seed, disc: 0, have_anchor: false };
    proof {
        assert(sim@ =~= st0.sim);
    }
    let mut k: usize = 0;
    while k < n
        invariant
            k <= n,
            n == ndv.len() == parsed.nodes@.len(),
            ndv == parsed.nodes.deep_view(),
            config.valid(),
            is_tree == spec_is_tree(ndv),
            root_pat@ == root_name(),
            sim@.len() == k,
            disc <= k,
            disc as int == count_disconnected(ndv.take(k as int)),
            spec_init_acc(
                ndv,
                k as int,
                is_tree,
                *config,
                InitAcc { sim: sim@, rng: rng.state, disc: disc as int, have_anchor },
            ) == spec_init_acc(ndv, 0, is_tree, *config, st0),
        decreases n - k,
    {
        let ghost cur = InitAcc { sim: sim@, rng: rng.state, disc: disc as int, have_anchor };
        let degree = parsed.nodes[k].degree;
        let mass = get_node_mass(degree, config.draw_scale);
        proof {
            assert(ndv[k as int].degree == degree);
            assert(ndv.take(k + 1).drop_last() =~= ndv.take(k as int));
        }
        if degree == 0 {
            proof {
                assert((disc as int) * (config.row_spacing as int) <= 20_000_000_000_000_000_000_000_000i128)
                    by (nonlinear_arith)
                    requires
                        0 <= disc <= 18_446_744_073_709_551_615u128,
                        0 <= config.row_spacing <= 1_000_000,
                ;
                assert((disc as int) * (config.row_spacing as int) * (config.draw_scale as int)
                    <= 20_000_000_000_000_000_000_000_000_000_000_000_000i128 && (disc as int) * (
                config.row_spacing as int) * (config.draw_scale as int) >= 0) by (nonlinear_arith)
                    requires
                        0 <= (disc as int) * (config.row_spacing as int)
                            <= 20_000_000_000_000_000_000_000_000i128,
                        0 <= config.draw_scale <= 1_000_000_000,
                ;
            }
            let prod: i128 = (disc as i128) * (config.row_spacing as i128) * (
            config.draw_scale as i128);
            let y: i64 = if prod > POS_MAX as i128 {
                POS_MAX
            } else {
                prod as i64
            };
            sim.push(SimNode { x: 0, y, mass, role: NodeRole::Disconnected });
            disc += 1;
            proof {
                assert(sim@ =~= cur.sim.push(sim@.last()));
                assert(sim@.last() == init_step(ndv[k as int], is_tree, *config, cur).sim.last());
                assert(InitAcc { sim: sim@, rng: rng.state, disc: disc as int, have_anchor }
                    == init_step(ndv[k as int], is_tree, *config, cur));
            }
        } else {
            let is_root = is_tree && crate::scan::bytes_eq(
                parsed.nodes[k].name.as_slice(),
                root_pat.as_slice(),
            );
            proof {
                assert(ndv[k as int].name == parsed.nodes@[k as int].name@);
            }
            if is_root || (!is_tree && !have_anchor) {
                sim.push(SimNode { x: 0, y: 0, mass, role: NodeRole::Anchored });
                have_anchor = true;
                proof {
                    assert(sim@ =~= cur.sim.push(sim@.last()));
                    assert(InitAcc { sim: sim@, rng: rng.state, disc: disc as int, have_anchor }
                        == init_step(ndv[k as int], is_tree, *config, cur));
                }
            } else {
                let x = rng.next_in_range(config.half_extent);
                let y = rng.next_in_range(config.half_extent);
                sim.push(SimNode { x, y, mass, role: NodeRole::Free });
                proof {
                    assert(sim@ =~= cur.sim.push(sim@.last()));
                    assert(InitAcc { sim: sim@, rng: rng.state, disc: disc as int, have_anchor }
                        == init_step(ndv[k as int], is_tree, *config, cur));
                }
            }
        }
        k += 1;
    }
    proof {
        assert(ndv.take(n as int) =~= ndv);
        assert(sim@ == spec_init(ndv, *config, seed));
        lemma_init_props(ndv, *config, seed);
        assert forall|i: int| 0 <= i < sim@.len() implies 0 <= (#[trigger] sim@[i]).mass
            <= MASS_MAX && ((sim@[i].role is Free) ==> 1 <= sim@[i].mass) by {
            assert(init_node_ok(ndv, spec_is_tree(ndv), *config, i, sim@[i]));
            lemma_node_mass_bounds(ndv[i].degree, config.draw_scale);
        }
        assert forall|i: int| 0 <= i < sim@.len() implies -POS_MAX <= (#[trigger] sim@[i]).x
            <= POS_MAX && -POS_MAX <= sim@[i].y <= POS_MAX by {
            assert(init_node_ok(ndv, spec_is_tree(ndv), *config, i, sim@[i]));
        }
        assert forall|i: int| 0 <= i < sim@.len() implies (((#[trigger] sim@[i]).role
            is Disconnected) <==> ndv[i].degree == 0) by {
            assert(init_node_ok(ndv, spec_is_tree(ndv), *config, i, sim@[i]));
        }
    }
    DrawableGraph {
        nodes: parsed.nodes,
        sim,
        edges: parsed.edges,
        total_nodes: n,
        total_disconnected_nodes: disc,
        graph_dimensions: Bounds { top: 0, bottom: 0, left: 0, right: 0 },
        config: *config,
    }
}

/// Relax the graph with its quadratic iteration budget — five passes for
/// each squared connected-node count, so denser graphs settle longer —
/// then record the extents of the connected positions. Anchored and
/// disconnected nodes end exactly where they started; metadata, edges,
/// counts and configuration pass through unchanged; the resulting box
/// always contains the origin.
pub fn update_graph(g: DrawableGraph) -> (r: DrawableGraph)
    requires
        g.wf(),
        g.connected_count() * g.connected_count() * 5 <= usize::MAX,
    ensures
        r.wf(),
        r.nodes@ == g.nodes@,
        r.edges@ == g.edges@,
        r.config == g.config,
        r.total_nodes == g.total_nodes,
        r.total_disconnected_nodes == g.total_disconnected_nodes,
        r.sim@ == relax_n(
            g.sim@,
            g.edges@,
            g.config,
            (g.connected_count() * g.connected_count() * 5) as nat,
        ),
        forall|i: int|
            0 <= i < g.sim@.len() && !((#[trigger] g.sim@[i]).role is Free) ==> r.sim@[i].x
                == g.sim@[i].x && r.sim@[i].y == g.sim@[i].y,
        r.graph_dimensions == spec_bounds(r.sim@, r.sim@.len() as int),
        r.graph_dimensions.top >= 0 && r.graph_dimensions.bottom <= 0,
        r.graph_dimensions.right >= 0 && r.graph_dimensions.left <= 0,
{
    let DrawableGraph {
        nodes,
        sim: sim0,
        edges,
        total_nodes,
        total_disconnected_nodes,
        graph_dimensions: _,
        config,
    } = g;
    proof {
        lemma_count_disconnected_bounds(nodes.deep_view());
    }
    let cc = total_nodes - total_disconnected_nodes;
    proof {
        assert((cc as int) * (cc as int) <= (cc as int) * (cc as int) * 5) by (nonlinear_arith)
            requires
                0 <= cc,
        ;
    }
    let iters = cc * cc * 5;
    let ghost start = sim0@;
    let mut sim = sim0;
    let mut t: usize = 0;
    while t < iters
        invariant
            t <= iters,
            config.valid(),
            edges_in_range(start.len() as int, edges@),
            sim_in_bounds(start),
            masses_ok(start),
            sim@ == relax_n(start, edges@, config, t as nat),
        decreases iters - t,
    {
        proof {
            lemma_relax_fixes_non_free(start, edges@, config, t as nat);
        }
        let s2 = relax_pass_exec(&sim, &edges, &config);
        sim = s2;
        t += 1;
    }
    proof {
        lemma_relax_fixes_non_free(start, edges@, config, iters as nat);
    }
    let dims = compute_bounds(&sim);
    DrawableGraph {
        nodes,
        sim,
        edges,
        total_nodes,
        total_disconnected_nodes,
        graph_dimensions: dims,
        config,
    }
}

/// Final drawing position of node `i`: a connected node sits at its
/// simulated position; a disconnected one is shifted beyond the
/// bottom-right corner of the connected box by one row spacing, as the
/// renderer places that row.
pub fn placed_position(g: &DrawableGraph, i: usize) -> (p: (i64, i64))
    requires
        g.wf(),
        i < g.sim@.len(),
    ensures
        ({
            let nd = g.sim@[i as int];
            if nd.role is Disconnected {
                p.0 as int == nd.x + g.graph_dimensions.right + g.config.row_spacing as int
                    * g.config.draw_scale as int && p.1 as int == nd.y
                    + g.graph_dimensions.bottom
            } else {
                p.0 == nd.x && p.1 == nd.y
            }
        }),
{
    let nd = g.sim[i];
    if matches!(nd.role, NodeRole::Disconnected) {
        proof {
            assert(0 <= (g.config.row_spacing as int) * (g.config.draw_scale as int)
                <= 1_000_000_000_000_000i64) by (nonlinear_arith)
                requires
                    0 <= g.config.row_spacing <= 1_000_000,
                    0 <= g.config.draw_scale <= 1_000_000_000,
            ;
        }
        let off = g.config.row_spacing * g.config.draw_scale;
        (nd.x + g.graph_dimensions.right + off, nd.y + g.graph_dimensions.bottom)
    } else {
        (nd.x, nd.y)
    }
}

/// Read a whole graph description and build the initialized drawable
/// graph: parse every line (the first bad line aborts the load with its
/// error), then place every node as `spec_init` has it under this
/// configuration and seed. Success is owed exactly when the parse
/// succeeds.
pub fn read_dot(lines: &Vec<Vec<u8>>, config: &LayoutConfig, seed: u64) -> (r: Result<
    DrawableGraph,
    GraphError,
>)
    requires
        config.valid(),
        lines@.len() <= 0x7fff_ffff,
    ensures
        match r {
            Ok(g) => {
                &&& spec_ingest(lines.deep_view()) == Ok::<ParsedView, crate::model::ErrView>(
                    ParsedView { nodes: g.nodes.deep_view(), edges: g.edges@ },
                )
                &&& g.wf()
                &&& g.config == *config
                &&& g.sim@ == spec_init(g.nodes.deep_view(), *config, seed)
                &&& g.total_nodes == g.nodes@.len()
                &&& g.total_disconnected_nodes as int == count_disconnected(g.nodes.deep_view())
                &&& g.graph_dimensions == (Bounds { top: 0, bottom: 0, left: 0, right: 0 })
            },
            Err(e) => spec_ingest(lines.deep_view()) == Err::<ParsedView, crate::model::ErrView>(
                e.deep_view(),
            ),
        },
{
    match crate::parse::parse_lines(lines) {
        Err(e) => Err(e),
        Ok(parsed) => Ok(initialize_layout(parsed, config, seed)),
    }
}

} // verus!
