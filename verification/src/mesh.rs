use vstd::prelude::*;
use vstd::math::abs;
use crate::frac::{Frac, Rat, rat_lt};
use crate::geom::{
    GPoint, GVertex, MeshBuffer, Point2, in_square, point_in_square, quad_verts, rat_zero,
    tri_verts,
};
use crate::lod::{Lod, MAX_SUBDIVISIONS};
use crate::order::{lemma_stable_order_props, sorted_indices, stable_order};
use crate::stitch::{
    axis_den, axis_num, pt_along, proj, steps_fit, stitch, stitch_req, stitch_verts, Dir,
};

verus! {

/// The grid point `(i, j)` of a level: `offset + (i * quadSide, j * quadSide)`
/// for `offset = (-size/2, -size/2)` and `quadSide = size / n` with
/// `n = subdivisions + 1`; exactly `(2i - n) * size / (2n)` per axis.
pub open spec fn grid_pt(s: int, n: int, i: int, j: int) -> GPoint {
    GPoint {
        x: Rat { num: (2 * i - n) * s, den: 2 * n },
        y: Rat { num: (2 * j - n) * s, den: 2 * n },
    }
}

/// The vertices of cell `(i, j)`: its quad split along the checkerboard
/// diagonal for parity `(i + j) % 2`, or nothing when the level has a hole
/// and all four corners lie inside it ("all four corners" exactly — a quad
/// straddling the hole boundary is still emitted whole).
pub open spec fn cell_verts(s: int, n: int, h: int, has_hole: bool, i: int, j: int) -> Seq<
    GVertex,
> {
    let a = grid_pt(s, n, i, j);
    let b = grid_pt(s, n, i + 1, j);
    let c = grid_pt(s, n, i + 1, j + 1);
    let d = grid_pt(s, n, i, j + 1);
    if has_hole && in_square(a, h) && in_square(b, h) && in_square(c, h) && in_square(d, h) {
        Seq::empty()
    } else {
        quad_verts(a, b, c, d, (i + j) % 2 == 1)
    }
}

/// The vertices of the cells `(i, 0)` to `(i, j - 1)` of one grid column.
pub open spec fn col_verts(s: int, n: int, h: int, has_hole: bool, i: int, j: int) -> Seq<GVertex>
    decreases j,
{
    if j <= 0 {
        Seq::empty()
    } else {
        col_verts(s, n, h, has_hole, i, j - 1) + cell_verts(s, n, h, has_hole, i, j - 1)
    }
}

/// The vertices of the first `i` whole grid columns.
pub open spec fn cols_verts(s: int, n: int, h: int, has_hole: bool, i: int) -> Seq<GVertex>
    decreases i,
{
    if i <= 0 {
        Seq::empty()
    } else {
        cols_verts(s, n, h, has_hole, i - 1) + col_verts(s, n, h, has_hole, i - 1, n)
    }
}

/// The ring tessellation of one level: all `n * n` cells except those fully
/// inside the hole.
pub open spec fn grid_verts(s: int, n: int, h: int, has_hole: bool) -> Seq<GVertex> {
    cols_verts(s, n, h, has_hole, n)
}

/// The loop condition of the hole-column count: column `k`'s right edge lies
/// strictly left of the hole's left edge, `offset.x + (k+1) quadSide < -h/2`.
pub open spec fn hole_col_cond(s: int, n: int, h: int, k: int) -> bool {
    rat_lt(Rat { num: (2 * (k + 1) - n) * s, den: 2 * n }, Rat { num: -h, den: 2 })
}

/// The first `k >= from` at which the hole-column scan stops (capped at
/// `n - 1` by the scan's guard).
pub open spec fn hole_cols_from(s: int, n: int, h: int, from: int) -> int
    decreases n - from,
    when from <= n - 1
{
    if from >= n - 1 {
        if from == n - 1 && hole_col_cond(s, n, h, from) {
            n
        } else {
            from
        }
    } else if hole_col_cond(s, n, h, from) {
        hole_cols_from(s, n, h, from + 1)
    } else {
        from
    }
}

/// `i1` of a level with a hole: the number of grid columns lying entirely on
/// the near side of the hole, counted by the scan from column 0.
pub open spec fn i1_of(s: int, n: int, h: int) -> int {
    hole_cols_from(s, n, h, 0)
}

/// The four seams of a level with a hole, in order: top, right, bottom, left,
/// with the sweep direction rotated a quarter turn each time.
pub open spec fn seam_verts(s: int, n: int, h: int, hn: int) -> Seq<GVertex> {
    let i1 = i1_of(s, n, h);
    let i2 = n - i1;
    let na = i2 - i1;
    let da = Rat { num: 2 * s, den: 2 * n };
    let db = Rat { num: 2 * h, den: 2 * hn };
    let hneg = Rat { num: -(hn * h), den: 2 * hn };
    let hpos = Rat { num: hn * h, den: 2 * hn };
    stitch_verts(grid_pt(s, n, i1, i1), da, na, GPoint { x: hneg, y: hneg }, db, hn, Dir::XPos, 1, 1)
        + stitch_verts(
        grid_pt(s, n, i2, i1),
        da,
        na,
        GPoint { x: hpos, y: hneg },
        db,
        hn,
        Dir::YPos,
        1,
        1,
    ) + stitch_verts(
        grid_pt(s, n, i2, i2),
        da,
        na,
        GPoint { x: hpos, y: hpos },
        db,
        hn,
        Dir::XNeg,
        1,
        1,
    ) + stitch_verts(
        grid_pt(s, n, i1, i2),
        da,
        na,
        GPoint { x: hneg, y: hpos },
        db,
        hn,
        Dir::YNeg,
        1,
        1,
    )
}

/// One level's contribution at sorted position `l`: its ring grid, then —
/// when it has a hole — the four seams closing the gap to the sorted-order
/// predecessor. The hole is the predecessor's footprint; a hole of size 0 or
/// less is absent.
pub open spec fn level_verts(lods: Seq<Lod>, ord: Seq<int>, l: int) -> Seq<GVertex> {
    let s = lods[ord[l]].size as int;
    let n = lods[ord[l]].subdivisions + 1;
    let h = if l > 0 {
        lods[ord[l - 1]].size as int
    } else {
        0
    };
    let hn = if l > 0 {
        lods[ord[l - 1]].subdivisions + 1
    } else {
        1
    };
    let has_hole = l > 0 && h > 0;
    grid_verts(s, n as int, h, has_hole) + if has_hole {
        seam_verts(s, n as int, h, hn as int)
    } else {
        Seq::empty()
    }
}

/// The first `l` levels' contributions, in sorted order.
pub open spec fn levels_verts(lods: Seq<Lod>, ord: Seq<int>, l: int) -> Seq<GVertex>
    decreases l,
{
    if l <= 0 {
        Seq::empty()
    } else {
        levels_verts(lods, ord, l - 1) + level_verts(lods, ord, l - 1)
    }
}

pub open spec fn origin_pt() -> GPoint {
    GPoint { x: rat_zero(), y: rat_zero() }
}

/// The whole mesh of a configuration: one degenerate triangle at the origin
/// when there are no levels, else every level's ring and seams, processed in
/// ascending-size order (stable on ties).
pub open spec fn mesh_verts(lods: Seq<Lod>) -> Seq<GVertex> {
    if lods.len() == 0 {
        tri_verts(origin_pt(), origin_pt(), origin_pt())
    } else {
        levels_verts(lods, stable_order(lods), lods.len() as int)
    }
}

/// A clipmap mesh: a configuration of LOD levels, regenerated in full into a
/// triangle soup on every request.
#[derive(Debug)]
pub struct ClipmapMesh {
    pub lods: Vec<Lod>,
}

impl View for ClipmapMesh {
    type V = Seq<Lod>;

    open spec fn view(&self) -> Seq<Lod> {
        self.lods@
    }
}

/// The grid corner `(i, j)` of a level, exactly.
fn grid_corner(s: u32, n: u32, i: u32, j: u32) -> (r: Point2)
    requires
        1 <= n <= 0x2000_0000,
        i <= n,
        j <= n,
    ensures
        r@ == grid_pt(s as int, n as int, i as int, j as int),
{
    proof {
        assert((2 * (i as int) - n) * s <= 0x7FFF_FFFF_FFFF_FFFF && (2 * (i as int) - n) * s
            >= -0x7FFF_FFFF_FFFF_FFFF && (2 * (j as int) - n) * s <= 0x7FFF_FFFF_FFFF_FFFF && (2
            * (j as int) - n) * s >= -0x7FFF_FFFF_FFFF_FFFF) by (nonlinear_arith)
            requires
                1 <= n <= 0x2000_0000,
                0 <= i <= n,
                0 <= j <= n,
                0 <= s <= 0xFFFF_FFFF,
        ;
    }
    let nx: i64 = (2 * (i as i64) - (n as i64)) * (s as i64);
    let ny: i64 = (2 * (j as i64) - (n as i64)) * (s as i64);
    let den: u64 = 2 * (n as u64);
    Point2 { x: Frac { num: nx, den }, y: Frac { num: ny, den } }
}

/// The hole-scan facts of a level with a hole: the count stops inside the
/// grid, before its midline, right after the last column that the scan's
/// strict comparison accepts.
proof fn lemma_hole_cols_facts(s: int, n: int, h: int)
    requires
        1 <= n <= 0x2000_0000,
        1 <= h <= s,
        s <= 0xFFFF_FFFF,
    ensures
        0 <= i1_of(s, n, h) <= n - 1,
        2 * i1_of(s, n, h) < n,
        i1_of(s, n, h) >= 1 ==> hole_col_cond(s, n, h, i1_of(s, n, h) - 1),
        !hole_col_cond(s, n, h, i1_of(s, n, h)),
{
    lemma_hole_cols_from_facts(s, n, h, 0);
    let i1 = i1_of(s, n, h);
    if i1 >= 1 {
        // The last counted column gives `(2 i1 - n) s < -h n`, so `2 i1 < n`.
        assert((2 * i1 - n) * s * 2 < (-h) * (2 * n)) by {
            assert(hole_col_cond(s, n, h, i1 - 1));
        }
        assert(2 * i1 < n) by (nonlinear_arith)
            requires
                (2 * i1 - n) * s * 2 < (-h) * (2 * n),
                s >= 1,
                h >= 1,
                n >= 1,
        ;
    }
}

proof fn lemma_hole_cols_from_facts(s: int, n: int, h: int, from: int)
    requires
        1 <= n <= 0x2000_0000,
        1 <= h <= s,
        s <= 0xFFFF_FFFF,
        0 <= from <= n - 1,
    ensures
        from <= hole_cols_from(s, n, h, from) <= n - 1,
        hole_cols_from(s, n, h, from) >= from + 1 ==> hole_col_cond(
            s,
            n,
            h,
            hole_cols_from(s, n, h, from) - 1,
        ),
        !hole_col_cond(s, n, h, hole_cols_from(s, n, h, from)),
    decreases n - from,
{
    // The scan cannot pass `n - 1`: the last column's right edge is the grid
    // edge `s / 2`, never strictly left of `-h / 2`.
    assert(!hole_col_cond(s, n, h, n - 1)) by (nonlinear_arith)
        requires
            1 <= n,
            1 <= h <= s,
    ;
    if from < n - 1 && hole_col_cond(s, n, h, from) {
        lemma_hole_cols_from_facts(s, n, h, from + 1);
    }
}

proof fn lemma_hole_cols_char(s: int, n: int, h: int, stop: int)
    requires
        1 <= n <= 0x2000_0000,
        0 <= stop <= n - 1,
        forall|t: int| 0 <= t < stop ==> hole_col_cond(s, n, h, t),
        !hole_col_cond(s, n, h, stop),
    ensures
        i1_of(s, n, h) == stop,
{
    lemma_hole_cols_char_from(s, n, h, stop, 0);
}

proof fn lemma_hole_cols_char_from(s: int, n: int, h: int, stop: int, from: int)
    requires
        1 <= n <= 0x2000_0000,
        0 <= from <= stop <= n - 1,
        forall|t: int| from <= t < stop ==> hole_col_cond(s, n, h, t),
        !hole_col_cond(s, n, h, stop),
    ensures
        hole_cols_from(s, n, h, from) == stop,
    decreases stop - from,
{
    if from < stop {
        lemma_hole_cols_char_from(s, n, h, stop, from + 1);
    }
}

/// Everything a seam call needs, for any of the four directions, from the
/// level's numbers alone.
proof fn lemma_seam_req(
    a_start: Point2,
    da: Frac,
    na: int,
    b_start: Point2,
    db: Frac,
    hn: int,
    dir: Dir,
    s: int,
    n: int,
    h: int,
    i1: int,
)
    requires
        1 <= n <= 0x2000_0000,
        1 <= hn <= 0x2000_0000,
        1 <= h <= s,
        s <= 0xFFFF_FFFF,
        h <= 0xFFFF_FFFF,
        0 <= i1,
        2 * i1 < n,
        i1 >= 1 ==> (2 * i1 - n) * s * 2 < (-h) * (2 * n),
        na == n - 2 * i1,
        da@ == (Rat { num: 2 * s, den: 2 * n }),
        db@ == (Rat { num: 2 * h, den: 2 * hn }),
        a_start@.x.den == 2 * n,
        a_start@.y.den == 2 * n,
        b_start@.x.den == 2 * hn,
        b_start@.y.den == 2 * hn,
        dir == Dir::XPos ==> a_start@.x.num == (2 * i1 - n) * s && b_start@.x.num == -(hn * h),
        dir == Dir::YPos ==> a_start@.y.num == (2 * i1 - n) * s && b_start@.y.num == -(hn * h),
        dir == Dir::XNeg ==> a_start@.x.num == (n - 2 * i1) * s && b_start@.x.num == hn * h,
        dir == Dir::YNeg ==> a_start@.y.num == (n - 2 * i1) * s && b_start@.y.num == hn * h,
        -0x7FFF_FFFF_FFFF_FFFF <= a_start@.x.num <= 0x7FFF_FFFF_FFFF_FFFF,
        -0x7FFF_FFFF_FFFF_FFFF <= a_start@.y.num <= 0x7FFF_FFFF_FFFF_FFFF,
        -0x7FFF_FFFF_FFFF_FFFF <= b_start@.x.num <= 0x7FFF_FFFF_FFFF_FFFF,
        -0x7FFF_FFFF_FFFF_FFFF <= b_start@.y.num <= 0x7FFF_FFFF_FFFF_FFFF,
    ensures
        stitch_req(a_start, da, na, b_start, db, hn, dir),
{
    let a0 = axis_num(dir, a_start@);
    let b0 = axis_num(dir, b_start@);
    // The stepped outer numerators stay within i64.
    assert(abs(a0) + (na + 1) * abs(2 * s) <= 0x7FFF_FFFF_FFFF_FFFF) by (nonlinear_arith)
        requires
            1 <= n <= 0x2000_0000,
            0 <= s <= 0xFFFF_FFFF,
            0 <= i1,
            2 * i1 < n,
            na == n - 2 * i1,
            a0 == (2 * i1 - n) * s || a0 == (n - 2 * i1) * s,
    ;
    // The stepped inner numerators stay within i64.
    assert(abs(b0) + hn * abs(2 * h) <= 0x7FFF_FFFF_FFFF_FFFF) by (nonlinear_arith)
        requires
            1 <= hn <= 0x2000_0000,
            0 <= h <= 0xFFFF_FFFF,
            b0 == -(hn * h) || b0 == hn * h,
    ;
    // The inner boundary ends at the hole edge `h/2`; the outer boundary's
    // one-past-the-end key is `(n - 2 i1 + 2) s / (2 n)`, strictly beyond it.
    let pb_end = proj(dir, pt_along(b_start@, dir, db@, hn));
    let pa_end = proj(dir, pt_along(a_start@, dir, da@, na + 1));
    assert(pb_end.num == hn * h && pb_end.den == 2 * hn) by (nonlinear_arith)
        requires
            pb_end.num == (if dir == Dir::XPos || dir == Dir::YPos {
                b0 + (2 * h) * hn
            } else {
                -(b0 - (2 * h) * hn)
            }),
            pb_end.den == 2 * hn,
            b0 == (if dir == Dir::XPos || dir == Dir::YPos {
                -(hn * h)
            } else {
                hn * h
            }),
    ;
    assert(pa_end.num == (n - 2 * i1 + 2) * s && pa_end.den == 2 * n) by (nonlinear_arith)
        requires
            pa_end.num == (if dir == Dir::XPos || dir == Dir::YPos {
                a0 + (2 * s) * (na + 1)
            } else {
                -(a0 - (2 * s) * (na + 1))
            }),
            pa_end.den == 2 * n,
            a0 == (if dir == Dir::XPos || dir == Dir::YPos {
                (2 * i1 - n) * s
            } else {
                (n - 2 * i1) * s
            }),
            na == n - 2 * i1,
    ;
    assert((hn * h) * (2 * n) < ((n - 2 * i1 + 2) * s) * (2 * hn)) by (nonlinear_arith)
        requires
            1 <= n,
            1 <= hn,
            1 <= h <= s,
            0 <= i1,
            2 * i1 < n,
            i1 >= 1 ==> (2 * i1 - n) * s * 2 < (-h) * (2 * n),
    ;
    assert(rat_lt(pb_end, pa_end));
}

impl ClipmapMesh {
    /// A clipmap with no levels.
    pub fn new() -> (r: ClipmapMesh)
        ensures
            r@ == Seq::<Lod>::empty(),
    {
        let r = ClipmapMesh { lods: Vec::new() };
        proof {
            assert(r@ =~= Seq::<Lod>::empty());
        }
        r
    }

    /// True iff every level is small enough for exact mesh generation
    /// (a machine limit on the subdivision count, nothing more).
    pub open spec fn wf(self) -> bool {
        forall|t: int| 0 <= t < self@.len() ==> (#[trigger] self@[t]).fits()
    }

    pub fn lod_count(&self) -> (n: usize)
        ensures
            n == self@.len(),
    {
        self.lods.len()
    }

    pub fn lod_at(&self, index: usize) -> (r: Lod)
        requires
            index < self@.len(),
        ensures
            r == self@[index as int],
    {
        self.lods[index]
    }

    /// One level's size, or `None` exactly when `index` is out of range.
    pub fn get_lod_size(&self, index: usize) -> (r: Option<u32>)
        ensures
            index < self@.len() ==> r == Some(self@[index as int].size),
            index >= self@.len() ==> r is None,
    {
        if index < self.lods.len() {
            Some(self.lods[index].size)
        } else {
            None
        }
    }

    /// One level's subdivision count, or `None` exactly when `index` is out
    /// of range.
    pub fn get_lod_subdivisions(&self, index: usize) -> (r: Option<u32>)
        ensures
            index < self@.len() ==> r == Some(self@[index as int].subdivisions),
            index >= self@.len() ==> r is None,
    {
        if index < self.lods.len() {
            Some(self.lods[index].subdivisions)
        } else {
            None
        }
    }

    /// Replaces the whole configuration.
    pub fn set_configuration(&mut self, levels: Vec<Lod>)
        ensures
            final(self)@ == levels@,
    {
        self.lods = levels;
    }

    /// Resizes the configuration to `count` levels: existing levels up to
    /// `count` are kept unchanged, newly created slots get the default level
    /// `{size: 0, subdivisions: 0}`, and levels past `count` are dropped.
    pub fn set_lod_count(&mut self, count: usize)
        ensures
            final(self)@.len() == count,
            forall|t: int|
                0 <= t < count && t < old(self)@.len() ==> final(self)@[t] == old(self)@[t],
            forall|t: int|
                old(self)@.len() <= t < count ==> final(self)@[t] == (Lod {
                    size: 0,
                    subdivisions: 0,
                }),
    {
        let mut out: Vec<Lod> = Vec::new();
        let mut k: usize = 0;
        while k < count
            invariant
                k <= count,
                out@.len() == k,
                forall|t: int|
                    0 <= t < k && t < old(self)@.len() ==> out@[t] == old(self)@[t],
                forall|t: int|
                    old(self)@.len() <= t < k ==> out@[t] == (Lod { size: 0, subdivisions: 0 }),
                self@ == old(self)@,
            decreases count - k,
        {
            if k < self.lods.len() {
                let v = self.lods[k];
                out.push(v);
            } else {
                out.push(Lod { size: 0, subdivisions: 0 });
            }
            k = k + 1;
        }
        self.lods = out;
    }

    /// Sets one level's size, growing the configuration with default levels
    /// first if `index` lies beyond it.
    pub fn set_lod_size(&mut self, index: usize, size: u32)
        requires
            index < usize::MAX,
        ensures
            final(self)@.len() == (if index + 1 > old(self)@.len() {
                index + 1
            } else {
                old(self)@.len() as int
            }),
            final(self)@[index as int] == (Lod {
                size,
                subdivisions: (if index < old(self)@.len() {
                    old(self)@[index as int].subdivisions
                } else {
                    0
                }),
            }),
            forall|t: int|
                0 <= t < final(self)@.len() && t != index ==> final(self)@[t] == (if t < old(
                    self,
                )@.len() {
                    old(self)@[t]
                } else {
                    Lod { size: 0, subdivisions: 0 }
                }),
    {
        if index >= self.lods.len() {
            self.set_lod_count(index + 1);
        }
        let old_lod = self.lods[index];
        let mut out: Vec<Lod> = Vec::new();
        let mut k: usize = 0;
        let n = self.lods.len();
        while k < n
            invariant
                k <= n,
                n == self.lods@.len(),
                out@.len() == k,
                index < n,
                old_lod == self.lods@[index as int],
                forall|t: int| 0 <= t < k && t != index ==> out@[t] == self.lods@[t],
                forall|t: int|
                    0 <= t < k && t == index ==> out@[t] == (Lod {
                        size,
                        subdivisions: old_lod.subdivisions,
                    }),
            decreases n - k,
        {
            if k == index {
                out.push(Lod { size, subdivisions: old_lod.subdivisions });
            } else {
                let v = self.lods[k];
                out.push(v);
            }
            k = k + 1;
        }
        self.lods = out;
    }

    /// Sets one level's subdivision count, growing the configuration with
    /// default levels first if `index` lies beyond it.
    pub fn set_lod_subdivisions(&mut self, index: usize, subdivisions: u32)
        requires
            index < usize::MAX,
        ensures
            final(self)@.len() == (if index + 1 > old(self)@.len() {
                index + 1
            } else {
                old(self)@.len() as int
            }),
            final(self)@[index as int] == (Lod {
                size: (if index < old(self)@.len() {
                    old(self)@[index as int].size
                } else {
                    0
                }),
                subdivisions,
            }),
            forall|t: int|
                0 <= t < final(self)@.len() && t != index ==> final(self)@[t] == (if t < old(
                    self,
                )@.len() {
                    old(self)@[t]
                } else {
                    Lod { size: 0, subdivisions: 0 }
                }),
    {
        if index >= self.lods.len() {
            self.set_lod_count(index + 1);
        }
        let old_lod = self.lods[index];
        let mut out: Vec<Lod> = Vec::new();
        let mut k: usize = 0;
        let n = self.lods.len();
        while k < n
            invariant
                k <= n,
                n == self.lods@.len(),
                out@.len() == k,
                index < n,
                old_lod == self.lods@[index as int],
                forall|t: int| 0 <= t < k && t != index ==> out@[t] == self.lods@[t],
                forall|t: int|
                    0 <= t < k && t == index ==> out@[t] == (Lod {
                        size: old_lod.size,
                        subdivisions,
                    }),
            decreases n - k,
        {
            if k == index {
                out.push(Lod { size: old_lod.size, subdivisions });
            } else {
                let v = self.lods[k];
                out.push(v);
            }
            k = k + 1;
        }
        self.lods = out;
    }

    /// Like [`Self::generate_mesh`], but checks the machine limit on the
    /// subdivision counts first: `None` exactly when some level exceeds
    /// [`MAX_SUBDIVISIONS`], else the generated mesh.
    pub fn try_generate_mesh(&self) -> (r: Option<MeshBuffer>)
        ensures
            r is Some <==> self.wf(),
            r matches Some(m) ==> m@ == mesh_verts(self@) && m@.len() % 3 == 0,
    {
        let count = self.lods.len();
        let mut k: usize = 0;
        while k < count
            invariant
                k <= count,
                count == self@.len(),
                forall|t: int| 0 <= t < k ==> (#[trigger] self@[t]).fits(),
            decreases count - k,
        {
            if self.lods[k].subdivisions > MAX_SUBDIVISIONS {
                return None;
            }
            k = k + 1;
        }
        Some(self.generate_mesh())
    }

    /// Recomputes the whole mesh from the configuration (see
    /// [`mesh_verts`]): the levels in ascending-size order, each a ring
    /// around the previous level's footprint, the rings' gaps closed by four
    /// seams each, and one degenerate triangle when there are no levels.
    #[verifier::loop_isolation(false)]
    pub fn generate_mesh(&self) -> (m: MeshBuffer)
        requires
            self.wf(),
        ensures
            m@ == mesh_verts(self@),
            m@.len() % 3 == 0,
    {
        let mut buf = MeshBuffer::new();
        let n_lods = self.lods.len();
        if n_lods == 0 {
            let o = Point2 { x: Frac { num: 0, den: 1 }, y: Frac { num: 0, den: 1 } };
            buf.add_tri(o, o, o);
            proof {
                assert(buf@ =~= mesh_verts(self@));
            }
            return buf;
        }
        let ord = sorted_indices(&self.lods);
        proof {
            lemma_stable_order_props(self@);
        }
        let ghost gord = stable_order(self@);
        let mut l: usize = 0;
        while l < n_lods
            invariant
                l <= n_lods,
                buf@ == levels_verts(self@, gord, l as int),
                buf@.len() % 3 == 0,
            decreases n_lods - l,
        {
            let lod_index = ord[l];
            proof {
                assert(gord[l as int] == lod_index as int);
                assert(0 <= gord[l as int] < n_lods);
            }
            let cur = self.lods[lod_index];
            let s: u32 = cur.size;
            let n: u32 = cur.subdivisions + 1;
            let mut hole_size: u32 = 0;
            let mut hole_n: u32 = 1;
            if l > 0 {
                let prev_index = ord[l - 1];
                proof {
                    assert(gord[l as int - 1] == prev_index as int);
                    assert(0 <= gord[l as int - 1] < n_lods);
                }
                let prev = self.lods[prev_index];
                hole_size = prev.size;
                hole_n = prev.subdivisions + 1;
            }
            let has_hole = l > 0 && hole_size > 0;
            let ghost level_base = buf@;
            emit_grid(&mut buf, s, n, hole_size, has_hole);
            if has_hole {
                // The predecessor is no larger: the order is sorted by size.
                proof {
                    assert(self@[gord[l as int - 1]].size <= self@[gord[l as int]].size);
                }
                emit_seams(&mut buf, s, n, hole_size, hole_n);
            }
            proof {
                assert(buf@ =~= level_base + level_verts(self@, gord, l as int));
                assert(levels_verts(self@, gord, l as int + 1) == levels_verts(
                    self@,
                    gord,
                    l as int,
                ) + level_verts(self@, gord, l as int));
                assert(buf@ =~= levels_verts(self@, gord, l as int + 1));
            }
            l = l + 1;
        }
        proof {
            assert(buf@ == mesh_verts(self@));
        }
        buf
    }
}

/// Emits one level's ring tessellation: every cell of the `n` by `n` grid
/// whose four corners do not all lie inside the hole, split along the
/// checkerboard diagonal.
#[verifier::loop_isolation(false)]
fn emit_grid(buf: &mut MeshBuffer, s: u32, n: u32, hole_size: u32, has_hole: bool)
    requires
        1 <= n <= 0x2000_0000,
    ensures
        final(buf)@ == old(buf)@ + grid_verts(s as int, n as int, hole_size as int, has_hole),
        final(buf)@.len() % 3 == old(buf)@.len() % 3,
{
    let ghost gs = s as int;
    let ghost gn = n as int;
    let ghost gh = hole_size as int;
    let mut i: u32 = 0;
    while i < n
        invariant
            i <= n,
            buf@ == old(buf)@ + cols_verts(gs, gn, gh, has_hole, i as int),
            buf@.len() % 3 == old(buf)@.len() % 3,
        decreases n - i,
    {
        let mut j: u32 = 0;
        while j < n
            invariant
                i < n,
                j <= n,
                buf@ == old(buf)@ + cols_verts(gs, gn, gh, has_hole, i as int) + col_verts(
                    gs,
                    gn,
                    gh,
                    has_hole,
                    i as int,
                    j as int,
                ),
                buf@.len() % 3 == old(buf)@.len() % 3,
            decreases n - j,
        {
            let a = grid_corner(s, n, i, j);
            let b = grid_corner(s, n, i + 1, j);
            let c = grid_corner(s, n, i + 1, j + 1);
            let d = grid_corner(s, n, i, j + 1);
            let skip = has_hole && point_in_square(&a, hole_size) && point_in_square(
                &b,
                hole_size,
            ) && point_in_square(&c, hole_size) && point_in_square(&d, hole_size);
            if !skip {
                buf.add_quad(a, b, c, d, (i + j) % 2 == 1);
            }
            proof {
                assert(col_verts(gs, gn, gh, has_hole, i as int, j as int + 1) == col_verts(
                    gs,
                    gn,
                    gh,
                    has_hole,
                    i as int,
                    j as int,
                ) + cell_verts(gs, gn, gh, has_hole, i as int, j as int));
                assert(buf@ =~= old(buf)@ + cols_verts(gs, gn, gh, has_hole, i as int)
                    + col_verts(gs, gn, gh, has_hole, i as int, j as int + 1));
            }
            j = j + 1;
        }
        proof {
            assert(cols_verts(gs, gn, gh, has_hole, i as int + 1) == cols_verts(
                gs,
                gn,
                gh,
                has_hole,
                i as int,
            ) + col_verts(gs, gn, gh, has_hole, i as int, gn));
            assert(buf@ =~= old(buf)@ + cols_verts(gs, gn, gh, has_hole, i as int + 1));
        }
        i = i + 1;
    }
}

/// Counts the grid columns lying entirely on the near side of the hole: the
/// scan of the tessellated columns whose right edge falls strictly left of
/// the hole's left edge.
#[verifier::loop_isolation(false)]
fn count_hole_cols(s: u32, n: u32, hole_size: u32) -> (i1: u32)
    requires
        1 <= n <= 0x2000_0000,
        1 <= hole_size <= s,
    ensures
        i1 as int == i1_of(s as int, n as int, hole_size as int),
        2 * (i1 as int) < n as int,
        i1 as int >= 1 ==> hole_col_cond(s as int, n as int, hole_size as int, i1 as int - 1),
{
    let ghost gs = s as int;
    let ghost gn = n as int;
    let ghost gh = hole_size as int;
    let limit = Frac { num: -(hole_size as i64), den: 2 };
    let mut i1: u32 = 0;
    while i1 < n
        invariant
            0 <= i1 <= n,
            forall|t: int| 0 <= t < i1 ==> hole_col_cond(gs, gn, gh, t),
        decreases n - i1,
    {
        let edge = grid_corner(s, n, i1 + 1, 0);
        if !edge.x.lt(&limit) {
            break ;
        }
        i1 = i1 + 1;
    }
    proof {
        lemma_hole_cols_facts(gs, gn, gh);
        if i1 < n {
            lemma_hole_cols_char(gs, gn, gh, i1 as int);
        } else {
            // The scan's guard would have stopped at n - 1.
            assert(hole_col_cond(gs, gn, gh, gn - 1));
            assert(!hole_col_cond(gs, gn, gh, i1_of(gs, gn, gh)));
            assert(i1_of(gs, gn, gh) <= gn - 1);
            assert(false);
        }
    }
    i1
}

/// Emits the four seams of a level around its hole: top, right, bottom,
/// left, the sweep direction rotated a quarter turn each time.
#[verifier::loop_isolation(false)]
#[verifier::rlimit(100)]
fn emit_seams(buf: &mut MeshBuffer, s: u32, n: u32, hole_size: u32, hole_n: u32)
    requires
        1 <= n <= 0x2000_0000,
        1 <= hole_n <= 0x2000_0000,
        1 <= hole_size <= s,
    ensures
        final(buf)@ == old(buf)@ + seam_verts(
            s as int,
            n as int,
            hole_size as int,
            hole_n as int,
        ),
        final(buf)@.len() % 3 == old(buf)@.len() % 3,
{
    let ghost gs = s as int;
    let ghost gn = n as int;
    let ghost gh = hole_size as int;
    let ghost ghn = hole_n as int;
    let i1 = count_hole_cols(s, n, hole_size);
    let i2: u32 = n - i1;
    let na: u32 = i2 - i1;
    proof {
        assert((ghn * gh) <= 0x2000_0000 * 0xFFFF_FFFF) by (nonlinear_arith)
            requires
                1 <= ghn <= 0x2000_0000,
                0 <= gh <= 0xFFFF_FFFF,
        ;
        assert((ghn * gh) >= 0) by (nonlinear_arith)
            requires
                ghn >= 0,
                gh >= 0,
        ;
    }
    let da = Frac { num: 2 * (s as i64), den: 2 * (n as u64) };
    let db = Frac { num: 2 * (hole_size as i64), den: 2 * (hole_n as u64) };
    let hneg = Frac { num: -((hole_n as i64) * (hole_size as i64)), den: 2 * (hole_n as u64) };
    let hpos = Frac { num: (hole_n as i64) * (hole_size as i64), den: 2 * (hole_n as u64) };
    let a_tl = grid_corner(s, n, i1, i1);
    let a_tr = grid_corner(s, n, i2, i1);
    let a_br = grid_corner(s, n, i2, i2);
    let a_bl = grid_corner(s, n, i1, i2);
    let b_tl = Point2 { x: hneg, y: hneg };
    let b_tr = Point2 { x: hpos, y: hneg };
    let b_br = Point2 { x: hpos, y: hpos };
    let b_bl = Point2 { x: hneg, y: hpos };
    proof {
        assert(i1 as int >= 1 ==> (2 * (i1 as int) - gn) * gs * 2 < (-gh) * (2 * gn));
        assert(abs((2 * (i1 as int) - gn) * gs) <= gn * gs && abs((gn - 2 * (i1 as int)) * gs)
            <= gn * gs && gn * gs <= 0x2000_0000 * 0xFFFF_FFFF) by (nonlinear_arith)
            requires
                1 <= gn <= 0x2000_0000,
                0 <= gs <= 0xFFFF_FFFF,
                0 <= i1 as int,
                2 * (i1 as int) < gn,
        ;
        lemma_seam_req(a_tl, da, na as int, b_tl, db, ghn, Dir::XPos, gs, gn, gh, i1 as int);
        lemma_seam_req(a_tr, da, na as int, b_tr, db, ghn, Dir::YPos, gs, gn, gh, i1 as int);
        lemma_seam_req(a_br, da, na as int, b_br, db, ghn, Dir::XNeg, gs, gn, gh, i1 as int);
        lemma_seam_req(a_bl, da, na as int, b_bl, db, ghn, Dir::YNeg, gs, gn, gh, i1 as int);
    }
    stitch(&mut *buf, a_tl, da, na, b_tl, db, hole_n, Dir::XPos);
    stitch(&mut *buf, a_tr, da, na, b_tr, db, hole_n, Dir::YPos);
    stitch(&mut *buf, a_br, da, na, b_br, db, hole_n, Dir::XNeg);
    stitch(&mut *buf, a_bl, da, na, b_bl, db, hole_n, Dir::YNeg);
    proof {
        assert(buf@ =~= old(buf)@ + seam_verts(gs, gn, gh, ghn));
    }
}

/// The checkerboard law: in a solid grid (no hole), cell `(i, j)` is split
/// along the `a`-`d` diagonal exactly when `i + j` is odd, and along the
/// `a`-`c` diagonal exactly when `i + j` is even.
pub proof fn lemma_checkerboard_parity(s: int, n: int, i: int, j: int)
    ensures
        (i + j) % 2 == 1 ==> cell_verts(s, n, 0, false, i, j) == tri_verts(
            grid_pt(s, n, i, j),
            grid_pt(s, n, i + 1, j),
            grid_pt(s, n, i, j + 1),
        ) + tri_verts(grid_pt(s, n, i + 1, j), grid_pt(s, n, i + 1, j + 1), grid_pt(s, n, i, j + 1)),
        (i + j) % 2 != 1 ==> cell_verts(s, n, 0, false, i, j) == tri_verts(
            grid_pt(s, n, i, j),
            grid_pt(s, n, i + 1, j),
            grid_pt(s, n, i + 1, j + 1),
        ) + tri_verts(grid_pt(s, n, i, j), grid_pt(s, n, i + 1, j + 1), grid_pt(s, n, i, j + 1)),
{
}

} // verus!
