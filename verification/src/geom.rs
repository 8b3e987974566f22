use vstd::prelude::*;
use crate::frac::{Frac, Rat, rat_le};

verus! {

/// A 2D point in the working plane, with exact rational coordinates.
#[derive(Clone, Copy, Debug)]
pub struct Point2 {
    pub x: Frac,
    pub y: Frac,
}

/// Mathematical value of a 2D point.
pub ghost struct GPoint {
    pub x: Rat,
    pub y: Rat,
}

impl View for Point2 {
    type V = GPoint;

    open spec fn view(&self) -> GPoint {
        GPoint { x: self.x@, y: self.y@ }
    }
}

impl Point2 {
    pub open spec fn wf(self) -> bool {
        self.x.wf() && self.y.wf()
    }
}

/// A 3D mesh vertex with exact rational coordinates.
#[derive(Clone, Copy, Debug)]
pub struct Vertex {
    pub x: Frac,
    pub y: Frac,
    pub z: Frac,
}

/// Mathematical value of a 3D vertex.
pub ghost struct GVertex {
    pub x: Rat,
    pub y: Rat,
    pub z: Rat,
}

impl View for Vertex {
    type V = GVertex;

    open spec fn view(&self) -> GVertex {
        GVertex { x: self.x@, y: self.y@, z: self.z@ }
    }
}

pub open spec fn rat_zero() -> Rat {
    Rat { num: 0, den: 1 }
}

pub open spec fn rat_one() -> Rat {
    Rat { num: 1, den: 1 }
}

/// The 3D vertex for a 2D working-plane point: the plane is laid flat, so the
/// vertical coordinate is 0 and the point's second axis becomes `z`.
pub open spec fn vert_of(p: GPoint) -> GVertex {
    GVertex { x: p.x, y: rat_zero(), z: p.y }
}

/// The three vertices of one triangle.
pub open spec fn tri_verts(a: GPoint, b: GPoint, c: GPoint) -> Seq<GVertex> {
    seq![vert_of(a), vert_of(b), vert_of(c)]
}

/// The six vertices of a quad split into two triangles.
///
/// With the checkerboard flag set the quad is split along the `a`-`d`
/// diagonal (triangles `a,b,d` and `b,c,d`); otherwise along the `a`-`c`
/// diagonal (triangles `a,b,c` and `a,c,d`).
pub open spec fn quad_verts(a: GPoint, b: GPoint, c: GPoint, d: GPoint, checkerboard: bool)
    -> Seq<GVertex>
{
    if checkerboard {
        tri_verts(a, b, d) + tri_verts(b, c, d)
    } else {
        tri_verts(a, b, c) + tri_verts(a, c, d)
    }
}

/// True iff `p` lies in the closed axis-aligned square of side `h` centered
/// at the origin: `|x| <= h/2` and `|y| <= h/2`.
pub open spec fn in_square(p: GPoint, h: int) -> bool {
    &&& rat_le(Rat { num: -h, den: 2 }, p.x)
    &&& rat_le(p.x, Rat { num: h, den: 2 })
    &&& rat_le(Rat { num: -h, den: 2 }, p.y)
    &&& rat_le(p.y, Rat { num: h, den: 2 })
}

/// A non-indexed triangle list: every consecutive group of three vertices is
/// one triangle. All vertices share the constant upward normal.
#[derive(Debug)]
pub struct MeshBuffer {
    pub verts: Vec<Vertex>,
}

impl View for MeshBuffer {
    type V = Seq<GVertex>;

    open spec fn view(&self) -> Seq<GVertex> {
        self.verts@.map_values(|v: Vertex| v@)
    }
}

impl MeshBuffer {
    pub fn new() -> (r: MeshBuffer)
        ensures
            r@ == Seq::<GVertex>::empty(),
    {
        let r = MeshBuffer { verts: Vec::new() };
        proof {
            assert(r@ =~= Seq::<GVertex>::empty());
        }
        r
    }

    pub fn vertex_count(&self) -> (n: usize)
        ensures
            n == self@.len(),
    {
        self.verts.len()
    }

    /// The number of triangles in the buffer (vertex count divided by 3).
    pub fn triangle_count(&self) -> (n: usize)
        ensures
            n == self@.len() / 3,
    {
        self.verts.len() / 3
    }

    pub fn vertex_at(&self, i: usize) -> (v: Vertex)
        requires
            i < self@.len(),
        ensures
            v@ == self@[i as int],
    {
        self.verts[i]
    }

    /// The constant surface normal shared by every vertex: the unit vector
    /// along the upward axis.
    pub fn normal(&self) -> (n: Vertex)
        ensures
            n@ == (GVertex { x: rat_zero(), y: rat_one(), z: rat_zero() }),
    {
        Vertex {
            x: Frac { num: 0, den: 1 },
            y: Frac { num: 1, den: 1 },
            z: Frac { num: 0, den: 1 },
        }
    }

    /// Appends one triangle `a, b, c`, each 2D point lifted into the plane.
    pub fn add_tri(&mut self, a: Point2, b: Point2, c: Point2)
        ensures
            final(self)@ == old(self)@ + tri_verts(a@, b@, c@),
    {
        let zero = Frac { num: 0, den: 1 };
        self.verts.push(Vertex { x: a.x, y: zero, z: a.y });
        self.verts.push(Vertex { x: b.x, y: zero, z: b.y });
        self.verts.push(Vertex { x: c.x, y: zero, z: c.y });
        proof {
            assert(self@ =~= old(self)@ + tri_verts(a@, b@, c@));
        }
    }

    /// Appends one quad as two triangles, split along the diagonal selected
    /// by the checkerboard flag (see [`quad_verts`]).
    pub fn add_quad(&mut self, a: Point2, b: Point2, c: Point2, d: Point2, checkerboard: bool)
        ensures
            final(self)@ == old(self)@ + quad_verts(a@, b@, c@, d@, checkerboard),
    {
        if checkerboard {
            self.add_tri(a, b, d);
            self.add_tri(b, c, d);
        } else {
            self.add_tri(a, b, c);
            self.add_tri(a, c, d);
        }
        proof {
            assert(self@ =~= old(self)@ + quad_verts(a@, b@, c@, d@, checkerboard));
        }
    }

}

/// True iff `p` lies in the closed square of side `h` centered at the
/// origin; the hole test of the tessellator ("all four corners inside").
pub fn point_in_square(p: &Point2, h: u32) -> (r: bool)
    ensures
        r == in_square(p@, h as int),
{
    let lo = Frac { num: -(h as i64), den: 2 };
    let hi = Frac { num: h as i64, den: 2 };
    lo.le(&p.x) && p.x.le(&hi) && lo.le(&p.y) && p.y.le(&hi)
}

} // verus!
