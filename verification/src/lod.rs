use vstd::prelude::*;

verus! {

/// Upper bound on the subdivision count accepted by mesh generation; it keeps
/// every coordinate numerator within `i64` (`(3n + 2) * size < 2^63` for
/// `n = subdivisions + 1 <= 2^29` and any `u32` size).
pub const MAX_SUBDIVISIONS: u32 = 0x1FFF_FFFF;

/// One level of detail: a square grid footprint of side `size` centered at
/// the origin, with `subdivisions` interior divisions per axis, so the grid
/// has `subdivisions + 1` cells per axis.
#[derive(Clone, Copy, Debug, PartialEq, Eq, Structural)]
pub struct Lod {
    pub size: u32,
    pub subdivisions: u32,
}

impl Lod {
    pub fn new(size: u32, subdivisions: u32) -> (r: Lod)
        ensures
            r == (Lod { size, subdivisions }),
    {
        Lod { size, subdivisions }
    }

    /// True iff this level is small enough for mesh generation's exact
    /// arithmetic (a machine limit, not a rule of the geometry).
    pub open spec fn fits(self) -> bool {
        self.subdivisions <= MAX_SUBDIVISIONS
    }
}

impl Default for Lod {
    /// The level a newly created configuration slot receives.
    fn default() -> (r: Lod)
        ensures
            r == (Lod { size: 0, subdivisions: 0 }),
    {
        Lod { size: 0, subdivisions: 0 }
    }
}

} // verus!
