//! The grid of a cylinder mesh: which vertices it has and which triangles join
//! them. Where the vertices lie is the renderer's arithmetic; the grid is not.
//!
//! The shaft is a stack of rings, `subdivisions + 1` of them from the top down,
//! each of `resolution` vertices. Two more rings close the ends, each with a
//! vertex at its centre first: the top cap, then the bottom cap.

use vstd::prelude::*;

verus! {

/// A cylinder which stands on the XZ plane
#[derive(Debug, Clone, Copy)]
pub struct Cylinder<S> {
    /// Radius of the cylinder (X&Z axis)
    pub radius: S,
    /// Height of the cylinder (Y axis)
    pub height: S,
    /// Number of vertices around each horizontal slice of the cylinder
    pub resolution: u32,
    /// Number of vertical subdivisions
    pub subdivisions: u32,
}

/// Where a vertex of the mesh sits.
#[derive(Debug, Clone, Copy, PartialEq, Eq, Structural)]
pub enum CylinderVertex {
    /// On ring `ring` of the shaft, counted from the top, at step `spoke` around it.
    Shaft { ring: u32, spoke: u32 },
    /// At the centre of the top cap.
    TopCentre,
    /// On the rim of the top cap at step `spoke`.
    TopRim { spoke: u32 },
    /// At the centre of the bottom cap.
    BottomCentre,
    /// On the rim of the bottom cap at step `spoke`.
    BottomRim { spoke: u32 },
}

/// The number of vertices of a cylinder mesh.
pub open spec fn vertex_total(resolution: int, subdivisions: int) -> int {
    resolution * (subdivisions + 3) + 2
}

/// The number of the vertex at the centre of the top cap.
pub open spec fn top_hub(resolution: int, subdivisions: int) -> int {
    resolution * (subdivisions + 1)
}

/// The number of the vertex at the centre of the bottom cap.
pub open spec fn bottom_hub(resolution: int, subdivisions: int) -> int {
    resolution * (subdivisions + 2) + 1
}

/// The two triangles between step `j` and the next of rings `i` and `i + 1`.
pub open spec fn quad(resolution: int, i: int, j: int) -> Seq<int> {
    let next = (j + 1) % resolution;
    let upper = resolution * i;
    let lower = upper + resolution;
    seq![lower + j, upper + next, upper + j, lower + j, lower + next, upper + next]
}

/// The triangles between rings `i` and `i + 1` for the first `upto` steps.
pub open spec fn band(resolution: int, i: int, upto: int) -> Seq<int>
    decreases upto,
{
    if upto <= 0 {
        Seq::empty()
    } else {
        band(resolution, i, upto - 1) + quad(resolution, i, upto - 1)
    }
}

/// The triangles of the shaft between the first `upto + 1` rings.
pub open spec fn shaft(resolution: int, upto: int) -> Seq<int>
    decreases upto,
{
    if upto <= 0 {
        Seq::empty()
    } else {
        shaft(resolution, upto - 1) + band(resolution, upto - 1, resolution)
    }
}

/// The triangle of a cap between its centre `hub`, step `j` of its rim and the
/// next; with the rim steps the other way round where the cap faces down.
pub open spec fn wedge(resolution: int, hub: int, j: int, down: bool) -> Seq<int> {
    let next = (j + 1) % resolution;
    if down {
        seq![hub, hub + 1 + next, hub + 1 + j]
    } else {
        seq![hub, hub + 1 + j, hub + 1 + next]
    }
}

/// The triangles of a cap for the first `upto` steps of its rim.
pub open spec fn fan(resolution: int, hub: int, upto: int, down: bool) -> Seq<int>
    decreases upto,
{
    if upto <= 0 {
        Seq::empty()
    } else {
        fan(resolution, hub, upto - 1, down) + wedge(resolution, hub, upto - 1, down)
    }
}

/// The index buffer of a cylinder mesh: the shaft from the top down, then the top
/// cap, then the bottom cap.
pub open spec fn index_buffer(resolution: int, subdivisions: int) -> Seq<int> {
    shaft(resolution, subdivisions) + fan(
        resolution,
        top_hub(resolution, subdivisions),
        resolution,
        false,
    ) + fan(resolution, bottom_hub(resolution, subdivisions), resolution, true)
}

/// The vertex numbers in `s` as mathematical integers.
pub open spec fn as_ints(s: Seq<u32>) -> Seq<int> {
    Seq::new(s.len(), |k: int| s[k] as int)
}

/// Every entry of `s` is a vertex number below `bound`.
pub open spec fn all_below(s: Seq<int>, bound: int) -> bool {
    forall|k: int| 0 <= k < s.len() ==> 0 <= #[trigger] s[k] < bound
}

/// Where vertex `v` sits.
pub open spec fn vertex_place(resolution: int, subdivisions: int, v: int) -> CylinderVertex {
    let top = top_hub(resolution, subdivisions);
    let bottom = bottom_hub(resolution, subdivisions);
    if v < top {
        CylinderVertex::Shaft { ring: (v / resolution) as u32, spoke: (v % resolution) as u32 }
    } else if v == top {
        CylinderVertex::TopCentre
    } else if v < bottom {
        CylinderVertex::TopRim { spoke: (v - top - 1) as u32 }
    } else if v == bottom {
        CylinderVertex::BottomCentre
    } else {
        CylinderVertex::BottomRim { spoke: (v - bottom - 1) as u32 }
    }
}

proof fn lemma_band(resolution: int, subdivisions: int, i: int, upto: int)
    requires
        0 < resolution,
        0 <= i < subdivisions,
        0 <= upto <= resolution,
    ensures
        band(resolution, i, upto).len() == 6 * upto,
        all_below(band(resolution, i, upto), top_hub(resolution, subdivisions)),
    decreases upto,
{
    if upto > 0 {
        lemma_band(resolution, subdivisions, i, upto - 1);
        let j = upto - 1;
        let next = (j + 1) % resolution;
        assert(0 <= next < resolution);
        assert(resolution * i + resolution + resolution <= resolution * (subdivisions + 1))
            by (nonlinear_arith)
            requires
                0 < resolution,
                0 <= i < subdivisions,
        ;
        assert(0 <= resolution * i) by (nonlinear_arith)
            requires
                0 < resolution,
                0 <= i,
        ;
    }
}

proof fn lemma_shaft(resolution: int, subdivisions: int, upto: int)
    requires
        0 < resolution,
        0 <= upto <= subdivisions,
    ensures
        shaft(resolution, upto).len() == 6 * resolution * upto,
        all_below(shaft(resolution, upto), top_hub(resolution, subdivisions)),
    decreases upto,
{
    if upto > 0 {
        lemma_shaft(resolution, subdivisions, upto - 1);
        lemma_band(resolution, subdivisions, upto - 1, resolution);
        let six = 6 * resolution;
        assert(six * (upto - 1) + six == six * upto) by (nonlinear_arith);
        assert(shaft(resolution, upto - 1).len() == six * (upto - 1));
        assert(band(resolution, upto - 1, resolution).len() == six);
        assert(shaft(resolution, upto).len() == six * upto);
    } else {
        assert(6 * resolution * upto == 0) by (nonlinear_arith)
            requires
                upto == 0,
        ;
    }
}

proof fn lemma_fan(resolution: int, hub: int, upto: int, down: bool)
    requires
        0 < resolution,
        0 <= hub,
        0 <= upto <= resolution,
    ensures
        fan(resolution, hub, upto, down).len() == 3 * upto,
        all_below(fan(resolution, hub, upto, down), hub + resolution + 1),
    decreases upto,
{
    if upto > 0 {
        lemma_fan(resolution, hub, upto - 1, down);
        let next = (upto - 1 + 1) % resolution;
        assert(0 <= next < resolution);
    }
}

/// The index buffer has three entries for each of its triangles, two triangles for
/// every step between two rings and one for every step of a cap, and every entry
/// is the number of a vertex of the mesh.
pub proof fn lemma_index_buffer(resolution: int, subdivisions: int)
    requires
        0 < resolution,
        0 < subdivisions,
    ensures
        index_buffer(resolution, subdivisions).len() == 6 * subdivisions * resolution + 6
            * resolution,
        all_below(index_buffer(resolution, subdivisions), vertex_total(resolution, subdivisions)),
{
    lemma_shaft(resolution, subdivisions, subdivisions);
    lemma_fan(resolution, top_hub(resolution, subdivisions), resolution, false);
    lemma_fan(resolution, bottom_hub(resolution, subdivisions), resolution, true);
    assert(6 * resolution * subdivisions == 6 * subdivisions * resolution) by (nonlinear_arith);
    assert(0 <= top_hub(resolution, subdivisions) && top_hub(resolution, subdivisions) + resolution
        + 1 == bottom_hub(resolution, subdivisions) && bottom_hub(resolution, subdivisions)
        + resolution + 1 == vertex_total(resolution, subdivisions)) by (nonlinear_arith)
        requires
            0 < resolution,
            0 < subdivisions,
    ;
}

impl<S> Cylinder<S> {
    /// The grid has a ring step and a subdivision at least, and no more vertices
    /// than a vertex number can count.
    pub open spec fn has_grid(&self) -> bool {
        &&& self.resolution > 0
        &&& self.subdivisions > 0
        &&& vertex_total(self.resolution as int, self.subdivisions as int) <= u32::MAX
    }

    /// Whether the grid has a ring step and a subdivision at least, and no more
    /// vertices than a vertex number can count.
    pub fn check_grid(&self) -> (ok: bool)
        ensures
            ok == self.has_grid(),
    {
        if self.resolution == 0 || self.subdivisions == 0 {
            return false;
        }
        if self.subdivisions > u32::MAX - 3 {
            assert(self.resolution as int * (self.subdivisions as int + 3) >= self.subdivisions + 3)
                by (nonlinear_arith)
                requires
                    self.resolution >= 1,
            ;
            return false;
        }
        let wide: u64 = self.resolution as u64;
        let rings: u64 = self.subdivisions as u64 + 3;
        assert(wide * rings <= 0xffff_ffff * 0xffff_ffff) by (nonlinear_arith)
            requires
                wide <= 0xffff_ffff,
                rings <= 0xffff_ffff,
        ;
        let total: u64 = wide * rings + 2;
        total <= u32::MAX as u64
    }

    /// In a grid that vertex numbers can count, the rings can be counted too.
    proof fn lemma_grid(&self)
        requires
            self.has_grid(),
        ensures
            self.subdivisions + 3 <= u32::MAX,
            0 <= self.resolution * (self.subdivisions + 1) <= self.resolution * (self.subdivisions
                + 2) <= self.resolution * (self.subdivisions + 3) <= u32::MAX - 2,
    {
        let r = self.resolution as int;
        let s = self.subdivisions as int;
        assert(s + 3 <= r * (s + 3) && 0 <= r * (s + 1) <= r * (s + 2) <= r * (s + 3))
            by (nonlinear_arith)
            requires
                r >= 1,
                s >= 1,
        ;
    }

    /// The number of vertices.
    pub fn vertex_count(&self) -> (count: u32)
        requires
            self.has_grid(),
        ensures
            count == vertex_total(self.resolution as int, self.subdivisions as int),
    {
        proof {
            self.lemma_grid();
        }
        self.resolution * (self.subdivisions + 3) + 2
    }

    /// The number of the vertex at the centre of the top cap.
    pub fn top_offset(&self) -> (hub: u32)
        requires
            self.has_grid(),
        ensures
            hub == top_hub(self.resolution as int, self.subdivisions as int),
    {
        proof {
            self.lemma_grid();
        }
        self.resolution * (self.subdivisions + 1)
    }

    /// The number of the vertex at the centre of the bottom cap.
    pub fn bottom_offset(&self) -> (hub: u32)
        requires
            self.has_grid(),
        ensures
            hub == bottom_hub(self.resolution as int, self.subdivisions as int),
    {
        proof {
            self.lemma_grid();
        }
        self.resolution * (self.subdivisions + 2) + 1
    }

    /// Where vertex `v` sits.
    pub fn vertex(&self, v: u32) -> (place: CylinderVertex)
        requires
            self.has_grid(),
            v < vertex_total(self.resolution as int, self.subdivisions as int),
        ensures
            place == vertex_place(self.resolution as int, self.subdivisions as int, v as int),
    {
        let top = self.top_offset();
        let bottom = self.bottom_offset();
        if v < top {
            CylinderVertex::Shaft { ring: v / self.resolution, spoke: v % self.resolution }
        } else if v == top {
            CylinderVertex::TopCentre
        } else if v < bottom {
            CylinderVertex::TopRim { spoke: v - top - 1 }
        } else if v == bottom {
            CylinderVertex::BottomCentre
        } else {
            CylinderVertex::BottomRim { spoke: v - bottom - 1 }
        }
    }

    /// The triangles of a cap with its centre at `hub`.
    fn cap(&self, indices: &mut Vec<u32>, hub: u32, down: bool)
        requires
            self.resolution > 0,
            hub + self.resolution + 1 <= u32::MAX,
        ensures
            as_ints(final(indices)@) == as_ints(old(indices)@) + fan(
                self.resolution as int,
                hub as int,
                self.resolution as int,
                down,
            ),
    {
        let ghost before = as_ints(indices@);
        let res: u32 = self.resolution;
        let base: u32 = hub + 1;
        let mut j: u32 = 0;
        assert(as_ints(indices@) =~= before + fan(res as int, hub as int, 0, down));
        while j < res
            invariant
                j <= res,
                res == self.resolution,
                res > 0,
                base == hub + 1,
                hub + res + 1 <= u32::MAX,
                as_ints(indices@) == before + fan(res as int, hub as int, j as int, down),
            decreases res - j,
        {
            let ghost sofar = as_ints(indices@);
            let j1: u32 = (j + 1) % res;
            indices.push(hub);
            if down {
                indices.push(base + j1);
                indices.push(base + j);
            } else {
                indices.push(base + j);
                indices.push(base + j1);
            }
            assert(as_ints(indices@) =~= sofar + wedge(res as int, hub as int, j as int, down));
            assert((before + fan(res as int, hub as int, j as int, down)) + wedge(
                res as int,
                hub as int,
                j as int,
                down,
            ) =~= before + fan(res as int, hub as int, j + 1, down));
            j += 1;
        }
    }

    /// The index buffer of the mesh, three vertex numbers for each triangle: the
    /// shaft from the top down, then the top cap, then the bottom cap.
    pub fn indices(&self) -> (indices: Vec<u32>)
        requires
            self.has_grid(),
        ensures
            as_ints(indices@) == index_buffer(self.resolution as int, self.subdivisions as int),
            indices@.len() == 6 * self.subdivisions * self.resolution + 6 * self.resolution,
            forall|k: int|
                0 <= k < indices@.len() ==> #[trigger] indices@[k] < vertex_total(
                    self.resolution as int,
                    self.subdivisions as int,
                ),
    {
        let res: u32 = self.resolution;
        let sub: u32 = self.subdivisions;
        let top_offset = self.top_offset();
        let bottom_offset = self.bottom_offset();
        let count = self.vertex_count();
        let mut indices: Vec<u32> = Vec::new();
        let mut i: u32 = 0;
        assert(as_ints(indices@) =~= shaft(res as int, 0));
        while i < sub
            invariant
                i <= sub,
                res == self.resolution,
                sub == self.subdivisions,
                self.has_grid(),
                as_ints(indices@) == shaft(res as int, i as int),
            decreases sub - i,
        {
            assert(res as int * (i as int + 2) <= res as int * (sub as int + 3) && res as int
                * i as int >= 0) by (nonlinear_arith)
                requires
                    i < sub,
                    res > 0,
            ;
            assert(res as int * (i as int + 2) == res as int * i as int + res as int + res as int)
                by (nonlinear_arith);
            let base1: u32 = res * i;
            let base2: u32 = base1 + res;
            let ghost done = as_ints(indices@);
            let mut j: u32 = 0;
            assert(as_ints(indices@) =~= done + band(res as int, i as int, 0));
            while j < res
                invariant
                    j <= res,
                    res > 0,
                    base1 == res * i,
                    base2 == base1 + res,
                    base2 + res <= u32::MAX,
                    as_ints(indices@) == done + band(res as int, i as int, j as int),
                decreases res - j,
            {
                let ghost sofar = as_ints(indices@);
                let j1: u32 = (j + 1) % res;
                indices.push(base2 + j);
                indices.push(base1 + j1);
                indices.push(base1 + j);
                indices.push(base2 + j);
                indices.push(base2 + j1);
                indices.push(base1 + j1);
                assert(as_ints(indices@) =~= sofar + quad(res as int, i as int, j as int));
                assert((done + band(res as int, i as int, j as int)) + quad(
                    res as int,
                    i as int,
                    j as int,
                ) =~= done + band(res as int, i as int, j + 1));
                j += 1;
            }
            i += 1;
        }
        assert(top_offset + res + 1 == bottom_offset && bottom_offset + res + 1 == count)
            by (nonlinear_arith)
            requires
                top_offset == res as int * (sub as int + 1),
                bottom_offset == res as int * (sub as int + 2) + 1,
                count == res as int * (sub as int + 3) + 2,
        ;
        self.cap(&mut indices, top_offset, false);
        self.cap(&mut indices, bottom_offset, true);
        proof {
            lemma_index_buffer(res as int, sub as int);
            let buffer = index_buffer(res as int, sub as int);
            assert(as_ints(indices@) =~= buffer);
            assert forall|k: int| 0 <= k < indices@.len() implies #[trigger] indices@[k]
                < vertex_total(res as int, sub as int) by {
                assert(as_ints(indices@)[k] == indices@[k] as int);
                assert(0 <= buffer[k] < vertex_total(res as int, sub as int));
            }
        }
        indices
    }
}

} // verus!
