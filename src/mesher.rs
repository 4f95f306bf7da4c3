//! Face-culling meshing with ambient occlusion, and the geometry it emits.

use vstd::prelude::*;
use crate::grid::Chunk;
use crate::voxel::{emits_face, face_visible, Visibility, VoxelType};

verus! {

/// One of the six axis-aligned directions a face can point to.
#[derive(Debug, Clone, Copy, PartialEq, Eq, Structural)]
pub enum Axis {
    XPositive,
    XNegative,
    YPositive,
    YNegative,
    ZPositive,
    ZNegative,
}

/// The direction index of an axis: X-, X+, Y-, Y+, Z-, Z+ are 0 to 5.
pub open spec fn axis_index(axis: Axis) -> int {
    match axis {
        Axis::XNegative => 0,
        Axis::XPositive => 1,
        Axis::YNegative => 2,
        Axis::YPositive => 3,
        Axis::ZNegative => 4,
        Axis::ZPositive => 5,
    }
}

/// The unit step from a voxel to its neighbour in direction `d`.
pub open spec fn dir_offset(d: int) -> (int, int, int) {
    if d == 0 {
        (-1, 0, 0)
    } else if d == 1 {
        (1, 0, 0)
    } else if d == 2 {
        (0, -1, 0)
    } else if d == 3 {
        (0, 1, 0)
    } else if d == 4 {
        (0, 0, -1)
    } else {
        (0, 0, 1)
    }
}

/// The side of a voxel a face lies on.
#[derive(Debug, Clone, Copy, PartialEq, Eq, Structural)]
pub struct Side {
    pub axis: Axis,
}

impl Side {
    pub fn new(axis: Axis) -> (r: Side)
        ensures
            r.axis == axis,
    {
        Side { axis }
    }

    /// The side for direction index `d` (X-, X+, Y-, Y+, Z-, Z+).
    pub fn from_index(d: usize) -> (r: Side)
        requires
            d < 6,
        ensures
            axis_index(r.axis) == d,
    {
        if d == 0 {
            Side::new(Axis::XNegative)
        } else if d == 1 {
            Side::new(Axis::XPositive)
        } else if d == 2 {
            Side::new(Axis::YNegative)
        } else if d == 3 {
            Side::new(Axis::YPositive)
        } else if d == 4 {
            Side::new(Axis::ZNegative)
        } else {
            Side::new(Axis::ZPositive)
        }
    }

    /// The outward unit normal of this side.
    pub fn normal(&self) -> (r: [i32; 3])
        ensures
            (r[0] as int, r[1] as int, r[2] as int) == dir_offset(axis_index(self.axis)),
    {
        match self.axis {
            Axis::XPositive => [1, 0, 0],
            Axis::XNegative => [-1, 0, 0],
            Axis::YPositive => [0, 1, 0],
            Axis::YNegative => [0, -1, 0],
            Axis::ZPositive => [0, 0, 1],
            Axis::ZNegative => [0, 0, -1],
        }
    }

    /// The normal once for each of the four vertices of a face.
    pub fn normals(&self) -> (r: [[i32; 3]; 4])
        ensures
            forall|j: int|
                0 <= j < 4 ==> (#[trigger] r[j][0] as int, r[j][1] as int, r[j][2] as int)
                    == dir_offset(axis_index(self.axis)),
    {
        let n = self.normal();
        [n, n, n, n]
    }
}

/// A rectangle of faces whose first voxel is `voxel`, `width` cells along
/// the first in-plane axis and `height` along the second.
#[derive(Debug, Clone, Copy)]
pub struct Quad {
    pub voxel: [usize; 3],
    pub width: u32,
    pub height: u32,
}

/// Whether `q` is the single face of the voxel at `p`.
pub open spec fn unit_quad_at(q: Quad, p: (int, int, int)) -> bool {
    q.voxel[0] == p.0 && q.voxel[1] == p.1 && q.voxel[2] == p.2 && q.width == 1 && q.height == 1
}

/// Quads grouped by the direction they face (X-, X+, Y-, Y+, Z-, Z+).
pub struct QuadGroups {
    pub groups: [Vec<Quad>; 6],
}

/// Whether `(x, y, z)` lies strictly inside the extent of `c`.
pub open spec fn interior<C: Chunk>(c: &C, x: int, y: int, z: int) -> bool {
    0 < x < c.extent().0 - 1 && 0 < y < c.extent().1 - 1 && 0 < z < c.extent().2 - 1
}

/// Whether the voxel at `p` shows its face in direction `d`.
pub open spec fn shows_face<C: Chunk>(c: &C, d: int, p: (int, int, int)) -> bool {
    let o = dir_offset(d);
    interior(c, p.0, p.1, p.2) && face_visible(
        c.voxel_at(p.0, p.1, p.2),
        c.voxel_at(p.0 + o.0, p.1 + o.1, p.2 + o.2),
    )
}

/// The `i`-th position of a scan over `c` with x outermost and z innermost.
pub open spec fn scan_pos<C: Chunk>(c: &C, i: int) -> (int, int, int) {
    let ey = c.extent().1 as int;
    let ez = c.extent().2 as int;
    (i / (ey * ez), (i / ez) % ey, i % ez)
}

/// Number of positions in the extent of `c`.
pub open spec fn volume<C: Chunk>(c: &C) -> int {
    (c.extent().0 * c.extent().1 * c.extent().2) as int
}

/// The voxels among the first `n` of the scan that show a face in
/// direction `d`, in scan order.
pub open spec fn visible_faces<C: Chunk>(c: &C, d: int, n: nat) -> Seq<(int, int, int)>
    decreases n,
{
    if n == 0 {
        seq![]
    } else {
        let prev = visible_faces(c, d, (n - 1) as nat);
        let p = scan_pos(c, n - 1);
        if shows_face(c, d, p) {
            prev.push(p)
        } else {
            prev
        }
    }
}

/// Everything face culling emits in direction `d`: each voxel strictly
/// inside `c` whose face in that direction is visible, in scan order.
pub open spec fn culled_faces<C: Chunk>(c: &C, d: int) -> Seq<(int, int, int)> {
    visible_faces(c, d, volume(c) as nat)
}

/// Whether `quads` holds exactly one unit quad for each position of `faces`,
/// in the same order.
pub open spec fn quads_match(quads: Seq<Quad>, faces: Seq<(int, int, int)>) -> bool {
    quads.len() == faces.len() && forall|i: int|
        0 <= i < quads.len() ==> unit_quad_at(#[trigger] quads[i], faces[i])
}

pub open spec fn extents_ok<C: Chunk>(c: &C) -> bool {
    c.extent().0 >= 2 && c.extent().1 >= 2 && c.extent().2 >= 2 && volume(c) <= usize::MAX
}

proof fn lemma_scan_pos_in_range<C: Chunk>(c: &C, i: int)
    requires
        extents_ok(c),
        0 <= i < volume(c),
    ensures
        0 <= scan_pos(c, i).0 < c.extent().0,
        0 <= scan_pos(c, i).1 < c.extent().1,
        0 <= scan_pos(c, i).2 < c.extent().2,
{
    let ex = c.extent().0 as int;
    let ey = c.extent().1 as int;
    let ez = c.extent().2 as int;
    assert(ey * ez > 0) by (nonlinear_arith)
        requires
            ey >= 2,
            ez >= 2,
    ;
    assert((ey * ez) * ex == ex * ey * ez) by (nonlinear_arith);
    vstd::arithmetic::div_mod::lemma_multiply_divide_lt(i, ey * ez, ex);
    assert(i / (ey * ez) >= 0) by (nonlinear_arith)
        requires
            0 <= i,
            ey * ez > 0,
    ;
    vstd::arithmetic::div_mod::lemma_mod_bound(i / ez, ey);
    vstd::arithmetic::div_mod::lemma_mod_bound(i, ez);
    assert(i / ez >= 0) by (nonlinear_arith)
        requires
            0 <= i,
            ez > 0,
    ;
}

/// Collects the faces of `chunk` that point in direction `d`.
fn faces_in_direction<C: Chunk>(chunk: &C, d: usize) -> (r: Vec<Quad>)
    requires
        d < 6,
        extents_ok(chunk),
    ensures
        quads_match(r@, culled_faces(chunk, d as int)),
{
    let (ex, ey, ez) = chunk.extents();
    let ex = ex as usize;
    let ey = ey as usize;
    let ez = ez as usize;
    proof {
        assert(ey * ez <= ex * ey * ez && ex * (ey * ez) == ex * ey * ez && ey * ez >= 4)
            by (nonlinear_arith)
            requires
                ex >= 2,
                ey >= 2,
                ez >= 2,
        ;
    }
    let plane = ey * ez;
    let total = ex * plane;
    proof {
        assert(total == volume(chunk)) by (nonlinear_arith)
            requires
                total == ex * (ey * ez),
                volume(chunk) == ex * ey * ez,
        ;
    }
    let mut out: Vec<Quad> = Vec::new();
    let mut idx: usize = 0;
    while idx < total
        invariant
            d < 6,
            extents_ok(chunk),
            ex == chunk.extent().0,
            ey == chunk.extent().1,
            ez == chunk.extent().2,
            plane == ey * ez,
            plane > 0,
            ex <= u32::MAX,
            ey <= u32::MAX,
            ez <= u32::MAX,
            total == volume(chunk),
            idx <= total,
            quads_match(out@, visible_faces(chunk, d as int, idx as nat)),
        decreases total - idx,
    {
        proof {
            lemma_scan_pos_in_range(chunk, idx as int);
        }
        let x = idx / plane;
        let y = (idx / ez) % ey;
        let z = idx % ez;
        let ghost p = scan_pos(chunk, idx as int);
        assert((x as int, y as int, z as int) == p);
        assert(visible_faces(chunk, d as int, (idx + 1) as nat) == if shows_face(
            chunk,
            d as int,
            p,
        ) {
            visible_faces(chunk, d as int, idx as nat).push(p)
        } else {
            visible_faces(chunk, d as int, idx as nat)
        });
        if x > 0 && x < ex - 1 && y > 0 && y < ey - 1 && z > 0 && z < ez - 1 {
            let voxel = chunk.get(x as u32, y as u32, z as u32);
            let (nx, ny, nz) = if d == 0 {
                (x - 1, y, z)
            } else if d == 1 {
                (x + 1, y, z)
            } else if d == 2 {
                (x, y - 1, z)
            } else if d == 3 {
                (x, y + 1, z)
            } else if d == 4 {
                (x, y, z - 1)
            } else {
                (x, y, z + 1)
            };
            let neighbor = chunk.get(nx as u32, ny as u32, nz as u32);
            if emits_face(voxel, neighbor) {
                out.push(Quad { voxel: [x, y, z], width: 1, height: 1 });
            }
        }
        idx = idx + 1;
    }
    out
}

/// The face-culling mesh of `chunk`: for each direction, one unit quad per
/// voxel strictly inside the extent whose face that way is visible.
pub fn generate_mesh<C: Chunk>(chunk: &C) -> (r: QuadGroups)
    requires
        extents_ok(chunk),
    ensures
        forall|d: int| 0 <= d < 6 ==> quads_match(#[trigger] r.groups[d]@, culled_faces(chunk, d)),
        forall|d: int| 0 <= d < 6 ==> one_quad_per_face(chunk, d, #[trigger] r.groups[d]@),
{
    let mut buffer = QuadGroups::new();
    generate_mesh_buffer(chunk, &mut buffer);
    buffer
}

/// Replaces the contents of `buffer` with the face-culling mesh of `chunk`.
pub fn generate_mesh_buffer<C: Chunk>(chunk: &C, buffer: &mut QuadGroups)
    requires
        extents_ok(chunk),
    ensures
        forall|d: int|
            0 <= d < 6 ==> quads_match(#[trigger] final(buffer).groups[d]@, culled_faces(chunk, d)),
        forall|d: int| 0 <= d < 6 ==> one_quad_per_face(chunk, d, #[trigger] final(buffer).groups[d]@),
{
    let g0 = faces_in_direction(chunk, 0);
    let g1 = faces_in_direction(chunk, 1);
    let g2 = faces_in_direction(chunk, 2);
    let g3 = faces_in_direction(chunk, 3);
    let g4 = faces_in_direction(chunk, 4);
    let g5 = faces_in_direction(chunk, 5);
    buffer.groups = [g0, g1, g2, g3, g4, g5];
    proof {
        assert forall|d: int| 0 <= d < 6 implies one_quad_per_face(chunk, d, #[trigger] buffer.groups[d]@) by {
            lemma_one_quad_per_face(chunk, d, buffer.groups[d]@);
        }
    }
}

impl QuadGroups {
    /// Six empty groups.
    pub fn new() -> (r: QuadGroups)
        ensures
            forall|d: int| 0 <= d < 6 ==> (#[trigger] r.groups[d]@).len() == 0,
    {
        QuadGroups { groups: [Vec::new(), Vec::new(), Vec::new(), Vec::new(), Vec::new(), Vec::new()] }
    }

    /// Empties every group.
    pub fn clear(&mut self)
        ensures
            forall|d: int| 0 <= d < 6 ==> (#[trigger] final(self).groups[d]@).len() == 0,
    {
        self.groups = [Vec::new(), Vec::new(), Vec::new(), Vec::new(), Vec::new(), Vec::new()];
    }
}

proof fn lemma_visible_faces_shown<C: Chunk>(c: &C, d: int, n: nat)
    ensures
        forall|i: int|
            0 <= i < visible_faces(c, d, n).len() ==> shows_face(
                c,
                d,
                #[trigger] visible_faces(c, d, n)[i],
            ),
        visible_faces(c, d, n).len() <= n,
    decreases n,
{
    if n > 0 {
        lemma_visible_faces_shown(c, d, (n - 1) as nat);
    }
}

/// Face culling over a cube whose interior is all empty emits no face in
/// any direction.
pub proof fn lemma_empty_interior_no_faces<C: Chunk>(c: &C)
    requires
        forall|x: int, y: int, z: int|
            interior(c, x, y, z) ==> #[trigger] c.voxel_at(x, y, z) == VoxelType::Empty,
    ensures
        forall|d: int| 0 <= d < 6 ==> (#[trigger] culled_faces(c, d)).len() == 0,
{
    assert forall|d: int| 0 <= d < 6 implies (#[trigger] culled_faces(c, d)).len() == 0 by {
        lemma_visible_faces_shown(c, d, volume(c) as nat);
        if culled_faces(c, d).len() > 0 {
            let p = culled_faces(c, d)[0];
            assert(shows_face(c, d, p));
            assert(c.voxel_at(p.0, p.1, p.2) == VoxelType::Empty);
        }
    }
}

/// A voxel whose six direct neighbours are all opaque gets no face from
/// face culling, in any direction.
pub proof fn lemma_enclosed_voxel_no_faces<C: Chunk>(c: &C, p: (int, int, int))
    requires
        forall|d: int|
            0 <= d < 6 ==> (#[trigger] c.voxel_at(
                p.0 + dir_offset(d).0,
                p.1 + dir_offset(d).1,
                p.2 + dir_offset(d).2,
            )).spec_visibility() == Visibility::Opaque,
    ensures
        forall|d: int, i: int|
            0 <= d < 6 && 0 <= i < culled_faces(c, d).len() ==> #[trigger] culled_faces(c, d)[i]
                != p,
{
    assert forall|d: int, i: int|
        0 <= d < 6 && 0 <= i < culled_faces(c, d).len() implies #[trigger] culled_faces(c, d)[i]
        != p by {
        lemma_visible_faces_shown(c, d, volume(c) as nat);
        let o = dir_offset(d);
        assert(c.voxel_at(p.0 + o.0, p.1 + o.1, p.2 + o.2).spec_visibility()
            == Visibility::Opaque);
    }
}

/// Corner `j` of the unit face template for direction `d`.
pub open spec fn corner(d: int, j: int) -> (int, int, int) {
    if d == 0 {
        if j == 0 { (0, 0, 1) } else if j == 1 { (0, 0, 0) } else if j == 2 { (0, 1, 1) } else { (0, 1, 0) }
    } else if d == 1 {
        if j == 0 { (1, 0, 0) } else if j == 1 { (1, 0, 1) } else if j == 2 { (1, 1, 0) } else { (1, 1, 1) }
    } else if d == 2 {
        if j == 0 { (0, 0, 1) } else if j == 1 { (1, 0, 1) } else if j == 2 { (0, 0, 0) } else { (1, 0, 0) }
    } else if d == 3 {
        if j == 0 { (0, 1, 1) } else if j == 1 { (0, 1, 0) } else if j == 2 { (1, 1, 1) } else { (1, 1, 0) }
    } else if d == 4 {
        if j == 0 { (0, 0, 0) } else if j == 1 { (1, 0, 0) } else if j == 2 { (0, 1, 0) } else { (1, 1, 0) }
    } else {
        if j == 0 { (1, 0, 1) } else if j == 1 { (0, 0, 1) } else if j == 2 { (1, 1, 1) } else { (0, 1, 1) }
    }
}

/// Texture coordinate of vertex `j` for the given flips.
pub open spec fn uv(flip_u: bool, flip_v: bool, j: int) -> (int, int) {
    let u = if j == 0 || j == 2 { 0int } else { 1int };
    let v = if j == 0 || j == 1 { 0int } else { 1int };
    (if flip_u { 1 - u } else { u }, if flip_v { 1 - v } else { v })
}

/// The two triangles of a face whose first vertex is `start`.
pub open spec fn fan_indices(start: int) -> Seq<int> {
    seq![start, start + 2, start + 1, start + 1, start + 2, start + 3]
}

/// One face of a voxel, ready to be turned into geometry.
#[derive(Debug, Clone, Copy)]
pub struct Face {
    pub side: Side,
    pub quad: Quad,
}

impl Face {
    /// Vertex indices of the face's two triangles, its vertices starting
    /// at `start`.
    pub fn indices(&self, start: u32) -> (r: [u32; 6])
        requires
            start + 3 <= u32::MAX,
        ensures
            forall|j: int| 0 <= j < 6 ==> #[trigger] r[j] as int == fan_indices(start as int)[j],
    {
        [start, start + 2, start + 1, start + 1, start + 2, start + 3]
    }

    /// The four vertex positions, in units of `voxel_size`, of a face of a
    /// bordered cube: the border is left out, so interior voxel 1 sits at 0.
    pub fn positions(&self, voxel_size: u32) -> (r: [[u64; 3]; 4])
        requires
            1 <= self.quad.voxel[0] && 1 <= self.quad.voxel[1] && 1 <= self.quad.voxel[2],
            self.quad.voxel[0] * voxel_size <= u64::MAX,
            self.quad.voxel[1] * voxel_size <= u64::MAX,
            self.quad.voxel[2] * voxel_size <= u64::MAX,
        ensures
            forall|j: int|
                0 <= j < 4 ==> {
                    let c = corner(axis_index(self.side.axis), j);
                    &&& #[trigger] r[j][0] == (self.quad.voxel[0] - 1 + c.0) * voxel_size
                    &&& r[j][1] == (self.quad.voxel[1] - 1 + c.1) * voxel_size
                    &&& r[j][2] == (self.quad.voxel[2] - 1 + c.2) * voxel_size
                },
    {
        let t = self.corners();
        let x = self.quad.voxel[0] as u64 - 1;
        let y = self.quad.voxel[1] as u64 - 1;
        let z = self.quad.voxel[2] as u64 - 1;
        let s = voxel_size as u64;
        proof {
            assert forall|j: int, i: int| 0 <= j < 4 && 0 <= i < 3 implies (self.quad.voxel[i] - 1
                + #[trigger] t[j][i]) * s <= u64::MAX by {
                assert(t[j][i] <= 1);
                assert((self.quad.voxel[i] - 1 + t[j][i]) * s <= self.quad.voxel[i] * s)
                    by (nonlinear_arith)
                    requires
                        t[j][i] <= 1,
                        self.quad.voxel[i] >= 1,
                ;
            }
        }
        [
            [(x + t[0][0] as u64) * s, (y + t[0][1] as u64) * s, (z + t[0][2] as u64) * s],
            [(x + t[1][0] as u64) * s, (y + t[1][1] as u64) * s, (z + t[1][2] as u64) * s],
            [(x + t[2][0] as u64) * s, (y + t[2][1] as u64) * s, (z + t[2][2] as u64) * s],
            [(x + t[3][0] as u64) * s, (y + t[3][1] as u64) * s, (z + t[3][2] as u64) * s],
        ]
    }

    /// The unit face template of this face's side.
    pub fn corners(&self) -> (r: [[u32; 3]; 4])
        ensures
            forall|j: int|
                0 <= j < 4 ==> (#[trigger] r[j][0] as int, r[j][1] as int, r[j][2] as int)
                    == corner(axis_index(self.side.axis), j),
            forall|j: int, i: int| 0 <= j < 4 && 0 <= i < 3 ==> #[trigger] r[j][i] <= 1,
    {
        match self.side.axis {
            Axis::XNegative => [[0, 0, 1], [0, 0, 0], [0, 1, 1], [0, 1, 0]],
            Axis::XPositive => [[1, 0, 0], [1, 0, 1], [1, 1, 0], [1, 1, 1]],
            Axis::YNegative => [[0, 0, 1], [1, 0, 1], [0, 0, 0], [1, 0, 0]],
            Axis::YPositive => [[0, 1, 1], [0, 1, 0], [1, 1, 1], [1, 1, 0]],
            Axis::ZNegative => [[0, 0, 0], [1, 0, 0], [0, 1, 0], [1, 1, 0]],
            Axis::ZPositive => [[1, 0, 1], [0, 0, 1], [1, 1, 1], [0, 1, 1]],
        }
    }

    /// The face normal once for each vertex.
    pub fn normals(&self) -> (r: [[i32; 3]; 4])
        ensures
            forall|j: int|
                0 <= j < 4 ==> (#[trigger] r[j][0] as int, r[j][1] as int, r[j][2] as int)
                    == dir_offset(axis_index(self.side.axis)),
    {
        self.side.normals()
    }

    /// Texture coordinates of the four vertices, mirrored as asked.
    pub fn uvs(&self, flip_u: bool, flip_v: bool) -> (r: [[u32; 2]; 4])
        ensures
            forall|j: int|
                0 <= j < 4 ==> (#[trigger] r[j][0] as int, r[j][1] as int) == uv(flip_u, flip_v, j),
    {
        match (flip_u, flip_v) {
            (true, true) => [[1, 1], [0, 1], [1, 0], [0, 0]],
            (true, false) => [[1, 0], [0, 0], [1, 1], [0, 1]],
            (false, true) => [[0, 1], [1, 1], [0, 0], [1, 0]],
            (false, false) => [[0, 0], [1, 0], [0, 1], [1, 1]],
        }
    }

    pub fn voxel(&self) -> (r: [usize; 3])
        ensures
            r == self.quad.voxel,
    {
        self.quad.voxel
    }
}

/// Ambient occlusion level of a face corner from its two side cells and
/// its corner cell: 0 is darkest, 3 is unoccluded.
pub open spec fn spec_ao_value(side1: bool, corner: bool, side2: bool) -> u32 {
    if side1 && side2 {
        0
    } else if (side1 && corner && !side2) || (!side1 && corner && side2) {
        1
    } else if !side1 && !corner && !side2 {
        3
    } else {
        2
    }
}

/// The four corner levels from the eight cells around a face, taken in
/// order round the face.
pub open spec fn spec_side_aos(ns: Seq<bool>) -> Seq<u32> {
    seq![
        spec_ao_value(ns[0], ns[1], ns[2]),
        spec_ao_value(ns[2], ns[3], ns[4]),
        spec_ao_value(ns[6], ns[7], ns[0]),
        spec_ao_value(ns[4], ns[5], ns[6]),
    ]
}

pub open spec fn is_opaque(v: VoxelType) -> bool {
    v.spec_visibility() == Visibility::Opaque
}

/// Occlusion level of one face corner.
pub fn ao_value(side1: bool, corner: bool, side2: bool) -> (r: u32)
    ensures
        r == spec_ao_value(side1, corner, side2),
{
    match (side1, corner, side2) {
        (true, _, true) => 0,
        (true, true, false) | (false, true, true) => 1,
        (false, false, false) => 3,
        _ => 2,
    }
}

/// The four corner levels of a face from the eight cells around it.
pub fn side_aos(neighbors: [VoxelType; 8]) -> (r: [u32; 4])
    ensures
        r@ == spec_side_aos(neighbors@.map_values(|v: VoxelType| is_opaque(v))),
{
    let ns = [
        neighbors[0].visibility() == Visibility::Opaque,
        neighbors[1].visibility() == Visibility::Opaque,
        neighbors[2].visibility() == Visibility::Opaque,
        neighbors[3].visibility() == Visibility::Opaque,
        neighbors[4].visibility() == Visibility::Opaque,
        neighbors[5].visibility() == Visibility::Opaque,
        neighbors[6].visibility() == Visibility::Opaque,
        neighbors[7].visibility() == Visibility::Opaque,
    ];
    let r = [
        ao_value(ns[0], ns[1], ns[2]),
        ao_value(ns[2], ns[3], ns[4]),
        ao_value(ns[6], ns[7], ns[0]),
        ao_value(ns[4], ns[5], ns[6]),
    ];
    assert(r@ =~= spec_side_aos(neighbors@.map_values(|v: VoxelType| is_opaque(v))));
    r
}

/// The eight cells sampled around a face in direction `d`, as offsets
/// from its voxel, going round the face.
pub open spec fn ao_offsets(d: int) -> Seq<(int, int, int)> {
    if d == 0 {
        seq![(-1, 0, 1), (-1, -1, 1), (-1, -1, 0), (-1, -1, -1), (-1, 0, -1), (-1, 1, -1), (-1, 1, 0), (-1, 1, 1)]
    } else if d == 1 {
        seq![(1, 0, -1), (1, -1, -1), (1, -1, 0), (1, -1, 1), (1, 0, 1), (1, 1, 1), (1, 1, 0), (1, 1, -1)]
    } else if d == 2 {
        seq![(-1, -1, 0), (-1, -1, 1), (0, -1, 1), (1, -1, 1), (1, -1, 0), (1, -1, -1), (0, -1, -1), (-1, -1, -1)]
    } else if d == 3 {
        seq![(0, 1, 1), (-1, 1, 1), (-1, 1, 0), (-1, 1, -1), (0, 1, -1), (1, 1, -1), (1, 1, 0), (1, 1, 1)]
    } else if d == 4 {
        seq![(-1, 0, -1), (-1, -1, -1), (0, -1, -1), (1, -1, -1), (1, 0, -1), (1, 1, -1), (0, 1, -1), (-1, 1, -1)]
    } else {
        seq![(1, 0, 1), (1, -1, 1), (0, -1, 1), (-1, -1, 1), (-1, 0, 1), (-1, 1, 1), (0, 1, 1), (1, 1, 1)]
    }
}

/// Which of the cells around the face of the voxel at `p` in direction `d`
/// are opaque.
pub open spec fn ao_samples<C: Chunk>(c: &C, d: int, p: (int, int, int)) -> Seq<bool> {
    ao_offsets(d).map_values(
        |o: (int, int, int)| is_opaque(c.voxel_at(p.0 + o.0, p.1 + o.1, p.2 + o.2)),
    )
}

/// The occlusion levels of the four corners of `face`.
pub fn face_aos<C: Chunk>(face: &Face, chunk: &C) -> (r: [u32; 4])
    requires
        interior(chunk, face.quad.voxel[0] as int, face.quad.voxel[1] as int, face.quad.voxel[2] as int),
        chunk.extent().0 <= u32::MAX,
        chunk.extent().1 <= u32::MAX,
        chunk.extent().2 <= u32::MAX,
    ensures
        r@ == spec_side_aos(
            ao_samples(
                chunk,
                axis_index(face.side.axis),
                (face.quad.voxel[0] as int, face.quad.voxel[1] as int, face.quad.voxel[2] as int),
            ),
        ),
{
    let v = face.voxel();
    let x = v[0] as u32;
    let y = v[1] as u32;
    let z = v[2] as u32;
    let ghost d = axis_index(face.side.axis);
    let ghost p = (v[0] as int, v[1] as int, v[2] as int);
    match face.side.axis {
        Axis::XNegative => {
            let n = [
                chunk.get(x - 1, y, z + 1),
                chunk.get(x - 1, y - 1, z + 1),
                chunk.get(x - 1, y - 1, z),
                chunk.get(x - 1, y - 1, z - 1),
                chunk.get(x - 1, y, z - 1),
                chunk.get(x - 1, y + 1, z - 1),
                chunk.get(x - 1, y + 1, z),
                chunk.get(x - 1, y + 1, z + 1),
            ];
            assert(n@.map_values(|v: VoxelType| is_opaque(v)) =~= ao_samples(chunk, d, p));
            side_aos(n)
        }
        Axis::XPositive => {
            let n = [
                chunk.get(x + 1, y, z - 1),
                chunk.get(x + 1, y - 1, z - 1),
                chunk.get(x + 1, y - 1, z),
                chunk.get(x + 1, y - 1, z + 1),
                chunk.get(x + 1, y, z + 1),
                chunk.get(x + 1, y + 1, z + 1),
                chunk.get(x + 1, y + 1, z),
                chunk.get(x + 1, y + 1, z - 1),
            ];
            assert(n@.map_values(|v: VoxelType| is_opaque(v)) =~= ao_samples(chunk, d, p));
            side_aos(n)
        }
        Axis::YNegative => {
            let n = [
                chunk.get(x - 1, y - 1, z),
                chunk.get(x - 1, y - 1, z + 1),
                chunk.get(x, y - 1, z + 1),
                chunk.get(x + 1, y - 1, z + 1),
                chunk.get(x + 1, y - 1, z),
                chunk.get(x + 1, y - 1, z - 1),
                chunk.get(x, y - 1, z - 1),
                chunk.get(x - 1, y - 1, z - 1),
            ];
            assert(n@.map_values(|v: VoxelType| is_opaque(v)) =~= ao_samples(chunk, d, p));
            side_aos(n)
        }
        Axis::YPositive => {
            let n = [
                chunk.get(x, y + 1, z + 1),
                chunk.get(x - 1, y + 1, z + 1),
                chunk.get(x - 1, y + 1, z),
                chunk.get(x - 1, y + 1, z - 1),
                chunk.get(x, y + 1, z - 1),
                chunk.get(x + 1, y + 1, z - 1),
                chunk.get(x + 1, y + 1, z),
                chunk.get(x + 1, y + 1, z + 1),
            ];
            assert(n@.map_values(|v: VoxelType| is_opaque(v)) =~= ao_samples(chunk, d, p));
            side_aos(n)
        }
        Axis::ZNegative => {
            let n = [
                chunk.get(x - 1, y, z - 1),
                chunk.get(x - 1, y - 1, z - 1),
                chunk.get(x, y - 1, z - 1),
                chunk.get(x + 1, y - 1, z - 1),
                chunk.get(x + 1, y, z - 1),
                chunk.get(x + 1, y + 1, z - 1),
                chunk.get(x, y + 1, z - 1),
                chunk.get(x - 1, y + 1, z - 1),
            ];
            assert(n@.map_values(|v: VoxelType| is_opaque(v)) =~= ao_samples(chunk, d, p));
            side_aos(n)
        }
        Axis::ZPositive => {
            let n = [
                chunk.get(x + 1, y, z + 1),
                chunk.get(x + 1, y - 1, z + 1),
                chunk.get(x, y - 1, z + 1),
                chunk.get(x - 1, y - 1, z + 1),
                chunk.get(x - 1, y, z + 1),
                chunk.get(x - 1, y + 1, z + 1),
                chunk.get(x, y + 1, z + 1),
                chunk.get(x + 1, y + 1, z + 1),
            ];
            assert(n@.map_values(|v: VoxelType| is_opaque(v)) =~= ao_samples(chunk, d, p));
            side_aos(n)
        }
    }
}

/// A face together with the occlusion levels of its corners.
pub struct FaceWithAO {
    face: Face,
    aos: [u32; 4],
}

/// The two triangles of a face whose first vertex is `start`, split along
/// the diagonal that keeps the occlusion shading smooth.
pub open spec fn ao_indices(aos: Seq<u32>, start: int) -> Seq<int> {
    if aos[1] + aos[2] > aos[0] + aos[3] {
        seq![start, start + 2, start + 1, start + 1, start + 2, start + 3]
    } else {
        seq![start, start + 3, start + 1, start, start + 2, start + 3]
    }
}

impl FaceWithAO {
    pub closed spec fn spec_face(&self) -> Face {
        self.face
    }

    pub closed spec fn spec_aos(&self) -> Seq<u32> {
        self.aos@
    }

    /// Samples the cells around `face` in `chunk`.
    pub fn new<C: Chunk>(face: Face, chunk: &C) -> (r: FaceWithAO)
        requires
            interior(chunk, face.quad.voxel[0] as int, face.quad.voxel[1] as int, face.quad.voxel[2] as int),
            chunk.extent().0 <= u32::MAX,
            chunk.extent().1 <= u32::MAX,
            chunk.extent().2 <= u32::MAX,
        ensures
            r.spec_face() == face,
            r.spec_aos() == spec_side_aos(
                ao_samples(
                    chunk,
                    axis_index(face.side.axis),
                    (face.quad.voxel[0] as int, face.quad.voxel[1] as int, face.quad.voxel[2] as int),
                ),
            ),
    {
        let aos = face_aos(&face, chunk);
        FaceWithAO { face, aos }
    }

    pub fn face(&self) -> (r: Face)
        ensures
            r == self.spec_face(),
    {
        self.face
    }

    pub fn aos(&self) -> (r: [u32; 4])
        ensures
            r@ == self.spec_aos(),
    {
        self.aos
    }

    /// Vertex indices of the face's two triangles, its vertices starting at
    /// `start`.
    pub fn indices(&self, start: u32) -> (r: [u32; 6])
        requires
            start + 3 <= u32::MAX,
        ensures
            forall|j: int| 0 <= j < 6 ==> #[trigger] r[j] as int == ao_indices(self.spec_aos(), start as int)[j],
    {
        let aos = self.aos;
        if (aos[1] as u64 + aos[2] as u64) > (aos[0] as u64 + aos[3] as u64) {
            [start, start + 2, start + 1, start + 1, start + 2, start + 3]
        } else {
            [start, start + 3, start + 1, start, start + 2, start + 3]
        }
    }
}


/// The quads of `g` in directions below `d`, direction by direction, each
/// with its direction index.
pub open spec fn flat_faces(g: &QuadGroups, d: nat) -> Seq<(int, Quad)>
    decreases d,
{
    if d == 0 {
        seq![]
    } else {
        flat_faces(g, (d - 1) as nat) + g.groups[d - 1]@.map_values(|q: Quad| ((d - 1) as int, q))
    }
}

/// Whether `faces` lists exactly the entries of `f`, in order.
pub open spec fn faces_match(faces: Seq<Face>, f: Seq<(int, Quad)>) -> bool {
    faces.len() == f.len() && forall|k: int|
        0 <= k < faces.len() ==> axis_index((#[trigger] faces[k]).side.axis) == f[k].0
            && faces[k].quad == f[k].1
}

/// The faces culling emits in directions below `d`, direction by
/// direction, each with its direction index.
pub open spec fn mesh_faces_upto<C: Chunk>(c: &C, d: nat) -> Seq<(int, (int, int, int))>
    decreases d,
{
    if d == 0 {
        seq![]
    } else {
        mesh_faces_upto(c, (d - 1) as nat) + culled_faces(c, d - 1).map_values(
            |p: (int, int, int)| ((d - 1) as int, p),
        )
    }
}

/// Every face of the face-culling mesh of `c`, in output order.
pub open spec fn mesh_faces<C: Chunk>(c: &C) -> Seq<(int, (int, int, int))> {
    mesh_faces_upto(c, 6)
}

proof fn lemma_flat_matches<C: Chunk>(g: &QuadGroups, c: &C, d: nat)
    requires
        d <= 6,
        forall|dd: int| 0 <= dd < 6 ==> quads_match(#[trigger] g.groups[dd]@, culled_faces(c, dd)),
    ensures
        flat_faces(g, d).len() == mesh_faces_upto(c, d).len(),
        forall|k: int|
            0 <= k < flat_faces(g, d).len() ==> (#[trigger] flat_faces(g, d)[k]).0 == mesh_faces_upto(
                c,
                d,
            )[k].0 && unit_quad_at(flat_faces(g, d)[k].1, mesh_faces_upto(c, d)[k].1),
        mesh_faces_upto(c, d).len() <= d * volume(c),
    decreases d,
{
    if d > 0 {
        lemma_flat_matches(g, c, (d - 1) as nat);
        lemma_visible_faces_shown(c, d - 1, volume(c) as nat);
        let dd = d - 1;
        assert(quads_match(g.groups[dd]@, culled_faces(c, dd)));
        assert((d - 1) * volume(c) + volume(c) == d * volume(c)) by (nonlinear_arith);
    }
}

proof fn lemma_mesh_faces_interior<C: Chunk>(c: &C, d: nat)
    requires
        d <= 6,
    ensures
        forall|k: int|
            0 <= k < mesh_faces_upto(c, d).len() ==> 0 <= (#[trigger] mesh_faces_upto(c, d)[k]).0 < 6
                && shows_face(c, mesh_faces_upto(c, d)[k].0, mesh_faces_upto(c, d)[k].1),
    decreases d,
{
    if d > 0 {
        lemma_mesh_faces_interior(c, (d - 1) as nat);
        lemma_visible_faces_shown(c, d - 1, volume(c) as nat);
        let prev = mesh_faces_upto(c, (d - 1) as nat);
        let cur = culled_faces(c, d - 1);
        assert forall|k: int| 0 <= k < mesh_faces_upto(c, d).len() implies 0 <= (
        #[trigger] mesh_faces_upto(c, d)[k]).0 < 6 && shows_face(
            c,
            mesh_faces_upto(c, d)[k].0,
            mesh_faces_upto(c, d)[k].1,
        ) by {
            if k < prev.len() {
                assert(mesh_faces_upto(c, d)[k] == prev[k]);
            } else {
                assert(mesh_faces_upto(c, d)[k] == (d - 1, cur[k - prev.len()]));
            }
        }
    }
}

impl QuadGroups {
    /// Every quad as a face, direction by direction (X-, X+, Y-, Y+, Z-,
    /// Z+), in the order of each group.
    pub fn iter(&self) -> (r: Vec<Face>)
        ensures
            faces_match(r@, flat_faces(self, 6)),
    {
        let mut out: Vec<Face> = Vec::new();
        let mut d: usize = 0;
        while d < 6
            invariant
                d <= 6,
                faces_match(out@, flat_faces(self, d as nat)),
            decreases 6 - d,
        {
            let group = &self.groups[d];
            let side = Side::from_index(d);
            let mut i: usize = 0;
            let ghost base = flat_faces(self, d as nat);
            while i < group.len()
                invariant
                    d < 6,
                    group == &self.groups[d as int],
                    axis_index(side.axis) == d,
                    base == flat_faces(self, d as nat),
                    i <= group.len(),
                    faces_match(
                        out@,
                        base + group@.take(i as int).map_values(|q: Quad| (d as int, q)),
                    ),
                decreases group.len() - i,
            {
                out.push(Face { side, quad: group[i] });
                proof {
                    assert(group@.take(i + 1).map_values(|q: Quad| (d as int, q)) =~= group@.take(
                        i as int,
                    ).map_values(|q: Quad| (d as int, q)).push((d as int, group@[i as int])));
                }
                i = i + 1;
            }
            proof {
                assert(group@.take(i as int) =~= group@);
            }
            d = d + 1;
        }
        out
    }

    /// Every quad as a face with the occlusion levels of its corners,
    /// in the order of `iter`.
    pub fn iter_with_ao<C: Chunk>(&self, chunk: &C) -> (r: Vec<FaceWithAO>)
        requires
            forall|k: int|
                0 <= k < flat_faces(self, 6).len() ==> interior(
                    chunk,
                    (#[trigger] flat_faces(self, 6)[k]).1.voxel[0] as int,
                    flat_faces(self, 6)[k].1.voxel[1] as int,
                    flat_faces(self, 6)[k].1.voxel[2] as int,
                ),
            chunk.extent().0 <= u32::MAX,
            chunk.extent().1 <= u32::MAX,
            chunk.extent().2 <= u32::MAX,
        ensures
            r@.len() == flat_faces(self, 6).len(),
            forall|k: int|
                0 <= k < r@.len() ==> {
                    let f = flat_faces(self, 6)[k];
                    &&& axis_index((#[trigger] r@[k]).spec_face().side.axis) == f.0
                    &&& r@[k].spec_face().quad == f.1
                    &&& r@[k].spec_aos() == spec_side_aos(
                        ao_samples(
                            chunk,
                            f.0,
                            (f.1.voxel[0] as int, f.1.voxel[1] as int, f.1.voxel[2] as int),
                        ),
                    )
                },
    {
        let faces = self.iter();
        let mut out: Vec<FaceWithAO> = Vec::new();
        let mut k: usize = 0;
        while k < faces.len()
            invariant
                faces_match(faces@, flat_faces(self, 6)),
                forall|m: int|
                    0 <= m < flat_faces(self, 6).len() ==> interior(
                        chunk,
                        (#[trigger] flat_faces(self, 6)[m]).1.voxel[0] as int,
                        flat_faces(self, 6)[m].1.voxel[1] as int,
                        flat_faces(self, 6)[m].1.voxel[2] as int,
                    ),
                chunk.extent().0 <= u32::MAX,
                chunk.extent().1 <= u32::MAX,
                chunk.extent().2 <= u32::MAX,
                k <= faces.len(),
                out@.len() == k,
                forall|m: int|
                    0 <= m < k ==> {
                        let f = flat_faces(self, 6)[m];
                        &&& axis_index((#[trigger] out@[m]).spec_face().side.axis) == f.0
                        &&& out@[m].spec_face().quad == f.1
                        &&& out@[m].spec_aos() == spec_side_aos(
                            ao_samples(
                                chunk,
                                f.0,
                                (f.1.voxel[0] as int, f.1.voxel[1] as int, f.1.voxel[2] as int),
                            ),
                        )
                    },
            decreases faces.len() - k,
        {
            let face = faces[k];
            assert(face.quad == flat_faces(self, 6)[k as int].1);
            out.push(FaceWithAO::new(face, chunk));
            k = k + 1;
        }
        out
    }
}


/// Renderable geometry: per vertex a position, normal, texture coordinate
/// and occlusion level, and the triangle list as indices into the vertices.
pub struct MeshData {
    pub positions: Vec<[u64; 3]>,
    pub normals: Vec<[i32; 3]>,
    pub uvs: Vec<[u32; 2]>,
    pub aos: Vec<u32>,
    pub indices: Vec<u32>,
}

/// Position of vertex `j` of face `f`, in voxels, with the border left out.
pub open spec fn vertex_position(f: (int, (int, int, int)), j: int) -> (int, int, int) {
    let c = corner(f.0, j);
    (f.1.0 - 1 + c.0, f.1.1 - 1 + c.1, f.1.2 - 1 + c.2)
}

/// Occlusion levels of the corners of face `f` of `c`.
pub open spec fn corner_aos<C: Chunk>(c: &C, f: (int, (int, int, int))) -> Seq<u32> {
    spec_side_aos(ao_samples(c, f.0, f.1))
}

/// Whether `m` is the geometry of `faces` of `c`: four vertices per face
/// and two triangles over them, faces in order.
pub open spec fn mesh_data_matches<C: Chunk>(
    c: &C,
    m: &MeshData,
    faces: Seq<(int, (int, int, int))>,
) -> bool {
    let n = faces.len();
    &&& m.positions@.len() == 4 * n
    &&& m.normals@.len() == 4 * n
    &&& m.uvs@.len() == 4 * n
    &&& m.aos@.len() == 4 * n
    &&& m.indices@.len() == 6 * n
    &&& forall|i: int|
        0 <= i < 4 * n ==> {
            let f = faces[i / 4];
            &&& (#[trigger] m.positions@[i][0] as int, m.positions@[i][1] as int, m.positions@[i][2] as int)
                == vertex_position(f, i % 4)
            &&& (m.normals@[i][0] as int, m.normals@[i][1] as int, m.normals@[i][2] as int) == dir_offset(f.0)
            &&& (m.uvs@[i][0] as int, m.uvs@[i][1] as int) == uv(false, true, i % 4)
            &&& m.aos@[i] == corner_aos(c, f)[i % 4]
        }
    &&& forall|i: int|
        0 <= i < 6 * n ==> #[trigger] m.indices@[i] as int == ao_indices(
            corner_aos(c, faces[i / 6]),
            4 * (i / 6),
        )[i % 6]
}

fn push4<T: Copy>(v: &mut Vec<T>, a: [T; 4])
    ensures
        final(v)@ == old(v)@ + a@,
{
    v.push(a[0]);
    v.push(a[1]);
    v.push(a[2]);
    v.push(a[3]);
    assert(final(v)@ =~= old(v)@ + a@);
}

/// The geometry of the face-culling mesh of `chunk` with ambient
/// occlusion: one voxel is one unit, and the border is left out.
pub fn generate_final_mesh<C: Chunk>(chunk: &C) -> (r: MeshData)
    requires
        extents_ok(chunk),
        chunk.extent().0 <= u32::MAX,
        chunk.extent().1 <= u32::MAX,
        chunk.extent().2 <= u32::MAX,
        24 * volume(chunk) <= u32::MAX,
    ensures
        mesh_data_matches(chunk, &r, mesh_faces(chunk)),
{
    let groups = generate_mesh(chunk);
    let ghost mf = mesh_faces(chunk);
    proof {
        lemma_flat_matches(&groups, chunk, 6);
        lemma_mesh_faces_interior(chunk, 6);
        assert forall|k: int| 0 <= k < flat_faces(&groups, 6).len() implies interior(
            chunk,
            (#[trigger] flat_faces(&groups, 6)[k]).1.voxel[0] as int,
            flat_faces(&groups, 6)[k].1.voxel[1] as int,
            flat_faces(&groups, 6)[k].1.voxel[2] as int,
        ) by {
            assert(shows_face(chunk, mf[k].0, mf[k].1));
        }
    }
    let faces = groups.iter_with_ao(chunk);
    let mut m = MeshData {
        positions: Vec::new(),
        normals: Vec::new(),
        uvs: Vec::new(),
        aos: Vec::new(),
        indices: Vec::new(),
    };
    let mut k: usize = 0;
    while k < faces.len()
        invariant
            faces@.len() == flat_faces(&groups, 6).len(),
            faces@.len() == mf.len(),
            mf == mesh_faces(chunk),
            mf.len() <= 6 * volume(chunk),
            24 * volume(chunk) <= u32::MAX,
            forall|q: int|
                0 <= q < faces@.len() ==> {
                    let f = flat_faces(&groups, 6)[q];
                    &&& axis_index((#[trigger] faces@[q]).spec_face().side.axis) == f.0
                    &&& faces@[q].spec_face().quad == f.1
                    &&& faces@[q].spec_aos() == spec_side_aos(
                        ao_samples(
                            chunk,
                            f.0,
                            (f.1.voxel[0] as int, f.1.voxel[1] as int, f.1.voxel[2] as int),
                        ),
                    )
                },
            forall|q: int|
                0 <= q < flat_faces(&groups, 6).len() ==> (#[trigger] flat_faces(&groups, 6)[q]).0
                    == mf[q].0 && unit_quad_at(flat_faces(&groups, 6)[q].1, mf[q].1),
            forall|q: int|
                0 <= q < mf.len() ==> 0 <= (#[trigger] mf[q]).0 < 6 && shows_face(chunk, mf[q].0, mf[q].1),
            k <= faces@.len(),
            mesh_data_matches(chunk, &m, mf.take(k as int)),
        decreases faces@.len() - k,
    {
        let fa = &faces[k];
        let face = fa.face();
        let ghost f = mf[k as int];
        proof {
            assert(faces@[k as int].spec_face() == face);
            assert(shows_face(chunk, f.0, f.1));
            assert(unit_quad_at(face.quad, f.1));
        }
        let pos = face.positions(1);
        let normals = face.normals();
        let uvs = face.uvs(false, true);
        let aos = fa.aos();
        let start = (4 * k) as u32;
        let idx = fa.indices(start);
        let ghost old_m = m;
        push4(&mut m.positions, pos);
        push4(&mut m.normals, normals);
        push4(&mut m.uvs, uvs);
        push4(&mut m.aos, aos);
        m.indices.push(idx[0]);
        m.indices.push(idx[1]);
        m.indices.push(idx[2]);
        m.indices.push(idx[3]);
        m.indices.push(idx[4]);
        m.indices.push(idx[5]);
        proof {
            let n = k as int;
            let nf = mf.take(n + 1);
            assert(nf.len() == n + 1);
            assert forall|i: int| 0 <= i < 4 * (n + 1) implies {
                let g = nf[i / 4];
                &&& (#[trigger] m.positions@[i][0] as int, m.positions@[i][1] as int, m.positions@[i][2] as int)
                    == vertex_position(g, i % 4)
                &&& (m.normals@[i][0] as int, m.normals@[i][1] as int, m.normals@[i][2] as int) == dir_offset(g.0)
                &&& (m.uvs@[i][0] as int, m.uvs@[i][1] as int) == uv(false, true, i % 4)
                &&& m.aos@[i] == corner_aos(chunk, g)[i % 4]
            } by {
                if i < 4 * n {
                    assert(m.positions@[i] == old_m.positions@[i]);
                    assert(m.normals@[i] == old_m.normals@[i]);
                    assert(m.uvs@[i] == old_m.uvs@[i]);
                    assert(m.aos@[i] == old_m.aos@[i]);
                    assert(nf[i / 4] == mf.take(n)[i / 4]);
                } else {
                    let j = i - 4 * n;
                    assert(i / 4 == n && i % 4 == j);
                    assert(m.positions@[i] == pos[j]);
                    assert(m.normals@[i] == normals[j]);
                    assert(m.uvs@[i] == uvs[j]);
                    assert(m.aos@[i] == aos[j]);
                }
            }
            assert forall|i: int| 0 <= i < 6 * (n + 1) implies #[trigger] m.indices@[i] as int
                == ao_indices(corner_aos(chunk, nf[i / 6]), 4 * (i / 6))[i % 6] by {
                if i < 6 * n {
                    assert(m.indices@[i] == old_m.indices@[i]);
                    assert(nf[i / 6] == mf.take(n)[i / 6]);
                } else {
                    let j = i - 6 * n;
                    assert(i / 6 == n && i % 6 == j);
                    assert(m.indices@[i] == idx[j]);
                }
            }
        }
        k = k + 1;
    }
    proof {
        assert(mf.take(k as int) =~= mf);
    }
    m
}


/// Position of `p` in the scan over `c`, x outermost and z innermost.
pub open spec fn scan_index<C: Chunk>(c: &C, p: (int, int, int)) -> int {
    let ey = c.extent().1 as int;
    let ez = c.extent().2 as int;
    p.0 * (ey * ez) + p.1 * ez + p.2
}

proof fn lemma_scan_round_trip<C: Chunk>(c: &C, p: (int, int, int))
    requires
        extents_ok(c),
        0 <= p.0 < c.extent().0,
        0 <= p.1 < c.extent().1,
        0 <= p.2 < c.extent().2,
    ensures
        0 <= scan_index(c, p) < volume(c),
        scan_pos(c, scan_index(c, p)) == p,
{
    let ex = c.extent().0 as int;
    let ey = c.extent().1 as int;
    let ez = c.extent().2 as int;
    let (x, y, z) = p;
    let i = scan_index(c, p);
    assert(0 <= y * ez + z < ey * ez) by (nonlinear_arith)
        requires
            0 <= y < ey,
            0 <= z < ez,
    ;
    assert(i == x * (ey * ez) + (y * ez + z));
    vstd::arithmetic::div_mod::lemma_fundamental_div_mod_converse(i, ey * ez, x, y * ez + z);
    assert(i == (x * ey + y) * ez + z) by (nonlinear_arith)
        requires
            i == x * (ey * ez) + y * ez + z,
    ;
    vstd::arithmetic::div_mod::lemma_fundamental_div_mod_converse(i, ez, x * ey + y, z);
    vstd::arithmetic::div_mod::lemma_fundamental_div_mod_converse(x * ey + y, ey, x, y);
    assert(0 <= i < ex * ey * ez) by (nonlinear_arith)
        requires
            i == x * (ey * ez) + (y * ez + z),
            0 <= y * ez + z < ey * ez,
            0 <= x < ex,
    ;
}

proof fn lemma_scan_index_of_pos<C: Chunk>(c: &C, i: int)
    requires
        extents_ok(c),
        0 <= i < volume(c),
    ensures
        scan_index(c, scan_pos(c, i)) == i,
{
    let ey = c.extent().1 as int;
    let ez = c.extent().2 as int;
    lemma_scan_pos_in_range(c, i);
    assert(ey * ez > 0) by (nonlinear_arith)
        requires
            ey >= 2,
            ez >= 2,
    ;
    vstd::arithmetic::div_mod::lemma_fundamental_div_mod(i, ey * ez);
    vstd::arithmetic::div_mod::lemma_mod_breakdown(i, ez, ey);
    assert(ez * ey == ey * ez) by (nonlinear_arith);
    assert((ey * ez) * (i / (ey * ez)) == (i / (ey * ez)) * (ey * ez)) by (nonlinear_arith);
    assert(ez * ((i / ez) % ey) == ((i / ez) % ey) * ez) by (nonlinear_arith);
}

proof fn lemma_visible_faces_scan<C: Chunk>(c: &C, d: int, n: nat)
    requires
        extents_ok(c),
        n <= volume(c),
    ensures
        forall|j: int| 0 <= j < visible_faces(c, d, n).len() ==> 0 <= #[trigger] scan_index(c, visible_faces(c, d, n)[j]) < n,
        forall|j1: int, j2: int| 0 <= j1 < j2 < visible_faces(c, d, n).len()
            ==> scan_index(c, #[trigger] visible_faces(c, d, n)[j1]) < scan_index(c, #[trigger] visible_faces(c, d, n)[j2]),
        forall|i: int| 0 <= i < n && #[trigger] shows_face(c, d, scan_pos(c, i)) ==> visible_faces(c, d, n).contains(scan_pos(c, i)),
    decreases n,
{
    if n > 0 {
        let m = (n - 1) as nat;
        lemma_visible_faces_scan(c, d, m);
        lemma_scan_index_of_pos(c, m as int);
        let prev = visible_faces(c, d, m);
        let cur = visible_faces(c, d, n);
        assert forall|i: int| 0 <= i < n && #[trigger] shows_face(c, d, scan_pos(c, i)) implies cur.contains(scan_pos(c, i)) by {
            if i < m {
                let j = choose|j: int| 0 <= j < prev.len() && prev[j] == scan_pos(c, i);
                assert(cur[j] == prev[j]);
            } else {
                assert(cur[prev.len() as int] == scan_pos(c, i));
            }
        }
    }
}

/// Face culling lists each shown face once: the face of the voxel at `p`
/// in direction `d` is among the culled faces exactly when `p` lies
/// strictly inside `c` and the emission rule shows it, and no position is
/// listed twice.
pub proof fn lemma_culled_faces_exact<C: Chunk>(c: &C, d: int)
    requires
        extents_ok(c),
    ensures
        culled_faces(c, d).no_duplicates(),
        forall|p: (int, int, int)| #[trigger] culled_faces(c, d).contains(p) <==> shows_face(c, d, p),
{
    let n = volume(c) as nat;
    lemma_visible_faces_scan(c, d, n);
    lemma_visible_faces_shown(c, d, n);
    let f = culled_faces(c, d);
    assert forall|j1: int, j2: int| 0 <= j1 < f.len() && 0 <= j2 < f.len() && j1 != j2 implies f[j1] != f[j2] by {
        if j1 < j2 {
            assert(scan_index(c, f[j1]) < scan_index(c, f[j2]));
        } else {
            assert(scan_index(c, f[j2]) < scan_index(c, f[j1]));
        }
    }
    assert forall|p: (int, int, int)| #[trigger] f.contains(p) <==> shows_face(c, d, p) by {
        if shows_face(c, d, p) {
            lemma_scan_round_trip(c, p);
            assert(shows_face(c, d, scan_pos(c, scan_index(c, p))));
        }
        if f.contains(p) {
            let j = choose|j: int| 0 <= j < f.len() && f[j] == p;
            assert(shows_face(c, d, f[j]));
        }
    }
}


/// Whether `quads` holds one unit quad for each face that `c` shows in
/// direction `d`, and no two quads for the same voxel.
pub open spec fn one_quad_per_face<C: Chunk>(c: &C, d: int, quads: Seq<Quad>) -> bool {
    &&& forall|i: int, j: int| 0 <= i < j < quads.len() ==> (#[trigger] quads[i]).voxel != (#[trigger] quads[j]).voxel
    &&& forall|p: (int, int, int)| #[trigger] shows_face(c, d, p) ==> exists|i: int| 0 <= i < quads.len() && unit_quad_at(#[trigger] quads[i], p)
    &&& forall|i: int| 0 <= i < quads.len() ==> (#[trigger] quads[i]).width == 1 && quads[i].height == 1
        && shows_face(c, d, (quads[i].voxel[0] as int, quads[i].voxel[1] as int, quads[i].voxel[2] as int))
}

proof fn lemma_one_quad_per_face<C: Chunk>(c: &C, d: int, quads: Seq<Quad>)
    requires
        extents_ok(c),
        quads_match(quads, culled_faces(c, d)),
    ensures
        one_quad_per_face(c, d, quads),
{
    let f = culled_faces(c, d);
    lemma_culled_faces_exact(c, d);
    lemma_visible_faces_shown(c, d, volume(c) as nat);
    assert forall|i: int, j: int| 0 <= i < j < quads.len() implies (#[trigger] quads[i]).voxel != (#[trigger] quads[j]).voxel by {
        assert(unit_quad_at(quads[i], f[i]) && unit_quad_at(quads[j], f[j]));
        assert(f[i] != f[j]);
        if quads[i].voxel == quads[j].voxel {
            assert(quads[i].voxel[0] == quads[j].voxel[0]);
            assert(quads[i].voxel[1] == quads[j].voxel[1]);
            assert(quads[i].voxel[2] == quads[j].voxel[2]);
        }
    }
    assert forall|p: (int, int, int)| #[trigger] shows_face(c, d, p) implies exists|i: int| 0 <= i < quads.len() && unit_quad_at(#[trigger] quads[i], p) by {
        assert(f.contains(p));
        let i = choose|i: int| 0 <= i < f.len() && f[i] == p;
        assert(unit_quad_at(quads[i], p));
    }
    assert forall|i: int| 0 <= i < quads.len() implies (#[trigger] quads[i]).width == 1 && quads[i].height == 1
        && shows_face(c, d, (quads[i].voxel[0] as int, quads[i].voxel[1] as int, quads[i].voxel[2] as int)) by {
        assert(unit_quad_at(quads[i], f[i]));
        assert(shows_face(c, d, f[i]));
    }
}

} // verus!
