//! Chunk storage: the flat voxel layout, bare chunks, bordered snapshots
//! read from a chunk's 26 neighbours, and terrain fill from a sampler.

use vstd::prelude::*;
use vstd::arithmetic::div_mod::lemma_fundamental_div_mod_converse;
use vstd::arithmetic::div_mod::lemma_fundamental_div_mod;
use crate::voxel::VoxelType;
use crate::world::ChunkPosition;

verus! {

/// Edge length of a chunk, in voxels.
pub const CHUNK_SIZE: usize = 32;

/// Number of voxels in a chunk.
pub const CHUNK_VOLUME: usize = CHUNK_SIZE * CHUNK_SIZE * CHUNK_SIZE;

/// Edge length of a chunk together with its one-voxel border.
pub const CHUNK_SIZE_WITH_NEIGHBORS: usize = CHUNK_SIZE + 2;

/// Number of voxels in a bordered snapshot.
pub const CHUNK_VOLUME_WITH_NEIGHBORS: usize = CHUNK_SIZE_WITH_NEIGHBORS * CHUNK_SIZE_WITH_NEIGHBORS
    * CHUNK_SIZE_WITH_NEIGHBORS;

/// Flat storage index of `(x, y, z)` in a cube of the given edge.
pub open spec fn linear_index(edge: int, x: int, y: int, z: int) -> int {
    x + y * edge + z * edge * edge
}

/// The coordinate stored at flat index `index` of a cube of the given edge.
pub open spec fn spec_delinearize(edge: int, index: int) -> (int, int, int) {
    (index % edge, (index / edge) % edge, index / edge / edge)
}

pub open spec fn in_cube(edge: int, x: int, y: int, z: int) -> bool {
    0 <= x < edge && 0 <= y < edge && 0 <= z < edge
}

proof fn lemma_linear_parts(edge: int, x: int, y: int, z: int)
    requires
        in_cube(edge, x, y, z),
    ensures
        spec_delinearize(edge, linear_index(edge, x, y, z)) == (x, y, z),
        0 <= linear_index(edge, x, y, z) < edge * edge * edge,
{
    let i = linear_index(edge, x, y, z);
    assert(i == (y + z * edge) * edge + x) by (nonlinear_arith)
        requires
            i == x + y * edge + z * edge * edge,
    ;
    lemma_fundamental_div_mod_converse(i, edge, y + z * edge, x);
    lemma_fundamental_div_mod_converse(y + z * edge, edge, z, y);
    assert(0 <= i < edge * edge * edge) by (nonlinear_arith)
        requires
            i == x + y * edge + z * edge * edge,
            0 <= x < edge,
            0 <= y < edge,
            0 <= z < edge,
    ;
}

proof fn lemma_delinearize_parts(edge: int, index: int)
    requires
        0 < edge,
        0 <= index < edge * edge * edge,
    ensures
        in_cube(
            edge,
            spec_delinearize(edge, index).0,
            spec_delinearize(edge, index).1,
            spec_delinearize(edge, index).2,
        ),
        linear_index(
            edge,
            spec_delinearize(edge, index).0,
            spec_delinearize(edge, index).1,
            spec_delinearize(edge, index).2,
        ) == index,
{
    let t = index / edge;
    let x = index % edge;
    lemma_fundamental_div_mod(index, edge);
    lemma_fundamental_div_mod(t, edge);
    let y = t % edge;
    let z = t / edge;
    assert(0 <= x < edge);
    assert(0 <= y < edge);
    assert(index == edge * t + x);
    assert(t == edge * z + y);
    assert(0 <= t < edge * edge) by (nonlinear_arith)
        requires
            index == edge * t + x,
            0 <= x < edge,
            0 <= index < edge * edge * edge,
            0 < edge,
    ;
    assert(0 <= z < edge) by (nonlinear_arith)
        requires
            t == edge * z + y,
            0 <= y < edge,
            0 <= t < edge * edge,
            0 < edge,
    ;
    assert(x + y * edge + z * edge * edge == index) by (nonlinear_arith)
        requires
            index == edge * t + x,
            t == edge * z + y,
    ;
}

/// Linearisation is a bijection between the cube of the given edge and
/// `[0, edge³)`: delinearising a linearised coordinate gives the coordinate
/// back, and every index in range is the image of exactly one coordinate.
pub proof fn lemma_linearize_bijection(edge: int)
    requires
        0 < edge,
    ensures
        forall|x: int, y: int, z: int|
            #![trigger linear_index(edge, x, y, z)]
            in_cube(edge, x, y, z) ==> spec_delinearize(edge, linear_index(edge, x, y, z)) == (
            x,
            y,
            z,
            ) && 0 <= linear_index(edge, x, y, z) < edge * edge * edge,
        forall|index: int|
            #![trigger spec_delinearize(edge, index)]
            0 <= index < edge * edge * edge ==> {
                let p = spec_delinearize(edge, index);
                in_cube(edge, p.0, p.1, p.2) && linear_index(edge, p.0, p.1, p.2) == index
            },
        forall|x1: int, y1: int, z1: int, x2: int, y2: int, z2: int|
            in_cube(edge, x1, y1, z1) && in_cube(edge, x2, y2, z2) && #[trigger] linear_index(
                edge,
                x1,
                y1,
                z1,
            ) == #[trigger] linear_index(edge, x2, y2, z2) ==> x1 == x2 && y1 == y2 && z1 == z2,
{
    assert forall|x: int, y: int, z: int| #![trigger linear_index(edge, x, y, z)] in_cube(edge, x, y, z)
        implies spec_delinearize(edge, linear_index(edge, x, y, z)) == (x, y, z) && 0
        <= linear_index(edge, x, y, z) < edge * edge * edge by {
        lemma_linear_parts(edge, x, y, z);
    }
    assert forall|index: int| #![trigger spec_delinearize(edge, index)] 0 <= index < edge * edge
        * edge implies {
        let p = spec_delinearize(edge, index);
        in_cube(edge, p.0, p.1, p.2) && linear_index(edge, p.0, p.1, p.2) == index
    } by {
        lemma_delinearize_parts(edge, index);
    }
    assert forall|x1: int, y1: int, z1: int, x2: int, y2: int, z2: int|
        in_cube(edge, x1, y1, z1) && in_cube(edge, x2, y2, z2) && #[trigger] linear_index(
            edge,
            x1,
            y1,
            z1,
        ) == #[trigger] linear_index(edge, x2, y2, z2) implies x1 == x2 && y1 == y2 && z1
        == z2 by {
        lemma_linear_parts(edge, x1, y1, z1);
        lemma_linear_parts(edge, x2, y2, z2);
    }
}

/// Flat index of `(x, y, z)` in a cube of the given edge:
/// `x + y·edge + z·edge²`.
pub fn linearize(edge: usize, x: usize, y: usize, z: usize) -> (r: usize)
    requires
        in_cube(edge as int, x as int, y as int, z as int),
        edge * edge * edge <= usize::MAX,
    ensures
        r == linear_index(edge as int, x as int, y as int, z as int),
        r < edge * edge * edge,
    no_unwind
{
    proof {
        lemma_linear_parts(edge as int, x as int, y as int, z as int);
        assert(y * edge <= edge * edge) by (nonlinear_arith)
            requires
                y < edge,
        ;
        assert(z * edge * edge <= edge * edge * edge && z * edge <= edge * edge * edge)
            by (nonlinear_arith)
            requires
                z < edge,
        ;
    }
    x + y * edge + z * edge * edge
}

/// The coordinate stored at flat index `index` of a cube of the given edge.
pub fn delinearize(edge: usize, index: usize) -> (r: (usize, usize, usize))
    requires
        0 < edge,
        index < edge * edge * edge,
    ensures
        (r.0 as int, r.1 as int, r.2 as int) == spec_delinearize(edge as int, index as int),
        in_cube(edge as int, r.0 as int, r.1 as int, r.2 as int),
        linear_index(edge as int, r.0 as int, r.1 as int, r.2 as int) == index,
{
    proof {
        lemma_delinearize_parts(edge as int, index as int);
    }
    let t = index / edge;
    (index % edge, t % edge, t / edge)
}

/// A cube of voxels that can be queried by local coordinate; both a bare
/// chunk and a bordered snapshot are one.
pub trait Chunk {
    /// Extent along x, y and z.
    spec fn extent(&self) -> (nat, nat, nat);

    /// The voxel at `(x, y, z)`, meaningful inside the extent.
    spec fn voxel_at(&self, x: int, y: int, z: int) -> VoxelType;

    fn extents(&self) -> (r: (u32, u32, u32))
        ensures
            r.0 == self.extent().0,
            r.1 == self.extent().1,
            r.2 == self.extent().2,
    ;

    fn get(&self, x: u32, y: u32, z: u32) -> (r: VoxelType)
        requires
            x < self.extent().0,
            y < self.extent().1,
            z < self.extent().2,
        ensures
            r == self.voxel_at(x as int, y as int, z as int),
    ;
}

/// The voxels of one chunk, with a flag raised by every write.
pub struct BaseChunk {
    voxels: Vec<VoxelType>,
    dirty: bool,
}

impl BaseChunk {
    #[verifier::type_invariant]
    spec fn inv(&self) -> bool {
        self.voxels.len() == CHUNK_VOLUME
    }

    pub closed spec fn spec_dirty(&self) -> bool {
        self.dirty
    }

    /// An all-empty chunk that has not been written to.
    pub fn new() -> (r: BaseChunk)
        ensures
            forall|x: int, y: int, z: int|
                in_cube(CHUNK_SIZE as int, x, y, z) ==> #[trigger] r.voxel_at(x, y, z)
                    == VoxelType::Empty,
            !r.spec_dirty(),
    {
        let mut voxels: Vec<VoxelType> = Vec::new();
        while voxels.len() < CHUNK_VOLUME
            invariant
                voxels.len() <= CHUNK_VOLUME,
                forall|i: int| 0 <= i < voxels.len() ==> voxels@[i] == VoxelType::Empty,
            decreases CHUNK_VOLUME - voxels.len(),
        {
            voxels.push(VoxelType::Empty);
        }
        proof {
            lemma_linearize_bijection(CHUNK_SIZE as int);
        }
        BaseChunk { voxels, dirty: false }
    }

    /// Writes one voxel and marks the chunk dirty.
    pub fn set(&mut self, x: u32, y: u32, z: u32, voxel: VoxelType)
        requires
            in_cube(CHUNK_SIZE as int, x as int, y as int, z as int),
        ensures
            final(self).voxel_at(x as int, y as int, z as int) == voxel,
            forall|a: int, b: int, c: int|
                in_cube(CHUNK_SIZE as int, a, b, c) && !(a == x && b == y && c == z)
                    ==> #[trigger] final(self).voxel_at(a, b, c) == old(self).voxel_at(a, b, c),
            final(self).spec_dirty(),
        no_unwind
    {
        proof {
            use_type_invariant(&*self);
            lemma_linearize_bijection(CHUNK_SIZE as int);
        }
        let i = linearize(CHUNK_SIZE, x as usize, y as usize, z as usize);
        self.voxels[i] = voxel;
        self.dirty = true;
    }

    /// Whether the chunk was written to since it was made.
    pub fn is_dirty(&self) -> (r: bool)
        ensures
            r == self.spec_dirty(),
    {
        self.dirty
    }
}

impl Clone for BaseChunk {
    fn clone(&self) -> (r: BaseChunk)
        ensures
            forall|x: int, y: int, z: int| #[trigger] r.voxel_at(x, y, z) == self.voxel_at(x, y, z),
            r.spec_dirty() == self.spec_dirty(),
    {
        proof {
            use_type_invariant(self);
        }
        let voxels = self.voxels.clone();
        proof {
            assert(voxels@ =~= self.voxels@);
        }
        BaseChunk { voxels, dirty: self.dirty }
    }
}

impl Chunk for BaseChunk {
    open spec fn extent(&self) -> (nat, nat, nat) {
        (CHUNK_SIZE as nat, CHUNK_SIZE as nat, CHUNK_SIZE as nat)
    }

    closed spec fn voxel_at(&self, x: int, y: int, z: int) -> VoxelType {
        self.voxels@[linear_index(CHUNK_SIZE as int, x, y, z)]
    }

    fn extents(&self) -> (r: (u32, u32, u32)) {
        (CHUNK_SIZE as u32, CHUNK_SIZE as u32, CHUNK_SIZE as u32)
    }

    fn get(&self, x: u32, y: u32, z: u32) -> (r: VoxelType) {
        proof {
            use_type_invariant(self);
        }
        let i = linearize(CHUNK_SIZE, x as usize, y as usize, z as usize);
        self.voxels[i]
    }
}

/// Where one axis of a bordered coordinate reads from: the direction of the
/// neighbour (-1, 0 or 1) and the local coordinate inside that chunk.
pub open spec fn axis_source(offset: int) -> (int, int) {
    if offset == 0 {
        (-1, CHUNK_SIZE - 1)
    } else if offset == CHUNK_SIZE + 1 {
        (1, 0)
    } else {
        (0, offset - 1)
    }
}

/// Position of the neighbour in direction `(dx, dy, dz)` in the list of 26
/// neighbours, ordered by x, then y, then z, with the centre left out.
pub open spec fn neighbor_slot(dx: int, dy: int, dz: int) -> int {
    let k = (dx + 1) * 9 + (dy + 1) * 3 + (dz + 1);
    if k < 13 {
        k
    } else {
        k - 1
    }
}

/// The voxel that a bordered snapshot holds at `(x, y, z)`.
pub open spec fn bordered_source(
    chunk: &BaseChunk,
    neighbors: &Vec<BaseChunk>,
    x: int,
    y: int,
    z: int,
) -> VoxelType {
    let (dx, lx) = axis_source(x);
    let (dy, ly) = axis_source(y);
    let (dz, lz) = axis_source(z);
    if dx == 0 && dy == 0 && dz == 0 {
        chunk.voxel_at(lx, ly, lz)
    } else {
        neighbors@[neighbor_slot(dx, dy, dz)].voxel_at(lx, ly, lz)
    }
}

/// A chunk's voxels padded with a one-voxel shell read from its 26
/// neighbours.
pub struct ChunkWithNeighbors {
    voxels: Vec<VoxelType>,
}

fn source_of(offset: u32) -> (r: (i32, u32))
    requires
        offset < CHUNK_SIZE_WITH_NEIGHBORS,
    ensures
        (r.0 as int, r.1 as int) == axis_source(offset as int),
        r.1 < CHUNK_SIZE,
{
    if offset == 0 {
        (-1, CHUNK_SIZE as u32 - 1)
    } else if offset == CHUNK_SIZE as u32 + 1 {
        (1, 0)
    } else {
        (0, offset - 1)
    }
}

impl ChunkWithNeighbors {
    #[verifier::type_invariant]
    spec fn inv(&self) -> bool {
        self.voxels.len() == CHUNK_VOLUME_WITH_NEIGHBORS
    }

    /// Builds the snapshot of `chunk`: its own voxels inside, and on each
    /// border cell the facing voxel of the neighbour in that direction
    /// (`neighbors` lists the 26 directions by x, then y, then z).
    pub fn new(chunk: &BaseChunk, neighbors: &Vec<BaseChunk>) -> (r: ChunkWithNeighbors)
        requires
            neighbors@.len() == 26,
        ensures
            forall|x: int, y: int, z: int|
                in_cube(CHUNK_SIZE_WITH_NEIGHBORS as int, x, y, z) ==> #[trigger] r.voxel_at(
                    x,
                    y,
                    z,
                ) == bordered_source(chunk, neighbors, x, y, z),
    {
        let e = CHUNK_SIZE_WITH_NEIGHBORS;
        let mut voxels: Vec<VoxelType> = Vec::new();
        let mut idx: usize = 0;
        while idx < CHUNK_VOLUME_WITH_NEIGHBORS
            invariant
                neighbors@.len() == 26,
                voxels.len() == idx,
                idx <= CHUNK_VOLUME_WITH_NEIGHBORS,
                e == CHUNK_SIZE_WITH_NEIGHBORS,
                forall|j: int|
                    #![trigger voxels@[j]]
                    0 <= j < idx ==> {
                        let p = spec_delinearize(e as int, j);
                        voxels@[j] == bordered_source(chunk, neighbors, p.0, p.1, p.2)
                    },
            decreases CHUNK_VOLUME_WITH_NEIGHBORS - idx,
        {
            let (x, y, z) = delinearize(e, idx);
            let (dx, lx) = source_of(x as u32);
            let (dy, ly) = source_of(y as u32);
            let (dz, lz) = source_of(z as u32);
            let v = if dx == 0 && dy == 0 && dz == 0 {
                chunk.get(lx, ly, lz)
            } else {
                let k = (dx + 1) * 9 + (dy + 1) * 3 + (dz + 1);
                let slot: usize = if k < 13 {
                    k as usize
                } else {
                    (k - 1) as usize
                };
                neighbors[slot].get(lx, ly, lz)
            };
            voxels.push(v);
            idx = idx + 1;
        }
        proof {
            lemma_linearize_bijection(e as int);
        }
        ChunkWithNeighbors { voxels }
    }
}

impl Chunk for ChunkWithNeighbors {
    open spec fn extent(&self) -> (nat, nat, nat) {
        (
            CHUNK_SIZE_WITH_NEIGHBORS as nat,
            CHUNK_SIZE_WITH_NEIGHBORS as nat,
            CHUNK_SIZE_WITH_NEIGHBORS as nat,
        )
    }

    closed spec fn voxel_at(&self, x: int, y: int, z: int) -> VoxelType {
        self.voxels@[linear_index(CHUNK_SIZE_WITH_NEIGHBORS as int, x, y, z)]
    }

    fn extents(&self) -> (r: (u32, u32, u32)) {
        (
            CHUNK_SIZE_WITH_NEIGHBORS as u32,
            CHUNK_SIZE_WITH_NEIGHBORS as u32,
            CHUNK_SIZE_WITH_NEIGHBORS as u32,
        )
    }

    fn get(&self, x: u32, y: u32, z: u32) -> (r: VoxelType) {
        proof {
            use_type_invariant(self);
        }
        let i = linearize(CHUNK_SIZE_WITH_NEIGHBORS, x as usize, y as usize, z as usize);
        self.voxels[i]
    }
}


/// World coordinate of local coordinate `l` of a chunk at chunk
/// coordinate `c`, along one axis.
pub open spec fn world_coord(c: i32, l: int) -> int {
    c * CHUNK_SIZE + l
}

/// Fills a chunk from the terrain sampler: the voxel at local `(x, y, z)`
/// is what `sample` gives for its world coordinate.
pub fn generate_chunk<F: Fn(i64, i64, i64) -> VoxelType>(chunk_position: ChunkPosition, sample: &F) -> (r: BaseChunk)
    requires
        forall|x: i64, y: i64, z: i64| sample.requires((x, y, z)),
    ensures
        !r.spec_dirty(),
        forall|x: int, y: int, z: int|
            in_cube(CHUNK_SIZE as int, x, y, z) ==> sample.ensures(
                (
                    world_coord(chunk_position.x, x) as i64,
                    world_coord(chunk_position.y, y) as i64,
                    world_coord(chunk_position.z, z) as i64,
                ),
                #[trigger] r.voxel_at(x, y, z),
            ),
{
    let ox = chunk_position.x as i64 * 32;
    let oy = chunk_position.y as i64 * 32;
    let oz = chunk_position.z as i64 * 32;
    let mut voxels: Vec<VoxelType> = Vec::new();
    let mut idx: usize = 0;
    while idx < CHUNK_VOLUME
        invariant
            forall|x: i64, y: i64, z: i64| sample.requires((x, y, z)),
            ox == chunk_position.x * 32,
            oy == chunk_position.y * 32,
            oz == chunk_position.z * 32,
            idx <= CHUNK_VOLUME,
            voxels@.len() == idx,
            forall|j: int|
                #![trigger voxels@[j]]
                0 <= j < idx ==> {
                    let p = spec_delinearize(CHUNK_SIZE as int, j);
                    sample.ensures(
                        (
                            world_coord(chunk_position.x, p.0) as i64,
                            world_coord(chunk_position.y, p.1) as i64,
                            world_coord(chunk_position.z, p.2) as i64,
                        ),
                        voxels@[j],
                    )
                },
        decreases CHUNK_VOLUME - idx,
    {
        let (x, y, z) = delinearize(CHUNK_SIZE, idx);
        let v = sample(ox + x as i64, oy + y as i64, oz + z as i64);
        voxels.push(v);
        idx = idx + 1;
    }
    proof {
        lemma_linearize_bijection(CHUNK_SIZE as int);
    }
    BaseChunk { voxels, dirty: false }
}

} // verus!
