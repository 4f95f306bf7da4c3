//! Chunk coordinates and the world index, one record per resident chunk.

use vstd::prelude::*;
use crate::grid::{neighbor_slot, BaseChunk, CHUNK_SIZE};
use crate::mesher::MeshData;

verus! {

/// Position of a chunk in the grid of chunks.
#[derive(Debug, Clone, Copy, PartialEq, Eq, Structural, Hash)]
pub struct ChunkPosition {
    pub x: i32,
    pub y: i32,
    pub z: i32,
}

/// Offset from a chunk to its `k`-th neighbour, the 26 neighbours ordered by
/// x, then y, then z, with the chunk itself left out.
pub open spec fn neighbor_offset(k: int) -> (int, int, int) {
    let m = if k < 13 {
        k
    } else {
        k + 1
    };
    (m / 9 - 1, (m / 3) % 3 - 1, m % 3 - 1)
}

/// Whether the chunk's neighbours all have coordinates that fit in `i32`.
pub open spec fn neighbors_fit(p: ChunkPosition) -> bool {
    i32::MIN < p.x < i32::MAX && i32::MIN < p.y < i32::MAX && i32::MIN < p.z < i32::MAX
}

pub open spec fn offset_by(p: ChunkPosition, o: (int, int, int)) -> (int, int, int) {
    (p.x + o.0, p.y + o.1, p.z + o.2)
}

pub open spec fn pos_tuple(p: ChunkPosition) -> (int, int, int) {
    (p.x as int, p.y as int, p.z as int)
}

/// The chunk holding world voxel coordinate `v` along one axis:
/// `floor(v / CHUNK_SIZE)`.
pub open spec fn chunk_of(v: int) -> int {
    v / (CHUNK_SIZE as int)
}

fn floor_div_chunk(v: i32) -> (r: i32)
    ensures
        r == chunk_of(v as int),
{
    let shifted = (v as i64 + 2147483648i64) as u64;
    let q = (shifted / 32) as i64 - 67108864i64;
    q as i32
}

impl ChunkPosition {
    pub fn new(x: i32, y: i32, z: i32) -> (r: ChunkPosition)
        ensures
            r.x == x && r.y == y && r.z == z,
    {
        ChunkPosition { x, y, z }
    }

    /// World coordinate of the chunk's first voxel.
    pub fn to_world(&self) -> (r: (i64, i64, i64))
        ensures
            r.0 == self.x * CHUNK_SIZE,
            r.1 == self.y * CHUNK_SIZE,
            r.2 == self.z * CHUNK_SIZE,
    {
        (self.x as i64 * 32, self.y as i64 * 32, self.z as i64 * 32)
    }

    /// The chunk that holds the world voxel at `world` (floor division by
    /// the chunk edge on each axis).
    pub fn from_world(world: (i32, i32, i32)) -> (r: ChunkPosition)
        ensures
            r.x == chunk_of(world.0 as int),
            r.y == chunk_of(world.1 as int),
            r.z == chunk_of(world.2 as int),
    {
        ChunkPosition {
            x: floor_div_chunk(world.0),
            y: floor_div_chunk(world.1),
            z: floor_div_chunk(world.2),
        }
    }

    /// The 26 chunks around this one, ordered by x, then y, then z.
    pub fn neighbors(&self) -> (r: Vec<ChunkPosition>)
        requires
            neighbors_fit(*self),
        ensures
            r@.len() == 26,
            forall|k: int| 0 <= k < 26 ==> pos_tuple(#[trigger] r@[k]) == offset_by(*self, neighbor_offset(k)),
    {
        let mut out: Vec<ChunkPosition> = Vec::new();
        let mut m: i32 = 0;
        while m < 27
            invariant
                neighbors_fit(*self),
                0 <= m <= 27,
                out@.len() == if m <= 13 { m as int } else { m - 1 },
                forall|k: int| 0 <= k < out@.len() ==> pos_tuple(#[trigger] out@[k]) == offset_by(*self, neighbor_offset(k)),
            decreases 27 - m,
        {
            if m != 13 {
                let dx = m / 9 - 1;
                let dy = (m / 3) % 3 - 1;
                let dz = m % 3 - 1;
                out.push(ChunkPosition { x: self.x + dx, y: self.y + dy, z: self.z + dz });
            }
            m = m + 1;
        }
        out
    }
}

/// The local coordinate of world voxel `v` along one axis inside its chunk.
pub open spec fn local_of(v: int) -> int {
    v % (CHUNK_SIZE as int)
}

/// The chunk holding a world voxel.
pub fn world_to_chunk_pos(world: (i32, i32, i32)) -> (r: ChunkPosition)
    ensures
        r.x == chunk_of(world.0 as int),
        r.y == chunk_of(world.1 as int),
        r.z == chunk_of(world.2 as int),
{
    ChunkPosition::from_world(world)
}

/// The coordinate of a world voxel inside its chunk, each in `[0, edge)`.
pub fn world_to_local_pos(world: (i32, i32, i32)) -> (r: (u32, u32, u32))
    ensures
        r.0 == local_of(world.0 as int),
        r.1 == local_of(world.1 as int),
        r.2 == local_of(world.2 as int),
{
    let c = ChunkPosition::from_world(world);
    (
        (world.0 as i64 - c.x as i64 * 32) as u32,
        (world.1 as i64 - c.y as i64 * 32) as u32,
        (world.2 as i64 - c.z as i64 * 32) as u32,
    )
}


/// Where a resident chunk is in its life: waiting for its voxels, waiting
/// for a mesh, being meshed, or meshed and handed to the renderer.
#[derive(Debug, Clone, Copy, PartialEq, Eq, Structural)]
pub enum ChunkState {
    Queued,
    AwaitingMesh,
    MeshQueued,
    Rendered,
}

/// Everything the world knows of one resident chunk.
pub struct ChunkRecord {
    pub position: ChunkPosition,
    pub state: ChunkState,
    pub voxels: Option<BaseChunk>,
    pub mesh: Option<MeshData>,
    pub entity: Option<u64>,
}

/// A record holds voxels once generated, and a mesh exactly when rendered.
pub open spec fn record_ok(r: ChunkRecord) -> bool {
    &&& (r.state == ChunkState::Queued) == r.voxels.is_none()
    &&& (r.state == ChunkState::Rendered) == r.mesh.is_some()
}

/// Whether `q` is one of the 26 chunks around `p`.
pub open spec fn is_neighbor(p: ChunkPosition, q: ChunkPosition) -> bool {
    q != p && -1 <= q.x - p.x <= 1 && -1 <= q.y - p.y <= 1 && -1 <= q.z - p.z <= 1
}

pub(crate) proof fn lemma_slot_offset(dx: int, dy: int, dz: int)
    requires
        -1 <= dx <= 1,
        -1 <= dy <= 1,
        -1 <= dz <= 1,
        !(dx == 0 && dy == 0 && dz == 0),
    ensures
        0 <= neighbor_slot(dx, dy, dz) < 26,
        neighbor_offset(neighbor_slot(dx, dy, dz)) == (dx, dy, dz),
{
}

pub(crate) proof fn lemma_neighbor_slot(p: ChunkPosition, q: ChunkPosition)
    requires
        is_neighbor(p, q),
    ensures
        0 <= neighbor_slot(q.x - p.x, q.y - p.y, q.z - p.z) < 26,
        neighbor_offset(neighbor_slot(q.x - p.x, q.y - p.y, q.z - p.z)) == (
            q.x - p.x,
            q.y - p.y,
            q.z - p.z,
        ),
{
}

pub(crate) proof fn lemma_offset_is_neighbor(p: ChunkPosition, k: int)
    requires
        0 <= k < 26,
    ensures
        -1 <= neighbor_offset(k).0 <= 1,
        -1 <= neighbor_offset(k).1 <= 1,
        -1 <= neighbor_offset(k).2 <= 1,
        neighbor_offset(k) != (0int, 0int, 0int),
{
}

/// The resident chunks, one record per position.
pub struct World {
    chunks: Vec<ChunkRecord>,
}

impl World {
    /// At most one record per position, each consistent.
    pub closed spec fn wf(&self) -> bool {
        &&& forall|i: int, j: int|
            0 <= i < self.chunks@.len() && 0 <= j < self.chunks@.len() && i != j
                ==> #[trigger] self.chunks@[i].position != #[trigger] self.chunks@[j].position
        &&& forall|i: int| 0 <= i < self.chunks@.len() ==> record_ok(#[trigger] self.chunks@[i])
    }

    /// The records in storage order.
    pub closed spec fn records(&self) -> Seq<ChunkRecord> {
        self.chunks@
    }

    /// The records by position.
    pub closed spec fn view(&self) -> Map<ChunkPosition, ChunkRecord> {
        Map::new(
            |p: ChunkPosition| exists|i: int| 0 <= i < self.chunks@.len() && #[trigger] self.chunks@[i].position == p,
            |p: ChunkPosition| self.chunks@[choose|i: int| 0 <= i < self.chunks@.len() && #[trigger] self.chunks@[i].position == p],
        )
    }

    proof fn lemma_view_at(&self, i: int)
        requires
            self.wf(),
            0 <= i < self.chunks@.len(),
        ensures
            self@.dom().contains(self.chunks@[i].position),
            self@[self.chunks@[i].position] == self.chunks@[i],
    {
        let p = self.chunks@[i].position;
        assert(self@.dom().contains(p));
        let j = choose|j: int| 0 <= j < self.chunks@.len() && #[trigger] self.chunks@[j].position == p;
        assert(self.chunks@[j].position == p);
    }

    /// Every record of a well-formed world is consistent and stored under
    /// its own position.
    pub proof fn lemma_records_keyed(&self)
        requires
            self.wf(),
        ensures
            forall|p: ChunkPosition| #[trigger] self@.dom().contains(p) ==> record_ok(self@[p]) && self@[p].position == p,
    {
        assert forall|p: ChunkPosition| #[trigger] self@.dom().contains(p) implies record_ok(self@[p]) && self@[p].position == p by {
            let i = choose|i: int| 0 <= i < self.chunks@.len() && #[trigger] self.chunks@[i].position == p;
            self.lemma_view_at(i);
        }
    }

    /// The positions of all records.
    pub fn positions(&self) -> (r: Vec<ChunkPosition>)
        requires
            self.wf(),
        ensures
            forall|p: ChunkPosition| #[trigger] self@.dom().contains(p) <==> r@.contains(p),
    {
        let mut out: Vec<ChunkPosition> = Vec::new();
        let mut i: usize = 0;
        while i < self.chunks.len()
            invariant
                i <= self.chunks@.len(),
                out@.len() == i,
                forall|j: int| 0 <= j < i ==> #[trigger] out@[j] == self.chunks@[j].position,
            decreases self.chunks@.len() - i,
        {
            out.push(self.chunks[i].position);
            i = i + 1;
        }
        proof {
            assert forall|p: ChunkPosition| #[trigger] self@.dom().contains(p) <==> out@.contains(p) by {
                if self@.dom().contains(p) {
                    let j = choose|j: int| 0 <= j < self.chunks@.len() && #[trigger] self.chunks@[j].position == p;
                    assert(out@[j] == p);
                }
                if out@.contains(p) {
                    let j = choose|j: int| 0 <= j < out@.len() && out@[j] == p;
                    assert(self.chunks@[j].position == p);
                }
            }
        }
        out
    }

    /// An empty world.
    pub fn new() -> (r: World)
        ensures
            r.wf(),
            r@ == Map::<ChunkPosition, ChunkRecord>::empty(),
    {
        let r = World { chunks: Vec::new() };
        assert(r@ =~= Map::<ChunkPosition, ChunkRecord>::empty());
        r
    }

    fn find(&self, position: ChunkPosition) -> (r: Option<usize>)
        requires
            self.wf(),
        ensures
            match r {
                Some(i) => i < self.chunks@.len() && self.chunks@[i as int].position == position,
                None => !self@.dom().contains(position),
            },
    {
        let mut i: usize = 0;
        while i < self.chunks.len()
            invariant
                i <= self.chunks@.len(),
                forall|j: int| 0 <= j < i ==> (#[trigger] self.chunks@[j]).position != position,
            decreases self.chunks@.len() - i,
        {
            if self.chunks[i].position == position {
                return Some(i);
            }
            i = i + 1;
        }
        None
    }

    /// Whether a record exists for `position`.
    pub fn contains(&self, position: ChunkPosition) -> (r: bool)
        requires
            self.wf(),
        ensures
            r == self@.dom().contains(position),
    {
        match self.find(position) {
            Some(i) => {
                proof {
                    self.lemma_view_at(i as int);
                }
                true
            },
            None => false,
        }
    }

    /// The record of `position`, if any.
    pub fn get(&self, position: ChunkPosition) -> (r: Option<&ChunkRecord>)
        requires
            self.wf(),
        ensures
            match r {
                Some(rec) => self@.dom().contains(position) && *rec == self@[position],
                None => !self@.dom().contains(position),
            },
    {
        match self.find(position) {
            Some(i) => {
                proof {
                    self.lemma_view_at(i as int);
                }
                Some(&self.chunks[i])
            },
            None => None,
        }
    }

    /// The renderer's entity of the chunk at `position`, if any.
    pub fn get_entity(&self, position: ChunkPosition) -> (r: Option<u64>)
        requires
            self.wf(),
        ensures
            r == (if self@.dom().contains(position) {
                self@[position].entity
            } else {
                None
            }),
    {
        match self.get(position) {
            Some(rec) => rec.entity,
            None => None,
        }
    }

    /// Stores `record` under its position, replacing any record there.
    pub fn insert(&mut self, record: ChunkRecord)
        requires
            old(self).wf(),
            record_ok(record),
        ensures
            final(self).wf(),
            final(self)@ == old(self)@.insert(record.position, record),
    {
        let ghost pos = record.position;
        let ghost rec = record;
        match self.find(record.position) {
            Some(i) => {
                self.chunks.set(i, record);
                proof {
                    assert forall|p: ChunkPosition| #[trigger] final(self)@.dom().contains(p) <==> old(self)@.insert(pos, rec).dom().contains(p) by {
                        if old(self)@.dom().contains(p) && p != pos {
                            let j = choose|j: int| 0 <= j < old(self).chunks@.len() && #[trigger] old(self).chunks@[j].position == p;
                            assert(self.chunks@[j].position == p);
                        }
                        if p == pos {
                            assert(self.chunks@[i as int].position == p);
                        }
                        if self@.dom().contains(p) && p != pos {
                            let j = choose|j: int| 0 <= j < self.chunks@.len() && #[trigger] self.chunks@[j].position == p;
                            assert(old(self).chunks@[j].position == p);
                        }
                    }
                    assert forall|p: ChunkPosition| #[trigger] final(self)@.dom().contains(p) implies final(self)@[p] == old(self)@.insert(pos, rec)[p] by {
                        let j = choose|j: int| 0 <= j < self.chunks@.len() && #[trigger] self.chunks@[j].position == p;
                        self.lemma_view_at(j);
                        if j != i {
                            old(self).lemma_view_at(j);
                        }
                    }
                    assert(final(self)@ =~= old(self)@.insert(pos, rec));
                }
            },
            None => {
                self.chunks.push(record);
                proof {
                    let n = old(self).chunks@.len() as int;
                    assert forall|p: ChunkPosition| #[trigger] final(self)@.dom().contains(p) <==> old(self)@.insert(pos, rec).dom().contains(p) by {
                        if old(self)@.dom().contains(p) {
                            let j = choose|j: int| 0 <= j < old(self).chunks@.len() && #[trigger] old(self).chunks@[j].position == p;
                            assert(self.chunks@[j].position == p);
                        }
                        if p == pos {
                            assert(self.chunks@[n].position == p);
                        }
                        if self@.dom().contains(p) && p != pos {
                            let j = choose|j: int| 0 <= j < self.chunks@.len() && #[trigger] self.chunks@[j].position == p;
                            assert(old(self).chunks@[j].position == p);
                        }
                    }
                    assert forall|p: ChunkPosition| #[trigger] final(self)@.dom().contains(p) implies final(self)@[p] == old(self)@.insert(pos, rec)[p] by {
                        let j = choose|j: int| 0 <= j < self.chunks@.len() && #[trigger] self.chunks@[j].position == p;
                        self.lemma_view_at(j);
                        if j != n {
                            old(self).lemma_view_at(j);
                        }
                    }
                    assert(final(self)@ =~= old(self)@.insert(pos, rec));
                }
            },
        }
    }

    /// Adds a record for `position` that waits for its voxels, replacing any
    /// record there.
    pub fn add_chunk(&mut self, position: ChunkPosition, entity: Option<u64>)
        requires
            old(self).wf(),
        ensures
            final(self).wf(),
            final(self)@ == old(self)@.insert(
                position,
                ChunkRecord { position, state: ChunkState::Queued, voxels: None, mesh: None, entity },
            ),
    {
        self.insert(ChunkRecord { position, state: ChunkState::Queued, voxels: None, mesh: None, entity });
    }

    /// Takes out the record of `position`, if any.
    pub fn remove_chunk(&mut self, position: ChunkPosition) -> (r: Option<ChunkRecord>)
        requires
            old(self).wf(),
        ensures
            final(self).wf(),
            final(self)@ == old(self)@.remove(position),
            match r {
                Some(rec) => old(self)@.dom().contains(position) && rec == old(self)@[position],
                None => !old(self)@.dom().contains(position),
            },
    {
        match self.find(position) {
            Some(i) => {
                proof {
                    self.lemma_view_at(i as int);
                }
                let rec = self.chunks.remove(i);
                proof {
                    assert forall|p: ChunkPosition| #[trigger] final(self)@.dom().contains(p) <==> old(self)@.remove(position).dom().contains(p) by {
                        if old(self)@.dom().contains(p) && p != position {
                            let j = choose|j: int| 0 <= j < old(self).chunks@.len() && #[trigger] old(self).chunks@[j].position == p;
                            if j < i {
                                assert(self.chunks@[j].position == p);
                            } else {
                                assert(j != i);
                                assert(self.chunks@[j - 1].position == p);
                            }
                        }
                        if self@.dom().contains(p) {
                            let j = choose|j: int| 0 <= j < self.chunks@.len() && #[trigger] self.chunks@[j].position == p;
                            if j < i {
                                assert(old(self).chunks@[j].position == p);
                            } else {
                                assert(old(self).chunks@[j + 1].position == p);
                            }
                        }
                    }
                    assert forall|p: ChunkPosition| #[trigger] final(self)@.dom().contains(p) implies final(self)@[p] == old(self)@.remove(position)[p] by {
                        let j = choose|j: int| 0 <= j < self.chunks@.len() && #[trigger] self.chunks@[j].position == p;
                        self.lemma_view_at(j);
                        if j < i {
                            old(self).lemma_view_at(j);
                        } else {
                            old(self).lemma_view_at(j + 1);
                        }
                    }
                    assert(final(self)@ =~= old(self)@.remove(position));
                }
                Some(rec)
            },
            None => {
                proof {
                    assert(self@ =~= old(self)@.remove(position));
                }
                None
            },
        }
    }

    /// Whether all 26 chunks around `position` have records.
    pub fn check_neighbors(&self, position: ChunkPosition) -> (r: bool)
        requires
            self.wf(),
            neighbors_fit(position),
        ensures
            r == forall|q: ChunkPosition| is_neighbor(position, q) ==> #[trigger] self@.dom().contains(q),
    {
        let ns = position.neighbors();
        let mut k: usize = 0;
        while k < ns.len()
            invariant
                self.wf(),
                ns@.len() == 26,
                forall|m: int| 0 <= m < 26 ==> pos_tuple(#[trigger] ns@[m]) == offset_by(position, neighbor_offset(m)),
                k <= 26,
                forall|m: int| 0 <= m < k ==> self@.dom().contains(#[trigger] ns@[m]),
            decreases 26 - k,
        {
            if !self.contains(ns[k]) {
                proof {
                    lemma_offset_is_neighbor(position, k as int);
                    assert(is_neighbor(position, ns@[k as int]));
                }
                return false;
            }
            k = k + 1;
        }
        proof {
            assert forall|q: ChunkPosition| is_neighbor(position, q) implies #[trigger] self@.dom().contains(q) by {
                lemma_neighbor_slot(position, q);
                let m = neighbor_slot(q.x - position.x, q.y - position.y, q.z - position.z);
                assert(ns@[m] == q);
            }
        }
        true
    }
}

/// The chunk at coordinates `t`.
pub open spec fn pos_of(t: (int, int, int)) -> ChunkPosition {
    ChunkPosition { x: t.0 as i32, y: t.1 as i32, z: t.2 as i32 }
}

/// The renderer's entities of the first `k` neighbours of `p` that have a
/// record with an entity, in neighbour order.
pub open spec fn neighbor_entities(w: Map<ChunkPosition, ChunkRecord>, p: ChunkPosition, k: nat) -> Seq<u64>
    decreases k,
{
    if k == 0 {
        seq![]
    } else {
        let prev = neighbor_entities(w, p, (k - 1) as nat);
        let q = pos_of(offset_by(p, neighbor_offset(k - 1)));
        if w.dom().contains(q) && w[q].entity.is_some() {
            prev.push(w[q].entity.unwrap())
        } else {
            prev
        }
    }
}

impl World {
    /// The renderer's entities of the chunks around `position` that have
    /// one, in neighbour order.
    pub fn get_neighbors(&self, position: ChunkPosition) -> (r: Vec<u64>)
        requires
            self.wf(),
            neighbors_fit(position),
        ensures
            r@ == neighbor_entities(self@, position, 26),
    {
        let ns = position.neighbors();
        let mut out: Vec<u64> = Vec::new();
        let mut k: usize = 0;
        while k < ns.len()
            invariant
                self.wf(),
                ns@.len() == 26,
                forall|m: int| 0 <= m < 26 ==> pos_tuple(#[trigger] ns@[m]) == offset_by(position, neighbor_offset(m)),
                k <= 26,
                out@ == neighbor_entities(self@, position, k as nat),
            decreases 26 - k,
        {
            proof {
                let q = ns@[k as int];
                assert(q == pos_of(offset_by(position, neighbor_offset(k as int))));
            }
            match self.get_entity(ns[k]) {
                Some(e) => out.push(e),
                None => {},
            }
            k = k + 1;
        }
        out
    }
}

/// There is never more than one record for a position in a well-formed
/// world, and every stored record is the one its position maps to.
pub proof fn lemma_one_record_per_coordinate(w: &World)
    requires
        w.wf(),
    ensures
        forall|i: int, j: int|
            0 <= i < w.records().len() && 0 <= j < w.records().len() && i != j
                ==> #[trigger] w.records()[i].position != #[trigger] w.records()[j].position,
        forall|i: int|
            0 <= i < w.records().len() ==> w@[(#[trigger] w.records()[i]).position] == w.records()[i],
{
    assert forall|i: int| 0 <= i < w.records().len() implies w@[(#[trigger] w.records()[i]).position]
        == w.records()[i] by {
        w.lemma_view_at(i);
    }
}

} // verus!
