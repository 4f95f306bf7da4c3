//! The streaming policy: which chunks are wanted around the observer, and
//! how finished generation and meshing work is merged into the world.

use vstd::prelude::*;
use itertools::Itertools;
use crate::grid::{axis_source, BaseChunk, Chunk, ChunkWithNeighbors, in_cube, bordered_source, neighbor_slot, CHUNK_SIZE_WITH_NEIGHBORS};
use crate::mesher::MeshData;
use crate::voxel::VoxelType;
use crate::world::{chunk_of, is_neighbor, lemma_neighbor_slot, lemma_offset_is_neighbor, lemma_slot_offset, neighbor_offset, neighbors_fit, offset_by, pos_tuple, ChunkPosition, ChunkRecord, ChunkState, World};

verus! {

/// How far around the observer chunks are kept: a disk of radius
/// `horizontal` on the ground plane, `vertical` chunks up and down.
#[derive(Debug, Clone, Copy, PartialEq, Eq, Structural)]
pub struct RenderDistance {
    pub horizontal: i32,
    pub vertical: i32,
}

/// Render distances the controller accepts: non-negative and small
/// enough that every coordinate and squared distance it forms fits.
pub open spec fn distance_ok(rd: RenderDistance) -> bool {
    0 <= rd.horizontal <= 0x4000_0000 && 0 <= rd.vertical <= 0x4000_0000
}

/// Chunk coordinates that a world voxel in `i32` range can fall in.
pub open spec fn center_ok(c: ChunkPosition) -> bool {
    -0x400_0000 <= c.x <= 0x400_0000 && -0x400_0000 <= c.y <= 0x400_0000 && -0x400_0000 <= c.z
        <= 0x400_0000
}

/// Squared distance between two chunks on the ground plane.
pub open spec fn planar_sq(a: ChunkPosition, b: ChunkPosition) -> int {
    (b.x - a.x) * (b.x - a.x) + (b.z - a.z) * (b.z - a.z)
}

/// Whether the chunk at `p` is wanted around `center`: within the disk of
/// radius `horizontal` on the ground plane (Euclidean distance), and at
/// most `vertical` chunks above or below.
pub open spec fn wanted(center: ChunkPosition, p: ChunkPosition, rd: RenderDistance) -> bool {
    &&& planar_sq(center, p) <= rd.horizontal * rd.horizontal
    &&& -rd.vertical <= p.y - center.y <= rd.vertical
}

/// Whether `(x, z)` lies in the disk of the given radius round the origin.
pub open spec fn in_disk(x: int, z: int, radius: int) -> bool {
    x * x + z * z <= radius * radius
}

proof fn lemma_disk_bounds(x: int, z: int, r: int)
    requires
        0 <= r,
        in_disk(x, z, r),
    ensures
        -r <= x <= r,
        -r <= z <= r,
{
    assert(-r <= x <= r && -r <= z <= r) by (nonlinear_arith)
        requires
            x * x + z * z <= r * r,
            0 <= r,
    ;
}

impl World {
    /// Whether the chunk at `chunk_position` is wanted around `center`.
    pub fn can_render(
        center: &ChunkPosition,
        chunk_position: &ChunkPosition,
        render_distance: &RenderDistance,
    ) -> (r: bool)
        ensures
            r == wanted(*center, *chunk_position, *render_distance),
    {
        let dx = chunk_position.x as i128 - center.x as i128;
        let dz = chunk_position.z as i128 - center.z as i128;
        let dy = chunk_position.y as i128 - center.y as i128;
        let h = render_distance.horizontal as i128;
        let v = render_distance.vertical as i128;
        proof {
            assert(dx * dx <= 0x1_0000_0000 * 0x1_0000_0000) by (nonlinear_arith)
                requires
                    -0x1_0000_0000 <= dx <= 0x1_0000_0000,
            ;
            assert(dz * dz <= 0x1_0000_0000 * 0x1_0000_0000) by (nonlinear_arith)
                requires
                    -0x1_0000_0000 <= dz <= 0x1_0000_0000,
            ;
            assert(dx * dx >= 0 && dz * dz >= 0) by (nonlinear_arith);
            assert(0 <= h * h <= 0x1_0000_0000 * 0x1_0000_0000) by (nonlinear_arith)
                requires
                    -0x1_0000_0000 <= h <= 0x1_0000_0000,
            ;
        }
        dx * dx + dz * dz <= h * h && -v <= dy && dy <= v
    }
}

/// Whether `p` comes before `q` with x first, then z.
pub open spec fn pair_lt(p: (i32, i32), q: (int, int)) -> bool {
    p.0 < q.0 || (p.0 == q.0 && p.1 < q.1)
}

/// Every `(x, z)` with `x² + z² <= radius²`, each once, x outermost, z
/// innermost.
pub fn positions_in_radius(radius: i32) -> (r: Vec<(i32, i32)>)
    requires
        0 <= radius <= 0x4000_0000,
    ensures
        r@.no_duplicates(),
        forall|i: int, j: int| 0 <= i < j < r@.len() ==> pair_lt(#[trigger] r@[i], (r@[j].0 as int, #[trigger] r@[j].1 as int)),
        forall|i: int| 0 <= i < r@.len() ==> in_disk((#[trigger] r@[i]).0 as int, r@[i].1 as int, radius as int),
        forall|x: int, z: int| #[trigger] in_disk(x, z, radius as int) ==> exists|i: int|
            0 <= i < r@.len() && #[trigger] r@[i] == (x as i32, z as i32) && r@[i].0 == x && r@[i].1 == z,
{
    let mut out: Vec<(i32, i32)> = Vec::new();
    proof {
        assert(0 <= radius * radius <= 0x4000_0000 * 0x4000_0000) by (nonlinear_arith)
            requires
                0 <= radius <= 0x4000_0000,
        ;
        assert forall|a: int, b: int| #[trigger] in_disk(a, b, radius as int) implies -radius <= a
            <= radius && -radius <= b <= radius by {
            lemma_disk_bounds(a, b, radius as int);
        }
    }
    let r2 = radius as i64 * radius as i64;
    let mut x: i32 = -radius;
    while x <= radius
        invariant
            0 <= radius <= 0x4000_0000,
            r2 == radius * radius,
            -radius <= x <= radius + 1,
            forall|i: int| 0 <= i < out@.len() ==> in_disk((#[trigger] out@[i]).0 as int, out@[i].1 as int, radius as int),
            forall|i: int, j: int| 0 <= i < j < out@.len() ==> pair_lt(#[trigger] out@[i], (out@[j].0 as int, #[trigger] out@[j].1 as int)),
            forall|i: int| 0 <= i < out@.len() ==> (#[trigger] out@[i]).0 < x,
            forall|a: int, b: int| #[trigger] in_disk(a, b, radius as int) && a < x ==> exists|i: int|
                0 <= i < out@.len() && #[trigger] out@[i] == (a as i32, b as i32) && out@[i].0 == a && out@[i].1 == b,
        decreases radius + 1 - x,
    {
        let mut z: i32 = -radius;
        proof {
            assert forall|a: int, b: int| #[trigger] in_disk(a, b, radius as int) implies -radius <= a
                <= radius && -radius <= b <= radius by {
                lemma_disk_bounds(a, b, radius as int);
            }
        }
        while z <= radius
            invariant
                0 <= radius <= 0x4000_0000,
                r2 == radius * radius,
                -radius <= x <= radius,
                -radius <= z <= radius + 1,
                forall|i: int| 0 <= i < out@.len() ==> in_disk((#[trigger] out@[i]).0 as int, out@[i].1 as int, radius as int),
                forall|i: int, j: int| 0 <= i < j < out@.len() ==> pair_lt(#[trigger] out@[i], (out@[j].0 as int, #[trigger] out@[j].1 as int)),
                forall|i: int| 0 <= i < out@.len() ==> pair_lt(#[trigger] out@[i], (x as int, z as int)),
                forall|a: int, b: int| #[trigger] in_disk(a, b, radius as int) && (a < x || (a == x && b < z)) ==> exists|i: int|
                    0 <= i < out@.len() && #[trigger] out@[i] == (a as i32, b as i32) && out@[i].0 == a && out@[i].1 == b,
            decreases radius + 1 - z,
        {
            let xx = x as i64;
            let zz = z as i64;
            proof {
                assert(0 <= xx * xx <= 0x4000_0000 * 0x4000_0000 && 0 <= zz * zz <= 0x4000_0000 * 0x4000_0000)
                    by (nonlinear_arith)
                    requires
                        -0x4000_0000 <= xx <= 0x4000_0000,
                        -0x4000_0000 <= zz <= 0x4000_0000,
                ;
            }
            if xx * xx + zz * zz <= r2 {
                let ghost before = out@;
                out.push((x, z));
                proof {
                    assert forall|a: int, b: int| #[trigger] in_disk(a, b, radius as int) && (a < x || (a == x && b < z + 1)) implies exists|i: int|
                        0 <= i < out@.len() && #[trigger] out@[i] == (a as i32, b as i32) && out@[i].0 == a && out@[i].1 == b by {
                        if a == x && b == z {
                            assert(out@[before.len() as int] == (a as i32, b as i32));
                        } else {
                            let i = choose|i: int| 0 <= i < before.len() && #[trigger] before[i] == (a as i32, b as i32) && before[i].0 == a && before[i].1 == b;
                            assert(out@[i] == before[i]);
                        }
                    }
                }
            } else {
                proof {
                    assert forall|a: int, b: int| #[trigger] in_disk(a, b, radius as int) && (a < x || (a == x && b < z + 1)) implies exists|i: int|
                        0 <= i < out@.len() && #[trigger] out@[i] == (a as i32, b as i32) && out@[i].0 == a && out@[i].1 == b by {
                        if a == x && b == z {
                            assert(!in_disk(a, b, radius as int));
                        }
                    }
                }
            }
            z = z + 1;
        }
        proof {
            assert forall|a: int, b: int| #[trigger] in_disk(a, b, radius as int) && a < x + 1 implies exists|i: int|
                0 <= i < out@.len() && #[trigger] out@[i] == (a as i32, b as i32) && out@[i].0 == a && out@[i].1 == b by {
                lemma_disk_bounds(a, b, radius as int);
            }
        }
        x = x + 1;
    }
    proof {
        assert forall|a: int, b: int| #[trigger] in_disk(a, b, radius as int) implies exists|i: int|
            0 <= i < out@.len() && #[trigger] out@[i] == (a as i32, b as i32) && out@[i].0 == a && out@[i].1 == b by {
            lemma_disk_bounds(a, b, radius as int);
        }
        assert forall|i: int, j: int| 0 <= i < out@.len() && 0 <= j < out@.len() && i != j implies out@[i] != out@[j] by {
            if i < j {
                assert(pair_lt(out@[i], (out@[j].0 as int, out@[j].1 as int)));
            } else {
                assert(pair_lt(out@[j], (out@[i].0 as int, out@[i].1 as int)));
            }
        }
    }
    out
}

/// Relies on itertools::Itertools::sorted_unstable_by_key: the same items,
/// in ascending order of their first component.
#[verifier::external_body]
fn sorted_by_first(items: Vec<(i64, i32, i32, i32)>) -> (r: Vec<(i64, i32, i32, i32)>)
    ensures
        r@.to_multiset() == items@.to_multiset(),
        forall|i: int, j: int| 0 <= i <= j < r@.len() ==> (#[trigger] r@[i]).0 <= (#[trigger] r@[j]).0,
{
    items.into_iter().sorted_unstable_by_key(|item| item.0).collect()
}


/// The candidate entry of chunk `p` around `center`: its squared planar
/// distance, then its coordinates.
pub open spec fn candidate(center: ChunkPosition, p: ChunkPosition) -> (i64, i32, i32, i32) {
    (planar_sq(center, p) as i64, p.x, p.y, p.z)
}

/// The candidate entry of the chunk at planar offset `d` and height
/// offset `y` from `center`.
pub open spec fn cand_at(center: ChunkPosition, d: (i32, i32), y: int) -> (i64, i32, i32, i32) {
    candidate(center, ChunkPosition { x: (center.x + d.0) as i32, y: (center.y + y) as i32, z: (center.z + d.1) as i32 })
}

/// Whether candidate entry `t` comes before entry `u` with x first, then
/// z, then y.
pub open spec fn item_lt(t: (i64, i32, i32, i32), u: (i64, i32, i32, i32)) -> bool {
    t.1 < u.1 || (t.1 == u.1 && (t.3 < u.3 || (t.3 == u.3 && t.2 < u.2)))
}

/// Whether entry `t` lies in a column before `(x, z)`, x first.
pub open spec fn column_before(t: (i64, i32, i32, i32), x: int, z: int) -> bool {
    t.1 < x || (t.1 == x && t.3 < z)
}

pub open spec fn candidate_pos(t: (i64, i32, i32, i32)) -> ChunkPosition {
    ChunkPosition { x: t.1, y: t.2, z: t.3 }
}

proof fn lemma_wanted_fits(center: ChunkPosition, rd: RenderDistance, x: int, y: int, z: int)
    requires
        distance_ok(rd),
        center_ok(center),
        in_disk(x, z, rd.horizontal as int),
        -rd.vertical <= y <= rd.vertical,
    ensures
        i32::MIN <= center.x + x <= i32::MAX,
        i32::MIN <= center.y + y <= i32::MAX,
        i32::MIN <= center.z + z <= i32::MAX,
        0 <= x * x + z * z <= 0x4000_0000 * 0x4000_0000,
        0 <= x * x,
        0 <= z * z,
{
    lemma_disk_bounds(x, z, rd.horizontal as int);
    assert(0 <= x * x && 0 <= z * z) by (nonlinear_arith);
    assert(rd.horizontal * rd.horizontal <= 0x4000_0000 * 0x4000_0000) by (nonlinear_arith)
        requires
            0 <= rd.horizontal <= 0x4000_0000,
    ;
}

/// Every chunk wanted around `center`, nearest first on the ground plane.
pub fn chunks_positions_in_render_distance(center: ChunkPosition, render_distance: RenderDistance) -> (r: Vec<ChunkPosition>)
    requires
        distance_ok(render_distance),
        center_ok(center),
    ensures
        r@.no_duplicates(),
        forall|i: int| 0 <= i < r@.len() ==> wanted(center, #[trigger] r@[i], render_distance),
        forall|p: ChunkPosition| #[trigger] wanted(center, p, render_distance) ==> r@.contains(p),
        forall|i: int, j: int|
            0 <= i <= j < r@.len() ==> planar_sq(center, #[trigger] r@[i]) <= planar_sq(center, #[trigger] r@[j]),
{
    let rd = render_distance;
    let disk = positions_in_radius(rd.horizontal);
    let mut items: Vec<(i64, i32, i32, i32)> = Vec::new();
    let mut k: usize = 0;
    while k < disk.len()
        invariant
            distance_ok(rd),
            center_ok(center),
            rd == render_distance,
            forall|i: int| 0 <= i < disk@.len() ==> in_disk((#[trigger] disk@[i]).0 as int, disk@[i].1 as int, rd.horizontal as int),
            forall|i: int, j: int| 0 <= i < j < disk@.len() ==> pair_lt(#[trigger] disk@[i], (disk@[j].0 as int, #[trigger] disk@[j].1 as int)),
            k <= disk@.len(),
            forall|i: int, j: int| 0 <= i < j < items@.len() ==> item_lt(#[trigger] items@[i], #[trigger] items@[j]),
            k < disk@.len() ==> forall|i: int| 0 <= i < items@.len() ==> column_before(#[trigger] items@[i], center.x + disk@[k as int].0, center.z + disk@[k as int].1),
            forall|i: int| 0 <= i < items@.len() ==> wanted(center, candidate_pos(#[trigger] items@[i]), rd)
                && items@[i] == candidate(center, candidate_pos(items@[i])),
            forall|m: int, y: int|
                0 <= m < k && -rd.vertical <= y <= rd.vertical ==> items@.contains(#[trigger] cand_at(center, disk@[m], y)),
        decreases disk@.len() - k,
    {
        let (dx, dz) = disk[k];
        proof {
            lemma_wanted_fits(center, rd, dx as int, 0, dz as int);
        }
        let key = dx as i64 * dx as i64 + dz as i64 * dz as i64;
        let mut y: i32 = -rd.vertical;
        while y <= rd.vertical
            invariant
                distance_ok(rd),
                center_ok(center),
                rd == render_distance,
                forall|i: int| 0 <= i < disk@.len() ==> in_disk((#[trigger] disk@[i]).0 as int, disk@[i].1 as int, rd.horizontal as int),
                forall|i: int, j: int| 0 <= i < j < disk@.len() ==> pair_lt(#[trigger] disk@[i], (disk@[j].0 as int, #[trigger] disk@[j].1 as int)),
                k < disk@.len(),
                forall|i: int, j: int| 0 <= i < j < items@.len() ==> item_lt(#[trigger] items@[i], #[trigger] items@[j]),
                forall|i: int| 0 <= i < items@.len() ==> column_before(#[trigger] items@[i], center.x + dx, center.z + dz)
                    || (items@[i].1 == center.x + dx && items@[i].3 == center.z + dz && items@[i].2 < center.y + y),
                (dx, dz) == disk@[k as int],
                key == dx * dx + dz * dz,
                -rd.vertical <= y <= rd.vertical + 1,
                forall|i: int| 0 <= i < items@.len() ==> wanted(center, candidate_pos(#[trigger] items@[i]), rd)
                    && items@[i] == candidate(center, candidate_pos(items@[i])),
                forall|m: int, yy: int|
                    0 <= m < k && -rd.vertical <= yy <= rd.vertical ==> items@.contains(#[trigger] cand_at(center, disk@[m], yy)),
                forall|yy: int|
                    -rd.vertical <= yy < y ==> items@.contains(#[trigger] cand_at(center, (dx, dz), yy)),
            decreases rd.vertical + 1 - y,
        {
            proof {
                lemma_wanted_fits(center, rd, dx as int, y as int, dz as int);
            }
            let p = ChunkPosition { x: center.x + dx, y: center.y + y, z: center.z + dz };
            let ghost before = items@;
            items.push((key, p.x, p.y, p.z));
            proof {
                assert(items@[before.len() as int] == candidate(center, p));
                assert forall|i: int, j: int| 0 <= i < j < items@.len() implies item_lt(#[trigger] items@[i], #[trigger] items@[j]) by {
                    if j == before.len() {
                        assert(items@[i] == before[i]);
                    } else {
                        assert(items@[i] == before[i]);
                        assert(items@[j] == before[j]);
                    }
                }
                assert forall|m: int, yy: int|
                    0 <= m < k && -rd.vertical <= yy <= rd.vertical implies items@.contains(
                        #[trigger] cand_at(center, disk@[m], yy),
                    ) by {
                    let t = cand_at(center, disk@[m], yy);
                    assert(before.contains(t));
                    let i = choose|i: int| 0 <= i < before.len() && before[i] == t;
                    assert(items@[i] == t);
                }
                assert forall|yy: int| -rd.vertical <= yy < y + 1 implies items@.contains(
                    #[trigger] cand_at(center, (dx, dz), yy),
                ) by {
                    let t = cand_at(center, (dx, dz), yy);
                    if yy < y {
                        assert(before.contains(t));
                        let i = choose|i: int| 0 <= i < before.len() && before[i] == t;
                        assert(items@[i] == t);
                    } else {
                        assert(items@[before.len() as int] == t);
                    }
                }
            }
            y = y + 1;
        }
        proof {
            if k + 1 < disk@.len() {
                assert(pair_lt(disk@[k as int], (disk@[k + 1].0 as int, disk@[k + 1].1 as int)));
                assert forall|i: int| 0 <= i < items@.len() implies column_before(#[trigger] items@[i], center.x + disk@[k + 1].0, center.z + disk@[k + 1].1) by {
                    assert(column_before(items@[i], center.x + dx, center.z + dz)
                        || (items@[i].1 == center.x + dx && items@[i].3 == center.z + dz));
                }
            }
        }
        k = k + 1;
    }
    let sorted = sorted_by_first(items);
    proof {
        sorted@.to_multiset_ensures();
        items@.to_multiset_ensures();
        assert(items@.no_duplicates()) by {
            assert forall|i: int, j: int| 0 <= i < items@.len() && 0 <= j < items@.len() && i != j implies items@[i] != items@[j] by {
                if i < j {
                    assert(item_lt(items@[i], items@[j]));
                } else {
                    assert(item_lt(items@[j], items@[i]));
                }
            }
        }
        items@.lemma_multiset_has_no_duplicates();
        sorted@.lemma_multiset_has_no_duplicates_conv();
    }
    let mut out: Vec<ChunkPosition> = Vec::new();
    let mut i: usize = 0;
    while i < sorted.len()
        invariant
            i <= sorted@.len(),
            out@.len() == i,
            forall|j: int| 0 <= j < i ==> #[trigger] out@[j] == candidate_pos(sorted@[j]),
        decreases sorted@.len() - i,
    {
        let t = sorted[i];
        out.push(ChunkPosition { x: t.1, y: t.2, z: t.3 });
        i = i + 1;
    }
    proof {
        assert forall|j: int| 0 <= j < sorted@.len() implies wanted(center, candidate_pos(#[trigger] sorted@[j]), rd)
            && sorted@[j] == candidate(center, candidate_pos(sorted@[j])) by {
            assert(sorted@.contains(sorted@[j]));
            assert(sorted@.to_multiset().count(sorted@[j]) > 0);
            assert(items@.to_multiset().count(sorted@[j]) > 0);
            assert(items@.contains(sorted@[j]));
            let m = choose|m: int| 0 <= m < items@.len() && items@[m] == sorted@[j];
            assert(wanted(center, candidate_pos(items@[m]), rd));
        }
        assert forall|j: int| 0 <= j < out@.len() implies wanted(center, #[trigger] out@[j], rd) by {
            assert(out@[j] == candidate_pos(sorted@[j]));
        }
        assert forall|a: int, b: int| 0 <= a < out@.len() && 0 <= b < out@.len() && a != b implies out@[a] != out@[b] by {
            assert(sorted@[a] != sorted@[b]);
            assert(sorted@[a] == candidate(center, candidate_pos(sorted@[a])));
            assert(sorted@[b] == candidate(center, candidate_pos(sorted@[b])));
        }
        assert forall|p: ChunkPosition| #[trigger] wanted(center, p, rd) implies out@.contains(p) by {
            let x = p.x - center.x;
            let z = p.z - center.z;
            assert(in_disk(x, z, rd.horizontal as int));
            let m = choose|m: int| 0 <= m < disk@.len() && #[trigger] disk@[m] == (x as i32, z as i32) && disk@[m].0 == x && disk@[m].1 == z;
            let t = cand_at(center, disk@[m], p.y - center.y);
            assert(ChunkPosition { x: (center.x + disk@[m].0) as i32, y: (center.y + (p.y - center.y)) as i32, z: (center.z + disk@[m].1) as i32 } == p);
            assert(items@.contains(t));
            assert(items@.to_multiset().count(t) > 0);
            assert(sorted@.to_multiset().count(t) > 0);
            assert(sorted@.contains(t));
            let j = choose|j: int| 0 <= j < sorted@.len() && sorted@[j] == t;
            assert(out@[j] == p);
        }
        assert forall|a: int, b: int| 0 <= a <= b < out@.len() implies planar_sq(center, #[trigger] out@[a]) <= planar_sq(center, #[trigger] out@[b]) by {
            assert(sorted@[a].0 <= sorted@[b].0);
            assert(sorted@.contains(sorted@[a]));
            assert(sorted@.contains(sorted@[b]));
            assert(sorted@.to_multiset().count(sorted@[a]) > 0);
            assert(sorted@.to_multiset().count(sorted@[b]) > 0);
            assert(items@.to_multiset().count(sorted@[a]) > 0);
            assert(items@.to_multiset().count(sorted@[b]) > 0);
            assert(items@.contains(sorted@[a]));
            assert(items@.contains(sorted@[b]));
            let ma = choose|m: int| 0 <= m < items@.len() && items@[m] == sorted@[a];
            let mb = choose|m: int| 0 <= m < items@.len() && items@[m] == sorted@[b];
            assert(items@[ma] == candidate(center, candidate_pos(items@[ma])));
            assert(items@[mb] == candidate(center, candidate_pos(items@[mb])));
            let pa = candidate_pos(sorted@[a]);
            let pb = candidate_pos(sorted@[b]);
            assert(0 <= planar_sq(center, pa) <= 0x4000_0000 * 0x4000_0000) by {
                lemma_wanted_fits(center, rd, pa.x - center.x, pa.y - center.y, pa.z - center.z);
            }
            assert(0 <= planar_sq(center, pb) <= 0x4000_0000 * 0x4000_0000) by {
                lemma_wanted_fits(center, rd, pb.x - center.x, pb.y - center.y, pb.z - center.z);
            }
        }
    }
    out
}


/// The chunk holding the world voxel `observer`.
pub open spec fn center_of(observer: (i32, i32, i32)) -> ChunkPosition {
    ChunkPosition {
        x: chunk_of(observer.0 as int) as i32,
        y: chunk_of(observer.1 as int) as i32,
        z: chunk_of(observer.2 as int) as i32,
    }
}

proof fn lemma_center_ok(observer: (i32, i32, i32))
    ensures
        center_ok(center_of(observer)),
        center_of(observer).x == chunk_of(observer.0 as int),
        center_of(observer).y == chunk_of(observer.1 as int),
        center_of(observer).z == chunk_of(observer.2 as int),
{
}

/// A record that waits for its voxels.
pub open spec fn queued_record(p: ChunkPosition) -> ChunkRecord {
    ChunkRecord { position: p, state: ChunkState::Queued, voxels: None, mesh: None, entity: None }
}

/// Removes every record not wanted around `center` and returns them.
fn remove_unwanted(world: &mut World, center: ChunkPosition, rd: RenderDistance) -> (removed: Vec<ChunkRecord>)
    requires
        old(world).wf(),
    ensures
        final(world).wf(),
        forall|q: ChunkPosition| #[trigger] final(world)@.dom().contains(q) <==> old(world)@.dom().contains(q) && wanted(center, q, rd),
        forall|q: ChunkPosition| #[trigger] final(world)@.dom().contains(q) ==> final(world)@[q] == old(world)@[q],
        forall|i: int| 0 <= i < removed@.len() ==> old(world)@.dom().contains((#[trigger] removed@[i]).position)
            && !wanted(center, removed@[i].position, rd) && removed@[i] == old(world)@[removed@[i].position],
        forall|q: ChunkPosition| #[trigger] old(world)@.dom().contains(q) && !wanted(center, q, rd) ==> exists|i: int|
            0 <= i < removed@.len() && (#[trigger] removed@[i]).position == q,
{
    let positions = world.positions();
    let ghost w0 = world@;
    proof {
        world.lemma_records_keyed();
    }
    let mut removed: Vec<ChunkRecord> = Vec::new();
    let mut k: usize = 0;
    while k < positions.len()
        invariant
            world.wf(),
            w0 == old(world)@,
            forall|p: ChunkPosition| #[trigger] w0.dom().contains(p) ==> w0[p].position == p,
            forall|p: ChunkPosition| #[trigger] w0.dom().contains(p) <==> positions@.contains(p),
            k <= positions@.len(),
            forall|q: ChunkPosition| #[trigger] world@.dom().contains(q) <==> w0.dom().contains(q) && (wanted(center, q, rd) || !positions@.take(k as int).contains(q)),
            forall|q: ChunkPosition| #[trigger] world@.dom().contains(q) ==> world@[q] == w0[q],
            forall|i: int| 0 <= i < removed@.len() ==> w0.dom().contains((#[trigger] removed@[i]).position)
                && !wanted(center, removed@[i].position, rd) && removed@[i] == w0[removed@[i].position],
            forall|q: ChunkPosition| #[trigger] w0.dom().contains(q) && !wanted(center, q, rd) && positions@.take(k as int).contains(q) ==> exists|i: int|
                0 <= i < removed@.len() && (#[trigger] removed@[i]).position == q,
        decreases positions@.len() - k,
    {
        let p = positions[k];
        let ghost before = world@;
        let ghost rbefore = removed@;
        proof {
            assert(positions@.take(k + 1) =~= positions@.take(k as int).push(p));
        }
        if !World::can_render(&center, &p, &rd) {
            match world.remove_chunk(p) {
                Some(rec) => {
                    removed.push(rec);
                    proof {
                        assert(removed@[rbefore.len() as int].position == p);
                        assert forall|q: ChunkPosition| #[trigger] w0.dom().contains(q) && !wanted(center, q, rd) && positions@.take(k + 1).contains(q) implies exists|i: int|
                            0 <= i < removed@.len() && (#[trigger] removed@[i]).position == q by {
                            if q != p {
                                assert(positions@.take(k as int).contains(q));
                                let i = choose|i: int| 0 <= i < rbefore.len() && (#[trigger] rbefore[i]).position == q;
                                assert(removed@[i] == rbefore[i]);
                            } else {
                                assert(removed@[rbefore.len() as int].position == q);
                            }
                        }
                    }
                },
                None => {
                    proof {
                        assert(positions@.contains(p));
                        assert forall|q: ChunkPosition| #[trigger] w0.dom().contains(q) && !wanted(center, q, rd) && positions@.take(k + 1).contains(q) implies exists|i: int|
                            0 <= i < removed@.len() && (#[trigger] removed@[i]).position == q by {
                            if q != p {
                                assert(positions@.take(k as int).contains(q));
                            } else {
                                let j = choose|j: int| 0 <= j < positions@.take(k as int).len() && positions@.take(k as int)[j] == p;
                                assert(positions@.take(k as int).contains(p));
                            }
                        }
                    }
                },
            }
        } else {
            proof {
                assert forall|q: ChunkPosition| #[trigger] w0.dom().contains(q) && !wanted(center, q, rd) && positions@.take(k + 1).contains(q) implies exists|i: int|
                    0 <= i < removed@.len() && (#[trigger] removed@[i]).position == q by {
                    if q != p {
                        assert(positions@.take(k as int).contains(q));
                    }
                }
            }
        }
        proof {
            assert(positions@.take(k + 1)[k as int] == p);
            assert forall|q: ChunkPosition| #[trigger] world@.dom().contains(q) <==> w0.dom().contains(q) && (wanted(center, q, rd) || !positions@.take(k + 1).contains(q)) by {
                if q != p {
                    if positions@.take(k + 1).contains(q) {
                        let t1 = positions@.take(k + 1);
                        let j = choose|j: int| 0 <= j < t1.len() && #[trigger] t1[j] == q;
                        assert(positions@.take(k as int)[j] == q);
                    }
                    if positions@.take(k as int).contains(q) {
                        let t0 = positions@.take(k as int);
                        let j = choose|j: int| 0 <= j < t0.len() && #[trigger] t0[j] == q;
                        assert(positions@.take(k + 1)[j] == q);
                    }
                    assert(world@.dom().contains(q) == before.dom().contains(q));
                }
            }
        }
        k = k + 1;
    }
    proof {
        assert(positions@.take(k as int) =~= positions@);
    }
    removed
}

/// Adds a waiting record for every chunk of `candidates` that has none,
/// and returns those chunks in the order of `candidates`.
fn add_wanted(world: &mut World, center: ChunkPosition, rd: RenderDistance, candidates: &Vec<ChunkPosition>) -> (added: Vec<ChunkPosition>)
    requires
        old(world).wf(),
        forall|i: int| 0 <= i < candidates@.len() ==> wanted(center, #[trigger] candidates@[i], rd),
        forall|i: int, j: int|
            0 <= i <= j < candidates@.len() ==> planar_sq(center, #[trigger] candidates@[i]) <= planar_sq(center, #[trigger] candidates@[j]),
    ensures
        final(world).wf(),
        forall|q: ChunkPosition| #[trigger] final(world)@.dom().contains(q) <==> old(world)@.dom().contains(q) || candidates@.contains(q),
        forall|q: ChunkPosition| #[trigger] old(world)@.dom().contains(q) ==> final(world)@[q] == old(world)@[q],
        forall|q: ChunkPosition| #[trigger] final(world)@.dom().contains(q) && !old(world)@.dom().contains(q) ==> final(world)@[q] == queued_record(q),
        added@.no_duplicates(),
        forall|i: int| 0 <= i < added@.len() ==> !old(world)@.dom().contains(#[trigger] added@[i]) && candidates@.contains(added@[i]),
        forall|q: ChunkPosition| #[trigger] candidates@.contains(q) && !old(world)@.dom().contains(q) ==> added@.contains(q),
        forall|i: int, j: int|
            0 <= i <= j < added@.len() ==> planar_sq(center, #[trigger] added@[i]) <= planar_sq(center, #[trigger] added@[j]),
{
    let ghost w0 = world@;
    let mut added: Vec<ChunkPosition> = Vec::new();
    let mut k: usize = 0;
    while k < candidates.len()
        invariant
            world.wf(),
            w0 == old(world)@,
            forall|i: int, j: int|
                0 <= i <= j < candidates@.len() ==> planar_sq(center, #[trigger] candidates@[i]) <= planar_sq(center, #[trigger] candidates@[j]),
            k <= candidates@.len(),
            forall|q: ChunkPosition| #[trigger] world@.dom().contains(q) <==> w0.dom().contains(q) || candidates@.take(k as int).contains(q),
            forall|q: ChunkPosition| #[trigger] w0.dom().contains(q) ==> world@[q] == w0[q],
            forall|q: ChunkPosition| #[trigger] world@.dom().contains(q) && !w0.dom().contains(q) ==> world@[q] == queued_record(q),
            forall|i: int| 0 <= i < added@.len() ==> !w0.dom().contains(#[trigger] added@[i]) && candidates@.take(k as int).contains(added@[i]),
            forall|i: int| 0 <= i < added@.len() ==> world@.dom().contains(#[trigger] added@[i]),
            added@.no_duplicates(),
            forall|q: ChunkPosition| #[trigger] candidates@.take(k as int).contains(q) && !w0.dom().contains(q) ==> added@.contains(q),
            forall|i: int, j: int|
                0 <= i <= j < added@.len() ==> planar_sq(center, #[trigger] added@[i]) <= planar_sq(center, #[trigger] added@[j]),
            forall|i: int, j: int|
                0 <= i < added@.len() && k <= j < candidates@.len() ==> planar_sq(center, #[trigger] added@[i]) <= planar_sq(center, #[trigger] candidates@[j]),
        decreases candidates@.len() - k,
    {
        let p = candidates[k];
        let ghost before = world@;
        let ghost abefore = added@;
        proof {
            assert(candidates@.take(k + 1) =~= candidates@.take(k as int).push(p));
            assert forall|i: int| 0 <= i < added@.len() implies candidates@.take(k + 1).contains(#[trigger] added@[i]) by {
                let j = choose|j: int| 0 <= j < candidates@.take(k as int).len() && candidates@.take(k as int)[j] == added@[i];
                assert(candidates@.take(k + 1)[j] == added@[i]);
            }
        }
        if !world.contains(p) {
            world.add_chunk(p, None);
            added.push(p);
            proof {
                assert forall|i: int, j: int| 0 <= i < added@.len() && 0 <= j < added@.len() && i != j implies added@[i] != added@[j] by {
                    if i < abefore.len() && j < abefore.len() {
                        assert(abefore[i] != abefore[j]);
                    } else if i < abefore.len() {
                        assert(before.dom().contains(abefore[i]));
                    } else {
                        assert(before.dom().contains(abefore[j]));
                    }
                }
                assert(added@[abefore.len() as int] == p);
                assert(candidates@.take(k + 1)[k as int] == p);
                assert forall|q: ChunkPosition| #[trigger] candidates@.take(k + 1).contains(q) && !w0.dom().contains(q) implies added@.contains(q) by {
                    if q == p {
                        assert(added@[abefore.len() as int] == q);
                    } else {
                        assert(candidates@.take(k as int).contains(q));
                        let i = choose|i: int| 0 <= i < abefore.len() && abefore[i] == q;
                        assert(added@[i] == q);
                    }
                }
                assert forall|i: int, j: int| 0 <= i < added@.len() && k + 1 <= j < candidates@.len() implies planar_sq(center, #[trigger] added@[i]) <= planar_sq(center, #[trigger] candidates@[j]) by {
                    if i == abefore.len() {
                        assert(planar_sq(center, candidates@[k as int]) <= planar_sq(center, candidates@[j]));
                    } else {
                        assert(added@[i] == abefore[i]);
                    }
                }
                assert forall|i: int, j: int| 0 <= i <= j < added@.len() implies planar_sq(center, #[trigger] added@[i]) <= planar_sq(center, #[trigger] added@[j]) by {
                    if j == abefore.len() && i < j {
                        assert(added@[i] == abefore[i]);
                        assert(planar_sq(center, abefore[i]) <= planar_sq(center, candidates@[k as int]));
                    } else if j < abefore.len() {
                        assert(added@[i] == abefore[i]);
                        assert(added@[j] == abefore[j]);
                    }
                }
            }
        } else {
            proof {
                assert forall|q: ChunkPosition| #[trigger] candidates@.take(k + 1).contains(q) && !w0.dom().contains(q) implies added@.contains(q) by {
                    if q != p {
                        assert(candidates@.take(k as int).contains(q));
                    } else {
                        assert(candidates@.take(k as int).contains(q));
                    }
                }
            }
        }
        k = k + 1;
    }
    proof {
        assert(candidates@.take(k as int) =~= candidates@);
    }
    added
}


/// What one control cycle asks of the rest of the system: chunks to
/// generate, nearest first, and records that left the world.
pub struct StreamingUpdate {
    pub to_generate: Vec<ChunkPosition>,
    pub removed: Vec<ChunkRecord>,
}

/// Keeps the world's resident chunks equal to those wanted around the
/// observer, and merges finished work into it.
pub struct StreamingController {
    world: World,
    render_distance: RenderDistance,
    center: Option<ChunkPosition>,
}

impl StreamingController {
    /// The world is well formed, and once a centre is known its resident
    /// chunks are exactly those wanted around it.
    pub closed spec fn inv(&self) -> bool {
        &&& self.world.wf()
        &&& distance_ok(self.render_distance)
        &&& match self.center {
            Some(c) => center_ok(c) && forall|p: ChunkPosition| #[trigger] self.world@.dom().contains(p) <==> wanted(c, p, self.render_distance),
            None => self.world@.dom() == Set::<ChunkPosition>::empty(),
        }
    }

    pub closed spec fn spec_world(&self) -> Map<ChunkPosition, ChunkRecord> {
        self.world@
    }

    pub closed spec fn spec_center(&self) -> Option<ChunkPosition> {
        self.center
    }

    pub closed spec fn spec_render_distance(&self) -> RenderDistance {
        self.render_distance
    }

    /// A controller with an empty world that has not seen the observer.
    pub fn new(render_distance: RenderDistance) -> (r: StreamingController)
        requires
            distance_ok(render_distance),
        ensures
            r.inv(),
            r.spec_world() == Map::<ChunkPosition, ChunkRecord>::empty(),
            r.spec_center() == None::<ChunkPosition>,
            r.spec_render_distance() == render_distance,
    {
        let r = StreamingController { world: World::new(), render_distance, center: None };
        assert(r.world@.dom() =~= Set::<ChunkPosition>::empty());
        r
    }

    /// The world, for reading.
    pub fn world(&self) -> (r: &World)
        requires
            self.inv(),
        ensures
            r.wf(),
            r@ == self.spec_world(),
    {
        &self.world
    }

    pub fn center(&self) -> (r: Option<ChunkPosition>)
        ensures
            r == self.spec_center(),
    {
        self.center
    }

    pub fn render_distance(&self) -> (r: RenderDistance)
        ensures
            r == self.spec_render_distance(),
    {
        self.render_distance
    }

    /// One control cycle for an observer at world voxel `observer`. When
    /// the observer's chunk is the one of the last cycle nothing changes.
    /// Otherwise records no longer wanted are removed and returned, and a
    /// waiting record is added for each wanted chunk that had none; those
    /// chunks are returned nearest first. Afterwards the resident chunks
    /// are exactly those wanted around the observer's chunk.
    pub fn update(&mut self, observer: (i32, i32, i32)) -> (r: StreamingUpdate)
        requires
            old(self).inv(),
        ensures
            final(self).inv(),
            final(self).spec_center() == Some(center_of(observer)),
            final(self).spec_render_distance() == old(self).spec_render_distance(),
            forall|p: ChunkPosition| #[trigger] final(self).spec_world().dom().contains(p) <==> wanted(
                center_of(observer),
                p,
                old(self).spec_render_distance(),
            ),
            forall|p: ChunkPosition| #[trigger] old(self).spec_world().dom().contains(p) && final(self).spec_world().dom().contains(p)
                ==> final(self).spec_world()[p] == old(self).spec_world()[p],
            forall|p: ChunkPosition| #[trigger] final(self).spec_world().dom().contains(p) && !old(self).spec_world().dom().contains(p)
                ==> final(self).spec_world()[p] == queued_record(p),
            r.to_generate@.no_duplicates(),
            forall|i: int| 0 <= i < r.to_generate@.len() ==> !old(self).spec_world().dom().contains(#[trigger] r.to_generate@[i])
                && final(self).spec_world().dom().contains(r.to_generate@[i]),
            forall|p: ChunkPosition| #[trigger] final(self).spec_world().dom().contains(p) && !old(self).spec_world().dom().contains(p)
                ==> r.to_generate@.contains(p),
            forall|i: int, j: int|
                0 <= i <= j < r.to_generate@.len() ==> planar_sq(center_of(observer), #[trigger] r.to_generate@[i])
                    <= planar_sq(center_of(observer), #[trigger] r.to_generate@[j]),
            forall|i: int| 0 <= i < r.removed@.len() ==> old(self).spec_world().dom().contains((#[trigger] r.removed@[i]).position)
                && !final(self).spec_world().dom().contains(r.removed@[i].position)
                && r.removed@[i] == old(self).spec_world()[r.removed@[i].position],
            forall|p: ChunkPosition| #[trigger] old(self).spec_world().dom().contains(p) && !final(self).spec_world().dom().contains(p)
                ==> exists|i: int| 0 <= i < r.removed@.len() && (#[trigger] r.removed@[i]).position == p,
    {
        let center = ChunkPosition::from_world(observer);
        proof {
            lemma_center_ok(observer);
        }
        let rd = self.render_distance;
        if let Some(c) = self.center {
            if c == center {
                return StreamingUpdate { to_generate: Vec::new(), removed: Vec::new() };
            }
        }
        let removed = remove_unwanted(&mut self.world, center, rd);
        let candidates = chunks_positions_in_render_distance(center, rd);
        let ghost w1 = self.world@;
        let to_generate = add_wanted(&mut self.world, center, rd, &candidates);
        self.center = Some(center);
        proof {
            assert forall|p: ChunkPosition| #[trigger] self.world@.dom().contains(p) <==> wanted(center, p, rd) by {
                if wanted(center, p, rd) {
                    assert(candidates@.contains(p));
                }
                if candidates@.contains(p) {
                    let i = choose|i: int| 0 <= i < candidates@.len() && candidates@[i] == p;
                    assert(wanted(center, candidates@[i], rd));
                }
            }
            assert forall|p: ChunkPosition| #[trigger] self.world@.dom().contains(p) && !old(self).world@.dom().contains(p)
                implies to_generate@.contains(p) by {
                assert(!w1.dom().contains(p));
                assert(candidates@.contains(p));
            }
            assert forall|p: ChunkPosition| #[trigger] old(self).world@.dom().contains(p) && self.world@.dom().contains(p)
                implies self.world@[p] == old(self).world@[p] by {
                assert(w1.dom().contains(p));
            }
            assert forall|p: ChunkPosition| #[trigger] self.world@.dom().contains(p) && !old(self).world@.dom().contains(p)
                implies self.world@[p] == queued_record(p) by {
                assert(!w1.dom().contains(p));
            }
            assert forall|i: int| 0 <= i < to_generate@.len() implies !old(self).world@.dom().contains(#[trigger] to_generate@[i])
                && self.world@.dom().contains(to_generate@[i]) by {
                let q = to_generate@[i];
                assert(candidates@.contains(q));
                let j = choose|j: int| 0 <= j < candidates@.len() && candidates@[j] == q;
                assert(wanted(center, candidates@[j], rd));
            }
        }
        StreamingUpdate { to_generate, removed }
    }
}


/// Whether the chunk at `p` is resident with its voxels generated.
pub open spec fn generated(w: Map<ChunkPosition, ChunkRecord>, p: ChunkPosition) -> bool {
    w.dom().contains(p) && w[p].state != ChunkState::Queued
}

/// Whether the chunk at `p` and all 26 around it are generated.
pub open spec fn mesh_ready(w: Map<ChunkPosition, ChunkRecord>, p: ChunkPosition) -> bool {
    generated(w, p) && forall|q: ChunkPosition| is_neighbor(p, q) ==> #[trigger] generated(w, q)
}

/// The voxel at `(x, y, z)` of the bordered snapshot of the chunk at `p`,
/// read from the world: border cells come from the neighbour in that
/// direction.
pub open spec fn world_bordered(w: Map<ChunkPosition, ChunkRecord>, p: ChunkPosition, x: int, y: int, z: int) -> VoxelType {
    let (dx, lx) = axis_source(x);
    let (dy, ly) = axis_source(y);
    let (dz, lz) = axis_source(z);
    let q = ChunkPosition { x: (p.x + dx) as i32, y: (p.y + dy) as i32, z: (p.z + dz) as i32 };
    match w[q].voxels {
        Some(v) => v.voxel_at(lx, ly, lz),
        None => VoxelType::Empty,
    }
}

proof fn lemma_wanted_bounds(c: ChunkPosition, p: ChunkPosition, rd: RenderDistance)
    requires
        center_ok(c),
        distance_ok(rd),
        wanted(c, p, rd),
    ensures
        neighbors_fit(p),
        -0x4000_0000 <= p.x - c.x <= 0x4000_0000,
        -0x4000_0000 <= p.y - c.y <= 0x4000_0000,
        -0x4000_0000 <= p.z - c.z <= 0x4000_0000,
{
    lemma_disk_bounds(p.x - c.x, p.z - c.z, rd.horizontal as int);
}

impl StreamingController {
    proof fn lemma_resident_fits(&self, p: ChunkPosition)
        requires
            self.inv(),
            self.world@.dom().contains(p),
        ensures
            neighbors_fit(p),
            self.center.is_some(),
            -0x4000_0000 <= p.x - self.center.unwrap().x <= 0x4000_0000,
            -0x4000_0000 <= p.y - self.center.unwrap().y <= 0x4000_0000,
            -0x4000_0000 <= p.z - self.center.unwrap().z <= 0x4000_0000,
    {
        let c = self.center.unwrap();
        lemma_wanted_bounds(c, p, self.render_distance);
    }

    /// Stores freshly generated voxels for `position` if it is still
    /// resident (else drops them); the chunk then waits for its mesh.
    pub fn merge_generation(&mut self, position: ChunkPosition, voxels: BaseChunk) -> (applied: bool)
        requires
            old(self).inv(),
        ensures
            final(self).inv(),
            final(self).spec_center() == old(self).spec_center(),
            final(self).spec_render_distance() == old(self).spec_render_distance(),
            applied == old(self).spec_world().dom().contains(position),
            applied ==> final(self).spec_world() == old(self).spec_world().insert(
                position,
                ChunkRecord {
                    position,
                    state: ChunkState::AwaitingMesh,
                    voxels: Some(voxels),
                    mesh: None,
                    entity: old(self).spec_world()[position].entity,
                },
            ),
            !applied ==> final(self).spec_world() == old(self).spec_world(),
    {
        match self.world.remove_chunk(position) {
            Some(rec) => {
                let entity = rec.entity;
                self.world.insert(ChunkRecord { position, state: ChunkState::AwaitingMesh, voxels: Some(voxels), mesh: None, entity });
                proof {
                    assert(self.world@ =~= old(self).world@.insert(position, ChunkRecord { position, state: ChunkState::AwaitingMesh, voxels: Some(voxels), mesh: None, entity }));
                    assert(self.world@.dom() =~= old(self).world@.dom());
                }
                true
            },
            None => {
                proof {
                    assert(self.world@ =~= old(self).world@);
                }
                false
            },
        }
    }

    /// Attaches a finished mesh to `position` if its record is resident and
    /// waiting for exactly this work; otherwise the result is stale and is
    /// dropped. A mesh for a chunk that is no longer wanted is never applied.
    pub fn merge_mesh(&mut self, position: ChunkPosition, mesh: MeshData) -> (applied: bool)
        requires
            old(self).inv(),
        ensures
            final(self).inv(),
            final(self).spec_center() == old(self).spec_center(),
            final(self).spec_render_distance() == old(self).spec_render_distance(),
            applied == (old(self).spec_world().dom().contains(position)
                && old(self).spec_world()[position].state == ChunkState::MeshQueued),
            applied ==> final(self).spec_world() == old(self).spec_world().insert(
                position,
                ChunkRecord {
                    position,
                    state: ChunkState::Rendered,
                    voxels: old(self).spec_world()[position].voxels,
                    mesh: Some(mesh),
                    entity: old(self).spec_world()[position].entity,
                },
            ),
            !applied ==> final(self).spec_world() == old(self).spec_world(),
            match old(self).spec_center() {
                Some(c) => !wanted(c, position, old(self).spec_render_distance()) ==> !applied
                    && !final(self).spec_world().dom().contains(position),
                None => !applied,
            },
    {
        proof {
            self.world.lemma_records_keyed();
        }
        let ready = match self.world.get(position) {
            Some(rec) => rec.state == ChunkState::MeshQueued,
            None => false,
        };
        if !ready {
            return false;
        }
        match self.world.remove_chunk(position) {
            Some(rec) => {
                let ChunkRecord { position: _, state: _, voxels, mesh: _, entity } = rec;
                let ghost new_rec = ChunkRecord { position, state: ChunkState::Rendered, voxels, mesh: Some(mesh), entity };
                self.world.insert(ChunkRecord { position, state: ChunkState::Rendered, voxels, mesh: Some(mesh), entity });
                proof {
                    assert(self.world@ =~= old(self).world@.insert(position, new_rec));
                    assert(self.world@.dom() =~= old(self).world@.dom());
                }
                true
            },
            None => false,
        }
    }

    /// Whether the chunk at `position` and all 26 around it are generated.
    pub fn is_mesh_ready(&self, position: ChunkPosition) -> (r: bool)
        requires
            self.inv(),
        ensures
            r == mesh_ready(self.spec_world(), position),
    {
        match self.world.get(position) {
            None => false,
            Some(rec) => {
                if rec.state == ChunkState::Queued {
                    return false;
                }
                proof {
                    self.lemma_resident_fits(position);
                }
                let ns = position.neighbors();
                let mut k: usize = 0;
                while k < ns.len()
                    invariant
                        self.inv(),
                        ns@.len() == 26,
                        forall|m: int| 0 <= m < 26 ==> pos_tuple(#[trigger] ns@[m]) == offset_by(position, neighbor_offset(m)),
                        k <= 26,
                        forall|m: int| 0 <= m < k ==> generated(self.world@, #[trigger] ns@[m]),
                    decreases 26 - k,
                {
                    let ok = match self.world.get(ns[k]) {
                        Some(nrec) => nrec.state != ChunkState::Queued,
                        None => false,
                    };
                    if !ok {
                        proof {
                            lemma_offset_is_neighbor(position, k as int);
                            assert(is_neighbor(position, ns@[k as int]));
                            assert(!generated(self.world@, ns@[k as int]));
                        }
                        return false;
                    }
                    k = k + 1;
                }
                proof {
                    assert forall|q: ChunkPosition| is_neighbor(position, q) implies #[trigger] generated(self.world@, q) by {
                        lemma_neighbor_slot(position, q);
                        let m = neighbor_slot(q.x - position.x, q.y - position.y, q.z - position.z);
                        assert(ns@[m] == q);
                    }
                }
                true
            },
        }
    }

    /// The bordered snapshot of the chunk at `position`, read from the
    /// world, when it and its 26 neighbours are generated.
    pub fn build_snapshot(&self, position: ChunkPosition) -> (r: Option<ChunkWithNeighbors>)
        requires
            self.inv(),
        ensures
            r.is_some() == mesh_ready(self.spec_world(), position),
            match r {
                Some(s) => forall|x: int, y: int, z: int|
                    in_cube(CHUNK_SIZE_WITH_NEIGHBORS as int, x, y, z) ==> #[trigger] s.voxel_at(x, y, z)
                        == world_bordered(self.spec_world(), position, x, y, z),
                None => true,
            },
    {
        if !self.is_mesh_ready(position) {
            return None;
        }
        proof {
            self.world.lemma_records_keyed();
            self.lemma_resident_fits(position);
        }
        let chunk: &BaseChunk = match self.world.get(position) {
            Some(rec) => match &rec.voxels {
                Some(v) => v,
                None => { return None; },
            },
            None => { return None; },
        };
        let ns = position.neighbors();
        let mut neighbors: Vec<BaseChunk> = Vec::new();
        let mut k: usize = 0;
        while k < ns.len()
            invariant
                self.inv(),
                mesh_ready(self.world@, position),
                forall|p: ChunkPosition| #[trigger] self.world@.dom().contains(p) ==> crate::world::record_ok(self.world@[p]) && self.world@[p].position == p,
                ns@.len() == 26,
                forall|m: int| 0 <= m < 26 ==> pos_tuple(#[trigger] ns@[m]) == offset_by(position, neighbor_offset(m)),
                k <= 26,
                neighbors@.len() == k,
                forall|m: int| 0 <= m < k ==> self.world@[ns@[m]].voxels.is_some() && forall|a: int, b: int, c: int| #[trigger] neighbors@[m].voxel_at(a, b, c) == self.world@[ns@[m]].voxels.unwrap().voxel_at(a, b, c),
            decreases 26 - k,
        {
            proof {
                lemma_offset_is_neighbor(position, k as int);
                assert(is_neighbor(position, ns@[k as int]));
                assert(generated(self.world@, ns@[k as int]));
            }
            let v = match self.world.get(ns[k]) {
                Some(nrec) => match &nrec.voxels {
                    Some(v) => v.clone(),
                    None => { return None; },
                },
                None => { return None; },
            };
            neighbors.push(v);
            k = k + 1;
        }
        let snapshot = ChunkWithNeighbors::new(chunk, &neighbors);
        proof {
            assert forall|x: int, y: int, z: int| in_cube(CHUNK_SIZE_WITH_NEIGHBORS as int, x, y, z) implies #[trigger] snapshot.voxel_at(x, y, z)
                == world_bordered(self.world@, position, x, y, z) by {
                let (dx, lx) = axis_source(x);
                let (dy, ly) = axis_source(y);
                let (dz, lz) = axis_source(z);
                assert(snapshot.voxel_at(x, y, z) == bordered_source(chunk, &neighbors, x, y, z));
                if !(dx == 0 && dy == 0 && dz == 0) {
                    lemma_slot_offset(dx, dy, dz);
                    let m = neighbor_slot(dx, dy, dz);
                    assert(pos_tuple(ns@[m]) == offset_by(position, (dx, dy, dz)));
                    assert(ns@[m] == ChunkPosition { x: (position.x + dx) as i32, y: (position.y + dy) as i32, z: (position.z + dz) as i32 });
                    assert(self.world@[ns@[m]].voxels.is_some());
                    assert(neighbors@[m].voxel_at(lx, ly, lz) == self.world@[ns@[m]].voxels.unwrap().voxel_at(lx, ly, lz));
                } else {
                    assert(ChunkPosition { x: (position.x + dx) as i32, y: (position.y + dy) as i32, z: (position.z + dz) as i32 } == position);
                }
            }
        }
        Some(snapshot)
    }
}


/// Squared distance between two chunks.
pub open spec fn dist_sq(a: ChunkPosition, b: ChunkPosition) -> int {
    (b.x - a.x) * (b.x - a.x) + (b.y - a.y) * (b.y - a.y) + (b.z - a.z) * (b.z - a.z)
}

/// Whether the chunk at `p` waits for a mesh and can be meshed now.
pub open spec fn awaiting_ready(w: Map<ChunkPosition, ChunkRecord>, p: ChunkPosition) -> bool {
    w.dom().contains(p) && w[p].state == ChunkState::AwaitingMesh && mesh_ready(w, p)
}

/// Whether `p` is among the positions of `batch`.
pub open spec fn selected(batch: Seq<(ChunkPosition, ChunkWithNeighbors)>, p: ChunkPosition) -> bool {
    exists|i: int| 0 <= i < batch.len() && (#[trigger] batch[i]).0 == p
}

/// `r` with its state set to `MeshQueued`.
pub open spec fn mesh_queued(r: ChunkRecord) -> ChunkRecord {
    ChunkRecord { position: r.position, state: ChunkState::MeshQueued, voxels: r.voxels, mesh: r.mesh, entity: r.entity }
}

pub open spec fn dist_candidate(c: ChunkPosition, p: ChunkPosition) -> (i64, i32, i32, i32) {
    (dist_sq(c, p) as i64, p.x, p.y, p.z)
}

proof fn lemma_dist_fits(c: ChunkPosition, p: ChunkPosition)
    requires
        -0x4000_0000 <= p.x - c.x <= 0x4000_0000,
        -0x4000_0000 <= p.y - c.y <= 0x4000_0000,
        -0x4000_0000 <= p.z - c.z <= 0x4000_0000,
    ensures
        0 <= dist_sq(c, p) <= 3 * 0x4000_0000 * 0x4000_0000,
        0 <= (p.x - c.x) * (p.x - c.x) <= 0x4000_0000 * 0x4000_0000,
        0 <= (p.y - c.y) * (p.y - c.y) <= 0x4000_0000 * 0x4000_0000,
        0 <= (p.z - c.z) * (p.z - c.z) <= 0x4000_0000 * 0x4000_0000,
{
    let dx = p.x - c.x;
    let dy = p.y - c.y;
    let dz = p.z - c.z;
    assert(0 <= dx * dx <= 0x4000_0000 * 0x4000_0000) by (nonlinear_arith)
        requires
            -0x4000_0000 <= dx <= 0x4000_0000,
    ;
    assert(0 <= dy * dy <= 0x4000_0000 * 0x4000_0000) by (nonlinear_arith)
        requires
            -0x4000_0000 <= dy <= 0x4000_0000,
    ;
    assert(0 <= dz * dz <= 0x4000_0000 * 0x4000_0000) by (nonlinear_arith)
        requires
            -0x4000_0000 <= dz <= 0x4000_0000,
    ;
}

impl StreamingController {
    /// The chunks waiting for a mesh whose neighbours are all generated,
    /// nearest to the observer's chunk first.
    fn ready_candidates(&self) -> (r: Vec<(i64, i32, i32, i32)>)
        requires
            self.inv(),
            self.center.is_some(),
        ensures
            forall|i: int| 0 <= i < r@.len() ==> awaiting_ready(self.world@, candidate_pos(#[trigger] r@[i]))
                && r@[i] == dist_candidate(self.center.unwrap(), candidate_pos(r@[i])),
            forall|p: ChunkPosition| #[trigger] awaiting_ready(self.world@, p) ==> r@.contains(dist_candidate(self.center.unwrap(), p)),
            forall|i: int, j: int| 0 <= i <= j < r@.len() ==> (#[trigger] r@[i]).0 <= (#[trigger] r@[j]).0,
    {
        let c = self.center.unwrap();
        let positions = self.world.positions();
        let mut cands: Vec<(i64, i32, i32, i32)> = Vec::new();
        let mut k: usize = 0;
        while k < positions.len()
            invariant
                self.inv(),
                self.center == Some(c),
                forall|p: ChunkPosition| #[trigger] self.world@.dom().contains(p) <==> positions@.contains(p),
                k <= positions@.len(),
                forall|i: int| 0 <= i < cands@.len() ==> awaiting_ready(self.world@, candidate_pos(#[trigger] cands@[i]))
                    && cands@[i] == dist_candidate(c, candidate_pos(cands@[i])),
                forall|p: ChunkPosition| #[trigger] awaiting_ready(self.world@, p) && positions@.take(k as int).contains(p)
                    ==> cands@.contains(dist_candidate(c, p)),
            decreases positions@.len() - k,
        {
            let p = positions[k];
            let ghost before = cands@;
            proof {
                assert(positions@.take(k + 1) =~= positions@.take(k as int).push(p));
                assert(positions@.contains(p));
                self.lemma_resident_fits(p);
                lemma_dist_fits(c, p);
            }
            let awaiting = match self.world.get(p) {
                Some(rec) => rec.state == ChunkState::AwaitingMesh,
                None => false,
            };
            if awaiting && self.is_mesh_ready(p) {
                let dx = p.x as i64 - c.x as i64;
                let dy = p.y as i64 - c.y as i64;
                let dz = p.z as i64 - c.z as i64;
                cands.push((dx * dx + dy * dy + dz * dz, p.x, p.y, p.z));
                proof {
                    assert(cands@[before.len() as int] == dist_candidate(c, p));
                    assert forall|q: ChunkPosition| #[trigger] awaiting_ready(self.world@, q) && positions@.take(k + 1).contains(q)
                        implies cands@.contains(dist_candidate(c, q)) by {
                        if q == p {
                            assert(cands@[before.len() as int] == dist_candidate(c, q));
                        } else {
                            let t1 = positions@.take(k + 1);
                            let j = choose|j: int| 0 <= j < t1.len() && #[trigger] t1[j] == q;
                            assert(positions@.take(k as int)[j] == q);
                            assert(before.contains(dist_candidate(c, q)));
                            let i = choose|i: int| 0 <= i < before.len() && before[i] == dist_candidate(c, q);
                            assert(cands@[i] == dist_candidate(c, q));
                        }
                    }
                }
            } else {
                proof {
                    assert forall|q: ChunkPosition| #[trigger] awaiting_ready(self.world@, q) && positions@.take(k + 1).contains(q)
                        implies cands@.contains(dist_candidate(c, q)) by {
                        if q != p {
                            let t1 = positions@.take(k + 1);
                            let j = choose|j: int| 0 <= j < t1.len() && #[trigger] t1[j] == q;
                            assert(positions@.take(k as int)[j] == q);
                        }
                    }
                }
            }
            k = k + 1;
        }
        proof {
            assert(positions@.take(k as int) =~= positions@);
        }
        let sorted = sorted_by_first(cands);
        proof {
            sorted@.to_multiset_ensures();
            cands@.to_multiset_ensures();
            assert forall|i: int| 0 <= i < sorted@.len() implies awaiting_ready(self.world@, candidate_pos(#[trigger] sorted@[i]))
                && sorted@[i] == dist_candidate(c, candidate_pos(sorted@[i])) by {
                assert(sorted@.contains(sorted@[i]));
                assert(sorted@.to_multiset().count(sorted@[i]) > 0);
                assert(cands@.to_multiset().count(sorted@[i]) > 0);
                assert(cands@.contains(sorted@[i]));
                let j = choose|j: int| 0 <= j < cands@.len() && cands@[j] == sorted@[i];
                assert(awaiting_ready(self.world@, candidate_pos(cands@[j])));
            }
            assert forall|p: ChunkPosition| #[trigger] awaiting_ready(self.world@, p) implies sorted@.contains(dist_candidate(c, p)) by {
                assert(positions@.contains(p));
                assert(cands@.contains(dist_candidate(c, p)));
                assert(cands@.to_multiset().count(dist_candidate(c, p)) > 0);
                assert(sorted@.to_multiset().count(dist_candidate(c, p)) > 0);
            }
        }
        sorted
    }

    /// Picks at most `budget` chunks that wait for a mesh and whose 26
    /// neighbours are generated, nearest to the observer's chunk first,
    /// marks them as being meshed, and returns each with its bordered
    /// snapshot. Chunks left out are no nearer than any chunk picked, and
    /// are left out only when the budget is used up.
    pub fn select_mesh_batch(&mut self, budget: usize) -> (r: Vec<(ChunkPosition, ChunkWithNeighbors)>)
        requires
            old(self).inv(),
        ensures
            final(self).inv(),
            final(self).spec_center() == old(self).spec_center(),
            final(self).spec_render_distance() == old(self).spec_render_distance(),
            final(self).spec_world().dom() == old(self).spec_world().dom(),
            r@.len() <= budget,
            forall|i: int| 0 <= i < r@.len() ==> awaiting_ready(old(self).spec_world(), (#[trigger] r@[i]).0)
                && final(self).spec_world()[r@[i].0] == mesh_queued(old(self).spec_world()[r@[i].0]),
            forall|i: int, x: int, y: int, z: int|
                0 <= i < r@.len() && in_cube(CHUNK_SIZE_WITH_NEIGHBORS as int, x, y, z) ==> #[trigger] r@[i].1.voxel_at(x, y, z)
                    == world_bordered(old(self).spec_world(), r@[i].0, x, y, z),
            forall|i: int, j: int| 0 <= i < j < r@.len() ==> (#[trigger] r@[i]).0 != (#[trigger] r@[j]).0,
            forall|p: ChunkPosition| #[trigger] old(self).spec_world().dom().contains(p) && !selected(r@, p)
                ==> final(self).spec_world()[p] == old(self).spec_world()[p],
            forall|p: ChunkPosition| #[trigger] awaiting_ready(old(self).spec_world(), p) && !selected(r@, p) ==> r@.len() == budget
                && forall|i: int| 0 <= i < r@.len() ==> dist_sq(old(self).spec_center().unwrap(), #[trigger] r@[i].0)
                    <= dist_sq(old(self).spec_center().unwrap(), p),
            forall|i: int, j: int| 0 <= i <= j < r@.len() ==> dist_sq(old(self).spec_center().unwrap(), (#[trigger] r@[i]).0)
                <= dist_sq(old(self).spec_center().unwrap(), (#[trigger] r@[j]).0),
    {
        let mut out: Vec<(ChunkPosition, ChunkWithNeighbors)> = Vec::new();
        let c = match self.center {
            Some(c) => c,
            None => {
                return out;
            },
        };
        let sorted = self.ready_candidates();
        let ghost w0 = self.world@;
        proof {
            self.world.lemma_records_keyed();
        }
        let mut k: usize = 0;
        while k < sorted.len() && out.len() < budget
            invariant
                self.inv(),
                self.center == Some(c),
                self.render_distance == old(self).render_distance,
                w0 == old(self).world@,
                forall|p: ChunkPosition| #[trigger] w0.dom().contains(p) ==> crate::world::record_ok(w0[p]) && w0[p].position == p,
                self.world@.dom() == w0.dom(),
                forall|i: int| 0 <= i < sorted@.len() ==> awaiting_ready(w0, candidate_pos(#[trigger] sorted@[i]))
                    && sorted@[i] == dist_candidate(c, candidate_pos(sorted@[i])),
                forall|p: ChunkPosition| #[trigger] awaiting_ready(w0, p) ==> sorted@.contains(dist_candidate(c, p)),
                forall|i: int, j: int| 0 <= i <= j < sorted@.len() ==> (#[trigger] sorted@[i]).0 <= (#[trigger] sorted@[j]).0,
                k <= sorted@.len(),
                out@.len() <= budget,
                forall|i: int| 0 <= i < out@.len() ==> awaiting_ready(w0, (#[trigger] out@[i]).0)
                    && self.world@[out@[i].0] == mesh_queued(w0[out@[i].0]),
                forall|i: int, x: int, y: int, z: int|
                    0 <= i < out@.len() && in_cube(CHUNK_SIZE_WITH_NEIGHBORS as int, x, y, z) ==> #[trigger] out@[i].1.voxel_at(x, y, z)
                        == world_bordered(w0, out@[i].0, x, y, z),
                forall|i: int, j: int| 0 <= i < j < out@.len() ==> (#[trigger] out@[i]).0 != (#[trigger] out@[j]).0,
                forall|p: ChunkPosition| #[trigger] w0.dom().contains(p) && !selected(out@, p) ==> self.world@[p] == w0[p],
                forall|j: int| 0 <= j < k ==> selected(out@, candidate_pos(#[trigger] sorted@[j])),
                forall|i: int, j: int| 0 <= i < out@.len() && k <= j < sorted@.len() ==> dist_sq(c, (#[trigger] out@[i]).0) <= (#[trigger] sorted@[j]).0,
                forall|i: int, j: int| 0 <= i <= j < out@.len() ==> dist_sq(c, (#[trigger] out@[i]).0) <= dist_sq(c, (#[trigger] out@[j]).0),
            decreases sorted@.len() - k,
        {
            let t = sorted[k];
            let p = ChunkPosition { x: t.1, y: t.2, z: t.3 };
            let ghost wb = self.world@;
            let ghost ob = out@;
            assert(p == candidate_pos(sorted@[k as int]));
            assert(awaiting_ready(w0, p));
            let still = match self.world.get(p) {
                Some(rec) => rec.state == ChunkState::AwaitingMesh,
                None => false,
            };
            if still {
                proof {
                    assert(!selected(out@, p)) by {
                        if selected(out@, p) {
                            let i = choose|i: int| 0 <= i < out@.len() && (#[trigger] out@[i]).0 == p;
                            assert(self.world@[p].state == ChunkState::MeshQueued);
                        }
                    }
                    assert forall|q: ChunkPosition| #[trigger] generated(w0, q) implies generated(self.world@, q) by {
                        if selected(out@, q) {
                            let i = choose|i: int| 0 <= i < out@.len() && (#[trigger] out@[i]).0 == q;
                            assert(self.world@[out@[i].0] == mesh_queued(w0[out@[i].0]));
                        }
                    }
                    assert forall|q: ChunkPosition| is_neighbor(p, q) implies #[trigger] generated(self.world@, q) by {
                        assert(generated(w0, q));
                    }
                    assert(mesh_ready(self.world@, p));
                    self.lemma_resident_fits(p);
                }
                let snap = self.build_snapshot(p);
                let snap = match snap {
                    Some(s) => s,
                    None => {
                        proof {
                            assert(false);
                        }
                        return out;
                    },
                };
                proof {
                    assert forall|x: int, y: int, z: int| in_cube(CHUNK_SIZE_WITH_NEIGHBORS as int, x, y, z) implies #[trigger] snap.voxel_at(x, y, z)
                        == world_bordered(w0, p, x, y, z) by {
                        let (dx, lx) = axis_source(x);
                        let (dy, ly) = axis_source(y);
                        let (dz, lz) = axis_source(z);
                        let q = ChunkPosition { x: (p.x + dx) as i32, y: (p.y + dy) as i32, z: (p.z + dz) as i32 };
                        if !(dx == 0 && dy == 0 && dz == 0) {
                            assert(q != p);
                            assert(is_neighbor(p, q));
                            assert(generated(w0, q));
                        }
                        assert(w0.dom().contains(q));
                        if selected(out@, q) {
                            let i = choose|i: int| 0 <= i < out@.len() && (#[trigger] out@[i]).0 == q;
                            assert(self.world@[q].voxels == w0[q].voxels);
                        } else {
                            assert(self.world@[q] == w0[q]);
                        }
                    }
                }
                let rec = self.world.remove_chunk(p);
                match rec {
                    Some(rec) => {
                        let ChunkRecord { position, state: _, voxels, mesh, entity } = rec;
                        self.world.insert(ChunkRecord { position, state: ChunkState::MeshQueued, voxels, mesh, entity });
                    },
                    None => {
                        proof {
                            assert(false);
                        }
                    },
                }
                out.push((p, snap));
                proof {
                    lemma_dist_fits(c, p);
                    assert(sorted@[k as int].0 == dist_sq(c, p));
                    assert(self.world@.dom() =~= w0.dom());
                    assert(self.world@[p] == mesh_queued(w0[p]));
                    assert(out@[ob.len() as int].0 == p);
                    assert forall|q: ChunkPosition| #[trigger] w0.dom().contains(q) && !selected(out@, q) implies self.world@[q] == w0[q] by {
                        if selected(ob, q) {
                            let i = choose|i: int| 0 <= i < ob.len() && (#[trigger] ob[i]).0 == q;
                            assert(out@[i].0 == q);
                        }
                        assert(q != p);
                    }
                    assert forall|i: int| 0 <= i < out@.len() implies awaiting_ready(w0, (#[trigger] out@[i]).0)
                        && self.world@[out@[i].0] == mesh_queued(w0[out@[i].0]) by {
                        if i < ob.len() {
                            assert(out@[i] == ob[i]);
                        }
                    }
                    assert forall|j: int| 0 <= j < k + 1 implies selected(out@, candidate_pos(#[trigger] sorted@[j])) by {
                        if j < k {
                            let q = candidate_pos(sorted@[j]);
                            let i = choose|i: int| 0 <= i < ob.len() && (#[trigger] ob[i]).0 == q;
                            assert(out@[i].0 == q);
                        } else {
                            assert(out@[ob.len() as int].0 == candidate_pos(sorted@[j]));
                        }
                    }
                    assert forall|i: int, j: int| 0 <= i < out@.len() && k + 1 <= j < sorted@.len() implies dist_sq(c, (#[trigger] out@[i]).0) <= (#[trigger] sorted@[j]).0 by {
                        if i < ob.len() {
                            assert(out@[i] == ob[i]);
                        } else {
                            assert(sorted@[k as int].0 <= sorted@[j].0);
                        }
                    }
                    assert forall|i: int, j: int| 0 <= i <= j < out@.len() implies dist_sq(c, (#[trigger] out@[i]).0) <= dist_sq(c, (#[trigger] out@[j]).0) by {
                        if j == ob.len() && i < j {
                            assert(out@[i] == ob[i]);
                            assert(dist_sq(c, ob[i].0) <= sorted@[k as int].0);
                        } else if j < ob.len() {
                            assert(out@[i] == ob[i]);
                            assert(out@[j] == ob[j]);
                        }
                    }
                    assert forall|i: int, j: int| 0 <= i < j < out@.len() implies (#[trigger] out@[i]).0 != (#[trigger] out@[j]).0 by {
                        if j == ob.len() {
                            assert(out@[i] == ob[i]);
                            assert(selected(ob, ob[i].0));
                        } else {
                            assert(out@[i] == ob[i]);
                            assert(out@[j] == ob[j]);
                        }
                    }
                    assert forall|i: int, x: int, y: int, z: int|
                        0 <= i < out@.len() && in_cube(CHUNK_SIZE_WITH_NEIGHBORS as int, x, y, z) implies #[trigger] out@[i].1.voxel_at(x, y, z)
                            == world_bordered(w0, out@[i].0, x, y, z) by {
                        if i < ob.len() {
                            assert(out@[i] == ob[i]);
                        }
                    }
                }
            } else {
                proof {
                    if !selected(out@, p) {
                        assert(self.world@[p] == w0[p]);
                    }
                    assert forall|i: int, j: int| 0 <= i < out@.len() && k + 1 <= j < sorted@.len() implies dist_sq(c, (#[trigger] out@[i]).0) <= (#[trigger] sorted@[j]).0 by {
                        assert(sorted@[k as int].0 <= sorted@[j].0);
                    }
                }
            }
            k = k + 1;
        }
        proof {
            assert forall|p: ChunkPosition| #[trigger] awaiting_ready(w0, p) && !selected(out@, p) implies out@.len() == budget
                && forall|i: int| 0 <= i < out@.len() ==> dist_sq(c, #[trigger] out@[i].0) <= dist_sq(c, p) by {
                assert(sorted@.contains(dist_candidate(c, p)));
                let j = choose|j: int| 0 <= j < sorted@.len() && sorted@[j] == dist_candidate(c, p);
                assert(candidate_pos(sorted@[j]) == p);
                if j < k {
                    assert(selected(out@, candidate_pos(sorted@[j])));
                }
                assert(k < sorted@.len());
                assert(w0.dom().contains(p));
                assert(self.world@.dom().contains(p));
                self.lemma_resident_fits(p);
                lemma_dist_fits(c, p);
                assert forall|i: int| 0 <= i < out@.len() implies dist_sq(c, #[trigger] out@[i].0) <= dist_sq(c, p) by {
                    assert(dist_sq(c, out@[i].0) <= sorted@[j].0);
                }
            }
        }
        out
    }
}


/// A chunk that is not wanted around the controller's centre has no record,
/// so no generation or mesh result for it is ever applied: both merges
/// leave the world unchanged for a position without a record.
pub proof fn lemma_unwanted_not_resident(ctrl: &StreamingController, p: ChunkPosition)
    requires
        ctrl.inv(),
        ctrl.spec_center().is_some(),
        !wanted(ctrl.spec_center().unwrap(), p, ctrl.spec_render_distance()),
    ensures
        !ctrl.spec_world().dom().contains(p),
{
}

} // verus!
