use voxel_world::grid::{
    delinearize, generate_chunk, linearize, BaseChunk, Chunk, ChunkWithNeighbors, CHUNK_SIZE,
    CHUNK_VOLUME,
};
use voxel_world::voxel::VoxelType;
use voxel_world::world::ChunkPosition;

#[test]
fn linearize_round_trip() {
    for edge in [1usize, 2, 3, 32, 34] {
        let mut seen = vec![false; edge * edge * edge];
        for z in 0..edge {
            for y in 0..edge {
                for x in 0..edge {
                    let i = linearize(edge, x, y, z);
                    assert_eq!(i, x + y * edge + z * edge * edge);
                    assert_eq!(delinearize(edge, i), (x, y, z));
                    assert!(!seen[i]);
                    seen[i] = true;
                }
            }
        }
        assert!(seen.iter().all(|&b| b));
    }
    assert_eq!(linearize(32, 31, 31, 31), CHUNK_VOLUME - 1);
    assert_eq!(delinearize(32, 33), (1, 1, 0));
}

#[test]
fn base_chunk_get_set_and_dirty() {
    let mut chunk = BaseChunk::new();
    assert!(!chunk.is_dirty());
    assert_eq!(chunk.get(31, 0, 17), VoxelType::Empty);
    chunk.set(31, 0, 17, VoxelType::Transparent(9));
    assert!(chunk.is_dirty());
    assert_eq!(chunk.get(31, 0, 17), VoxelType::Transparent(9));
    assert_eq!(chunk.get(0, 0, 17), VoxelType::Empty);
    let copy = chunk.clone();
    assert_eq!(copy.get(31, 0, 17), VoxelType::Transparent(9));
    assert!(copy.is_dirty());
    assert_eq!(chunk.extents(), (32, 32, 32));
}

/// Neighbour `k` of the 26, ordered by x, then y, then z, without the centre.
fn offset(k: usize) -> (i32, i32, i32) {
    let m = if k < 13 { k } else { k + 1 } as i32;
    (m / 9 - 1, (m / 3) % 3 - 1, m % 3 - 1)
}

fn source(o: u32) -> (i32, u32) {
    if o == 0 {
        (-1, 31)
    } else if o == 33 {
        (1, 0)
    } else {
        (0, o - 1)
    }
}

#[test]
fn snapshot_reads_all_26_neighbors() {
    let mut chunk = BaseChunk::new();
    for x in 0..32 {
        for y in 0..32 {
            for z in 0..32 {
                chunk.set(x, y, z, VoxelType::Opaque(1000 + x + 32 * y + 1024 * z));
            }
        }
    }
    let mut neighbors = Vec::new();
    for k in 0..26u32 {
        let mut n = BaseChunk::new();
        for x in 0..32 {
            for y in 0..32 {
                for z in 0..32 {
                    n.set(x, y, z, VoxelType::Transparent(k * 100_000 + x + 32 * y + 1024 * z));
                }
            }
        }
        neighbors.push(n);
    }
    let snap = ChunkWithNeighbors::new(&chunk, &neighbors);
    let mut cases_seen = std::collections::HashSet::new();
    for x in 0..34u32 {
        for y in 0..34u32 {
            for z in 0..34u32 {
                let (dx, lx) = source(x);
                let (dy, ly) = source(y);
                let (dz, lz) = source(z);
                let expected = if (dx, dy, dz) == (0, 0, 0) {
                    chunk.get(lx, ly, lz)
                } else {
                    let k = (0..26).find(|&k| offset(k) == (dx, dy, dz)).unwrap();
                    cases_seen.insert(k);
                    neighbors[k].get(lx, ly, lz)
                };
                assert_eq!(snap.get(x, y, z), expected, "cell {:?}", (x, y, z));
            }
        }
    }
    assert_eq!(cases_seen.len(), 26);
    // the corner cell reads the far corner of the (-1, -1, -1) neighbour
    assert_eq!(snap.get(0, 0, 0), VoxelType::Transparent(31 + 32 * 31 + 1024 * 31));
    // the face cell past +z reads the near face of neighbour 13, (0, 0, 1)
    assert_eq!(snap.get(5, 6, 33), VoxelType::Transparent(13 * 100_000 + 4 + 32 * 5));
    assert_eq!(snap.get(1, 1, 1), VoxelType::Opaque(1000));
}

#[test]
fn generation_samples_world_coordinates() {
    let sample = |x: i64, y: i64, z: i64| {
        if y < 0 {
            VoxelType::Opaque((x.rem_euclid(7) + z.rem_euclid(5)) as u32)
        } else {
            VoxelType::Empty
        }
    };
    let chunk = generate_chunk(ChunkPosition::new(2, -1, -3), &sample);
    assert!(!chunk.is_dirty());
    for x in 0..32u32 {
        for y in 0..32u32 {
            for z in 0..32u32 {
                let wx = 64 + x as i64;
                let wy = -32 + y as i64;
                let wz = -96 + z as i64;
                assert_eq!(chunk.get(x, y, z), sample(wx, wy, wz));
            }
        }
    }
    let above = generate_chunk(ChunkPosition::new(0, 0, 0), &sample);
    assert_eq!(above.get(3, 0, 3), VoxelType::Empty);
    assert_eq!(CHUNK_SIZE, 32);
}
