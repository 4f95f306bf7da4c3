use voxel_world::grid::{BaseChunk, Chunk};
use voxel_world::mesher::{generate_final_mesh, MeshData};
use voxel_world::streaming::{
    chunks_positions_in_render_distance, positions_in_radius, RenderDistance, StreamingController,
};
use voxel_world::voxel::VoxelType;
use voxel_world::world::{ChunkPosition, ChunkState, World};

fn wanted(center: ChunkPosition, p: ChunkPosition, rd: RenderDistance) -> bool {
    let dx = (p.x - center.x) as i64;
    let dz = (p.z - center.z) as i64;
    let h = rd.horizontal as i64;
    dx * dx + dz * dz <= h * h && (p.y - center.y).abs() <= rd.vertical
}

fn resident(ctrl: &StreamingController) -> Vec<ChunkPosition> {
    let mut v = ctrl.world().positions();
    v.sort_by_key(|q| (q.x, q.y, q.z));
    v
}

fn expected_set(center: ChunkPosition, rd: RenderDistance) -> Vec<ChunkPosition> {
    let mut v = Vec::new();
    let r = rd.horizontal.max(rd.vertical) + 1;
    for x in center.x - r..=center.x + r {
        for y in center.y - r..=center.y + r {
            for z in center.z - r..=center.z + r {
                let p = ChunkPosition::new(x, y, z);
                if wanted(center, p, rd) {
                    v.push(p);
                }
            }
        }
    }
    v
}

fn empty_mesh() -> MeshData {
    MeshData { positions: Vec::new(), normals: Vec::new(), uvs: Vec::new(), aos: Vec::new(), indices: Vec::new() }
}

#[test]
fn disk_positions() {
    assert_eq!(positions_in_radius(0), vec![(0, 0)]);
    assert_eq!(positions_in_radius(1), vec![(-1, 0), (0, -1), (0, 0), (0, 1), (1, 0)]);
    assert_eq!(positions_in_radius(2).len(), 13);
    assert_eq!(positions_in_radius(12).len(), 441);
    assert!(positions_in_radius(5).iter().all(|&(x, z)| x * x + z * z <= 25));
}

#[test]
fn can_render_is_a_cylinder() {
    let rd = RenderDistance { horizontal: 3, vertical: 1 };
    let c = ChunkPosition::new(0, 0, 0);
    assert!(World::can_render(&c, &ChunkPosition::new(3, 0, 0), &rd));
    assert!(World::can_render(&c, &ChunkPosition::new(2, 1, 2), &rd));
    assert!(!World::can_render(&c, &ChunkPosition::new(3, 0, 1), &rd));
    assert!(!World::can_render(&c, &ChunkPosition::new(0, 2, 0), &rd));
    assert!(!World::can_render(&c, &ChunkPosition::new(3, 0, 3), &rd));
}

#[test]
fn candidates_nearest_first() {
    let rd = RenderDistance { horizontal: 4, vertical: 2 };
    let c = ChunkPosition::new(5, -3, 9);
    let v = chunks_positions_in_render_distance(c, rd);
    assert_eq!(v.len(), expected_set(c, rd).len());
    let d = |p: &ChunkPosition| ((p.x - c.x) * (p.x - c.x) + (p.z - c.z) * (p.z - c.z)) as i64;
    assert_eq!(d(&v[0]), 0);
    assert!(v.windows(2).all(|w| d(&w[0]) <= d(&w[1])));
    assert!(v.iter().all(|p| wanted(c, *p, rd)));
}

#[test]
fn update_keeps_exactly_the_wanted_cylinder() {
    let rd = RenderDistance { horizontal: 3, vertical: 1 };
    let mut ctrl = StreamingController::new(rd);
    let up = ctrl.update((10, 10, 10));
    let center = ChunkPosition::new(0, 0, 0);
    assert_eq!(ctrl.center(), Some(center));
    assert_eq!(resident(&ctrl), expected_set(center, rd));
    assert_eq!(up.to_generate.len(), 29 * 3);
    assert!(up.removed.is_empty());
    let d = |p: &ChunkPosition| p.x * p.x + p.z * p.z;
    assert_eq!(d(&up.to_generate[0]), 0);
    assert!(up.to_generate.windows(2).all(|w| d(&w[0]) <= d(&w[1])));

    // same chunk: nothing to do
    let again = ctrl.update((31, 0, 5));
    assert!(again.to_generate.is_empty() && again.removed.is_empty());

    // one chunk along +x, and below zero on z
    let moved = ctrl.update((40, 3, -1));
    let c2 = ChunkPosition::new(1, 0, -1);
    assert_eq!(resident(&ctrl), expected_set(c2, rd));
    assert!(moved.removed.iter().all(|r| !wanted(c2, r.position, rd) && wanted(center, r.position, rd)));
    assert!(moved.to_generate.iter().all(|p| wanted(c2, *p, rd) && !wanted(center, *p, rd)));
    let gained = expected_set(c2, rd).iter().filter(|p| !wanted(center, **p, rd)).count();
    let lost = expected_set(center, rd).iter().filter(|p| !wanted(c2, **p, rd)).count();
    assert_eq!(moved.to_generate.len(), gained);
    assert_eq!(moved.removed.len(), lost);
    assert_eq!(ctrl.render_distance(), rd);
}

fn generate_all(ctrl: &mut StreamingController, positions: &[ChunkPosition]) {
    for p in positions {
        let mut chunk = BaseChunk::new();
        chunk.set(0, 0, 0, VoxelType::Opaque((p.x + 100) as u32));
        assert!(ctrl.merge_generation(*p, chunk));
    }
}

#[test]
fn pipeline_meshes_ready_chunks_within_budget() {
    let rd = RenderDistance { horizontal: 2, vertical: 1 };
    let mut ctrl = StreamingController::new(rd);
    let up = ctrl.update((0, 0, 0));
    let origin = ChunkPosition::new(0, 0, 0);
    assert!(!ctrl.is_mesh_ready(origin));
    assert!(ctrl.build_snapshot(origin).is_none());
    generate_all(&mut ctrl, &up.to_generate);
    assert!(ctrl.is_mesh_ready(origin));
    assert!(!ctrl.is_mesh_ready(ChunkPosition::new(2, 0, 0)));
    assert!(!ctrl.merge_generation(ChunkPosition::new(9, 9, 9), BaseChunk::new()));

    let snap = ctrl.build_snapshot(origin).unwrap();
    // border cell at +x reads the near face of chunk (1, 0, 0)
    assert_eq!(snap.get(33, 1, 1), VoxelType::Opaque(101));
    assert_eq!(snap.get(1, 1, 1), VoxelType::Opaque(100));

    let batch = ctrl.select_mesh_batch(5);
    assert!(batch.len() <= 5);
    assert!(!batch.is_empty());
    assert_eq!(batch[0].0, origin);
    for (p, s) in batch.iter() {
        assert_eq!(ctrl.world().get(*p).unwrap().state, ChunkState::MeshQueued);
        assert_eq!(s.get(1, 1, 1), VoxelType::Opaque((p.x + 100) as u32));
    }
    let again = ctrl.select_mesh_batch(5);
    assert!(again.iter().all(|(p, _)| batch.iter().all(|(q, _)| p != q)));

    let mesh = generate_final_mesh(&batch[0].1);
    assert!(ctrl.merge_mesh(origin, mesh));
    let rec = ctrl.world().get(origin).unwrap();
    assert_eq!(rec.state, ChunkState::Rendered);
    assert!(rec.mesh.is_some());
    // a second result for the same chunk is stale
    assert!(!ctrl.merge_mesh(origin, empty_mesh()));
}

#[test]
fn stale_mesh_is_never_applied() {
    let rd = RenderDistance { horizontal: 2, vertical: 1 };
    let mut ctrl = StreamingController::new(rd);
    let up = ctrl.update((0, 0, 0));
    generate_all(&mut ctrl, &up.to_generate);
    let origin = ChunkPosition::new(0, 0, 0);
    let batch = ctrl.select_mesh_batch(1);
    assert_eq!(batch.len(), 1);
    assert_eq!(batch[0].0, origin);
    let mesh = generate_final_mesh(&batch[0].1);
    // the observer moves far away while the mesh is being built
    let moved = ctrl.update((32 * 100, 0, 0));
    assert!(moved.removed.iter().any(|r| r.position == origin));
    assert!(!ctrl.world().contains(origin));
    assert!(!ctrl.merge_mesh(origin, mesh));
    assert!(!ctrl.world().contains(origin));
    assert!(!ctrl.merge_generation(origin, BaseChunk::new()));
    assert!(!ctrl.world().contains(origin));
}

#[test]
fn disk_and_candidates_list_each_position_once() {
    let disk = positions_in_radius(7);
    let mut sorted = disk.clone();
    sorted.sort();
    sorted.dedup();
    assert_eq!(sorted.len(), disk.len());
    let c = ChunkPosition::new(-3, 2, 8);
    let v = chunks_positions_in_render_distance(c, RenderDistance { horizontal: 5, vertical: 2 });
    let mut keys: Vec<(i32, i32, i32)> = v.iter().map(|p| (p.x, p.y, p.z)).collect();
    keys.sort();
    keys.dedup();
    assert_eq!(keys.len(), v.len());
}
