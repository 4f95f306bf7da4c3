use voxel_world::greedy::{compare_mask, create_chunk_mesh, create_quad, generate_greedy_mesh, greedy_rects, FMask};
use voxel_world::grid::{BaseChunk, Chunk, ChunkWithNeighbors, CHUNK_SIZE_WITH_NEIGHBORS};
use voxel_world::mesher::{
    ao_value, face_aos, generate_final_mesh, generate_mesh, generate_mesh_buffer, side_aos, Axis,
    Face, FaceWithAO, Quad, QuadGroups, Side,
};
use voxel_world::voxel::{emits_face, Visibility, VoxelType};

fn empty_neighbors() -> Vec<BaseChunk> {
    (0..26).map(|_| BaseChunk::new()).collect()
}

fn snapshot_of(chunk: &BaseChunk) -> ChunkWithNeighbors {
    ChunkWithNeighbors::new(chunk, &empty_neighbors())
}

fn face_count(groups: &QuadGroups) -> usize {
    groups.groups.iter().map(|g| g.len()).sum()
}

#[test]
fn single_voxel_gives_six_faces() {
    let mut chunk = BaseChunk::new();
    chunk.set(0, 0, 0, VoxelType::Opaque(1));
    let snap = snapshot_of(&chunk);
    let groups = generate_mesh(&snap);
    assert_eq!(face_count(&groups), 6);
    for g in groups.groups.iter() {
        assert_eq!(g.len(), 1);
        assert_eq!(g[0].voxel, [1, 1, 1]);
    }
    let mesh = generate_final_mesh(&snap);
    assert_eq!(mesh.positions.len(), 24);
    assert_eq!(mesh.normals.len(), 24);
    assert_eq!(mesh.uvs.len(), 24);
    assert_eq!(mesh.aos.len(), 24);
    assert_eq!(mesh.indices.len(), 36);
    assert_eq!(mesh.indices.len() / 3, 12);
    assert!(mesh.indices.iter().all(|&i| (i as usize) < 24));
    // the first face is the X- face of the voxel at the origin
    assert_eq!(mesh.positions[0], [0, 0, 1]);
    assert_eq!(mesh.positions[1], [0, 0, 0]);
    assert_eq!(mesh.normals[0], [-1, 0, 0]);
    assert!(mesh.aos.iter().all(|&a| a == 3));
}

#[test]
fn two_adjacent_voxels_give_ten_faces() {
    let mut chunk = BaseChunk::new();
    chunk.set(4, 4, 4, VoxelType::Opaque(1));
    chunk.set(5, 4, 4, VoxelType::Opaque(1));
    let groups = generate_mesh(&snapshot_of(&chunk));
    assert_eq!(face_count(&groups), 10);
    assert_eq!(groups.groups[0].len(), 1);
    assert_eq!(groups.groups[1].len(), 1);
    assert_eq!(groups.groups[0][0].voxel, [5, 5, 5]);
    assert_eq!(groups.groups[1][0].voxel, [6, 5, 5]);
}

#[test]
fn empty_interior_gives_no_faces() {
    let groups = generate_mesh(&snapshot_of(&BaseChunk::new()));
    assert_eq!(face_count(&groups), 0);
    let greedy = generate_greedy_mesh(&snapshot_of(&BaseChunk::new()));
    assert_eq!(face_count(&greedy), 0);
}

#[test]
fn enclosed_voxel_gives_no_faces() {
    let mut chunk = BaseChunk::new();
    for (x, y, z) in [(5, 5, 5), (4, 5, 5), (6, 5, 5), (5, 4, 5), (5, 6, 5), (5, 5, 4), (5, 5, 6)] {
        chunk.set(x, y, z, VoxelType::Opaque(2));
    }
    let groups = generate_mesh(&snapshot_of(&chunk));
    for g in groups.groups.iter() {
        assert!(g.iter().all(|q| q.voxel != [6, 6, 6]));
    }
    assert_eq!(face_count(&groups), 30);
}

#[test]
fn transparent_faces_follow_the_table() {
    let mut chunk = BaseChunk::new();
    chunk.set(3, 3, 3, VoxelType::Transparent(1));
    chunk.set(4, 3, 3, VoxelType::Transparent(1));
    chunk.set(3, 4, 3, VoxelType::Transparent(2));
    let groups = generate_mesh(&snapshot_of(&chunk));
    // same material side by side shares no face; different materials show both
    assert!(!groups.groups[1].iter().any(|q| q.voxel == [4, 4, 4]));
    assert!(groups.groups[3].iter().any(|q| q.voxel == [4, 4, 4]));
    assert!(groups.groups[2].iter().any(|q| q.voxel == [4, 5, 4]));
}

#[test]
fn emission_table_rows() {
    let e = VoxelType::Empty;
    let o = VoxelType::Opaque(1);
    let t = VoxelType::Transparent(1);
    let t2 = VoxelType::Transparent(2);
    assert!(emits_face(o, e));
    assert!(emits_face(o, t));
    assert!(!emits_face(o, o));
    assert!(!emits_face(o, VoxelType::Opaque(7)));
    assert!(emits_face(t, e));
    assert!(!emits_face(t, t));
    assert!(emits_face(t, t2));
    assert!(!emits_face(t, o));
    assert!(!emits_face(e, e));
    assert!(!emits_face(e, o));
    assert!(!emits_face(e, t));
    assert_eq!(o.visibility(), Visibility::Opaque);
    assert_eq!(t.visibility(), Visibility::Transparent);
    assert_eq!(e.visibility(), Visibility::Empty);
    assert_eq!(VoxelType::default(), VoxelType::Empty);
}

fn slab(n: u32) -> ChunkWithNeighbors {
    let mut chunk = BaseChunk::new();
    for x in 0..n {
        for z in 0..n {
            chunk.set(x + 2, 7, z + 3, VoxelType::Opaque(4));
        }
    }
    snapshot_of(&chunk)
}

#[test]
fn greedy_slab_gives_six_quads() {
    for n in [1u32, 2, 5, 17, 28] {
        let snap = slab(n);
        let greedy = generate_greedy_mesh(&snap);
        assert_eq!(face_count(&greedy), 6, "slab of side {}", n);
        let culled = generate_mesh(&snap);
        assert_eq!(face_count(&culled) as u32, 2 * n * n + 4 * n);
        let area: u32 = greedy.groups.iter().flat_map(|g| g.iter()).map(|q| q.width * q.height).sum();
        assert_eq!(area, 2 * n * n + 4 * n);
    }
}

#[test]
fn greedy_keeps_materials_apart() {
    let mut chunk = BaseChunk::new();
    chunk.set(1, 1, 1, VoxelType::Opaque(1));
    chunk.set(2, 1, 1, VoxelType::Opaque(2));
    let greedy = generate_greedy_mesh(&snapshot_of(&chunk));
    // top faces of two materials cannot merge
    assert_eq!(greedy.groups[3].len(), 2);
    assert_eq!(face_count(&greedy), 10);
}

#[test]
fn greedy_rects_on_a_mask() {
    let f = FMask::new(VoxelType::Opaque(1), 1);
    let g = FMask::new(VoxelType::Opaque(2), 1);
    let n = FMask::new(VoxelType::Empty, 0);
    // 3 wide, 2 high
    let mut mask = vec![f, f, g, f, f, n];
    let rects = greedy_rects(&mut mask, 3, 2);
    assert_eq!(rects.len(), 2);
    assert_eq!((rects[0].u, rects[0].v, rects[0].width, rects[0].height), (0, 0, 2, 2));
    assert_eq!((rects[1].u, rects[1].v, rects[1].width, rects[1].height), (2, 0, 1, 1));
    assert!(compare_mask(f, f));
    assert!(!compare_mask(f, g));
    assert!(!compare_mask(f, FMask::new(VoxelType::Opaque(1), -1)));
}

#[test]
fn mesh_buffer_is_replaced() {
    let mut chunk = BaseChunk::new();
    chunk.set(0, 0, 0, VoxelType::Opaque(1));
    let mut buffer = QuadGroups::new();
    generate_mesh_buffer(&snapshot_of(&chunk), &mut buffer);
    generate_mesh_buffer(&snapshot_of(&chunk), &mut buffer);
    assert_eq!(face_count(&buffer), 6);
    buffer.clear();
    assert_eq!(face_count(&buffer), 0);
}

#[test]
fn ao_levels() {
    assert_eq!(ao_value(true, false, true), 0);
    assert_eq!(ao_value(true, true, true), 0);
    assert_eq!(ao_value(true, true, false), 1);
    assert_eq!(ao_value(false, true, true), 1);
    assert_eq!(ao_value(false, false, false), 3);
    assert_eq!(ao_value(true, false, false), 2);
    assert_eq!(ao_value(false, true, false), 2);
    assert_eq!(ao_value(false, false, true), 2);
    let o = VoxelType::Opaque(1);
    let e = VoxelType::Empty;
    assert_eq!(side_aos([e; 8]), [3, 3, 3, 3]);
    assert_eq!(side_aos([o; 8]), [0, 0, 0, 0]);
    assert_eq!(side_aos([o, e, e, e, e, e, e, e]), [2, 3, 2, 3]);
    assert_eq!(side_aos([e, o, e, e, e, e, e, e]), [2, 3, 3, 3]);
}

#[test]
fn ao_in_a_corner() {
    // a floor voxel with a wall voxel beside it above: its top face is shaded
    let mut chunk = BaseChunk::new();
    chunk.set(5, 5, 5, VoxelType::Opaque(1));
    chunk.set(4, 6, 5, VoxelType::Opaque(1));
    let snap = snapshot_of(&chunk);
    let face = Face { side: Side::new(Axis::YPositive), quad: Quad { voxel: [6, 6, 6], width: 1, height: 1 } };
    let aos = face_aos(&face, &snap);
    assert_eq!(aos, [2, 2, 3, 3]);
    let with_ao = FaceWithAO::new(face, &snap);
    assert_eq!(with_ao.aos(), aos);
    assert_eq!(with_ao.indices(8), [8, 11, 9, 8, 10, 11]);
    // an occluder on the diagonal only darkens one corner and flips the split
    let mut corner = BaseChunk::new();
    corner.set(5, 5, 5, VoxelType::Opaque(1));
    corner.set(4, 6, 6, VoxelType::Opaque(1));
    let csnap = snapshot_of(&corner);
    let cface = FaceWithAO::new(face, &csnap);
    assert_eq!(cface.aos(), [2, 3, 3, 3]);
    assert_eq!(cface.indices(8), [8, 10, 9, 9, 10, 11]);
    let flat = Face { side: Side::new(Axis::YPositive), quad: Quad { voxel: [20, 20, 20], width: 1, height: 1 } };
    let plain = FaceWithAO::new(flat, &snap);
    assert_eq!(plain.indices(0), [0, 3, 1, 0, 2, 3]);
}

#[test]
fn face_templates() {
    let face = Face { side: Side::new(Axis::ZPositive), quad: Quad { voxel: [3, 4, 5], width: 1, height: 1 } };
    assert_eq!(face.indices(4), [4, 6, 5, 5, 6, 7]);
    assert_eq!(face.positions(2), [[6, 6, 10], [4, 6, 10], [6, 8, 10], [4, 8, 10]]);
    assert_eq!(face.normals(), [[0, 0, 1]; 4]);
    assert_eq!(face.voxel(), [3, 4, 5]);
    assert_eq!(face.uvs(false, false), [[0, 0], [1, 0], [0, 1], [1, 1]]);
    assert_eq!(face.uvs(true, true), [[1, 1], [0, 1], [1, 0], [0, 0]]);
    assert_eq!(face.uvs(true, false), [[1, 0], [0, 0], [1, 1], [0, 1]]);
    assert_eq!(face.uvs(false, true), [[0, 1], [1, 1], [0, 0], [1, 0]]);
    assert_eq!(Side::new(Axis::XNegative).normal(), [-1, 0, 0]);
    assert_eq!(Side::from_index(3).axis, Axis::YPositive);
}

#[test]
fn iteration_order() {
    let mut chunk = BaseChunk::new();
    chunk.set(0, 0, 0, VoxelType::Opaque(1));
    let snap = snapshot_of(&chunk);
    let groups = generate_mesh(&snap);
    let faces = groups.iter();
    let axes: Vec<Axis> = faces.iter().map(|f| f.side.axis).collect();
    assert_eq!(
        axes,
        vec![Axis::XNegative, Axis::XPositive, Axis::YNegative, Axis::YPositive, Axis::ZNegative, Axis::ZPositive]
    );
    let with_ao = groups.iter_with_ao(&snap);
    assert_eq!(with_ao.len(), 6);
    assert_eq!(with_ao[2].face().side.axis, Axis::YNegative);
    assert_eq!(CHUNK_SIZE_WITH_NEIGHBORS, 34);
    assert_eq!(snap.extents(), (34, 34, 34));
}

#[test]
fn greedy_geometry_of_a_slab() {
    let snap = slab(10);
    let mesh = create_chunk_mesh(&snap);
    assert_eq!(mesh.positions.len(), 24);
    assert_eq!(mesh.indices.len(), 36);
    assert!(mesh.aos.iter().all(|&a| a == 3));
    // the top face spans the slab: x 2..12, z 3..13 at height 8
    let top: Vec<[u64; 3]> = mesh
        .positions
        .iter()
        .zip(mesh.normals.iter())
        .filter(|(_, n)| **n == [0, 1, 0])
        .map(|(p, _)| *p)
        .collect();
    assert_eq!(top.len(), 4);
    assert!(top.contains(&[2, 8, 3]) && top.contains(&[12, 8, 13]));
    assert!(top.iter().all(|p| p[1] == 8));
}

#[test]
fn quad_winding_follows_the_sign() {
    let q = Quad { voxel: [2, 3, 4], width: 2, height: 3 };
    let mut mesh = voxel_world::mesher::MeshData {
        positions: Vec::new(),
        normals: Vec::new(),
        uvs: Vec::new(),
        aos: Vec::new(),
        indices: Vec::new(),
    };
    create_quad(&mut mesh, 1, q);
    create_quad(&mut mesh, 0, q);
    assert_eq!(&mesh.indices[0..6], &[0, 1, 3, 3, 2, 0]);
    assert_eq!(&mesh.indices[6..12], &[4, 7, 5, 7, 4, 6]);
    // +x face lies on the far side of the voxel, -x face on the near side
    assert_eq!(mesh.positions[0], [2, 2, 3]);
    assert_eq!(mesh.positions[3], [2, 4, 6]);
    assert_eq!(mesh.positions[4], [1, 2, 3]);
    assert_eq!(mesh.normals[0], [1, 0, 0]);
    assert_eq!(mesh.normals[4], [-1, 0, 0]);
    assert_eq!(&mesh.uvs[0..4], &[[2, 3], [0, 3], [2, 0], [0, 0]]);
    create_quad(&mut mesh, 3, q);
    assert_eq!(&mesh.uvs[8..12], &[[2, 3], [3, 0], [0, 2], [0, 0]]);
}

#[test]
fn greedy_rects_grow_wide_then_tall() {
    let f = FMask::new(VoxelType::Opaque(1), 1);
    let n = FMask::new(VoxelType::Empty, 0);
    // 3 wide, 2 high: the first rectangle is as wide as row 0 allows, then
    // as tall as row 1 allows under it; the rest of row 1 is a second one
    let mut mask = vec![f, f, n, f, f, f];
    let rects = greedy_rects(&mut mask, 3, 2);
    assert_eq!(rects.len(), 2);
    assert_eq!((rects[0].u, rects[0].v, rects[0].width, rects[0].height), (0, 0, 2, 2));
    assert_eq!((rects[1].u, rects[1].v, rects[1].width, rects[1].height), (2, 1, 1, 1));
    assert!(mask.iter().all(|m| m.normal == 0));
}
