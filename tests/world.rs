use voxel_world::block::{Block, BlockPosition, BlockType};
use voxel_world::world::{
    world_to_chunk_pos, world_to_local_pos, ChunkPosition, ChunkRecord, ChunkState, World,
};

#[test]
fn one_record_per_position() {
    let mut world = World::new();
    let p = ChunkPosition::new(1, -2, 3);
    assert!(!world.contains(p));
    world.add_chunk(p, Some(7));
    world.add_chunk(p, Some(8));
    world.add_chunk(ChunkPosition::new(0, 0, 0), None);
    assert!(world.contains(p));
    assert_eq!(world.get_entity(p), Some(8));
    assert_eq!(world.positions().iter().filter(|&&q| q == p).count(), 1);
    assert_eq!(world.positions().len(), 2);
    let rec = world.get(p).unwrap();
    assert_eq!(rec.state, ChunkState::Queued);
    assert!(rec.voxels.is_none());
    let removed = world.remove_chunk(p).unwrap();
    assert_eq!(removed.entity, Some(8));
    assert!(!world.contains(p));
    assert!(world.remove_chunk(p).is_none());
    assert!(world.get(p).is_none());
    assert_eq!(world.get_entity(p), None);
}

#[test]
fn insert_replaces_record() {
    let mut world = World::new();
    let p = ChunkPosition::new(4, 4, 4);
    world.add_chunk(p, None);
    world.insert(ChunkRecord {
        position: p,
        state: ChunkState::AwaitingMesh,
        voxels: Some(voxel_world::grid::BaseChunk::new()),
        mesh: None,
        entity: Some(1),
    });
    assert_eq!(world.positions().len(), 1);
    assert_eq!(world.get(p).unwrap().state, ChunkState::AwaitingMesh);
}

#[test]
fn neighbors_in_order() {
    let p = ChunkPosition::new(10, -5, 0);
    let ns = p.neighbors();
    assert_eq!(ns.len(), 26);
    assert_eq!(ns[0], ChunkPosition::new(9, -6, -1));
    assert_eq!(ns[12], ChunkPosition::new(10, -5, -1));
    assert_eq!(ns[13], ChunkPosition::new(10, -5, 1));
    assert_eq!(ns[25], ChunkPosition::new(11, -4, 1));
    assert!(!ns.contains(&p));
    let mut sorted = ns.clone();
    sorted.sort_by_key(|q| (q.x, q.y, q.z));
    sorted.dedup();
    assert_eq!(sorted.len(), 26);
}

#[test]
fn check_neighbors_needs_all_26() {
    let mut world = World::new();
    let p = ChunkPosition::new(0, 0, 0);
    for q in p.neighbors() {
        world.add_chunk(q, None);
    }
    assert!(world.check_neighbors(p));
    world.remove_chunk(ChunkPosition::new(1, 1, 1));
    assert!(!world.check_neighbors(p));
    assert!(world.check_neighbors(ChunkPosition::new(40, 40, 40)) == false);
}

#[test]
fn world_to_chunk_is_floor_division() {
    assert_eq!(world_to_chunk_pos((0, 31, 32)), ChunkPosition::new(0, 0, 1));
    assert_eq!(world_to_chunk_pos((-1, -32, -33)), ChunkPosition::new(-1, -1, -2));
    assert_eq!(world_to_chunk_pos((i32::MIN, i32::MAX, 0)), ChunkPosition::new(-67108864, 67108863, 0));
    assert_eq!(world_to_local_pos((-1, -32, 33)), (31, 0, 1));
    assert_eq!(ChunkPosition::from_world((65, -65, 0)), ChunkPosition::new(2, -3, 0));
    assert_eq!(ChunkPosition::new(-2, 3, 0).to_world(), (-64, 96, 0));
}

#[test]
fn block_palette() {
    let water = Block::new(BlockType::Water);
    assert!(water.is_transparent());
    assert!(!water.is_solid());
    let mut stone = Block::new(BlockType::Stone);
    assert!(stone.is_solid());
    assert_eq!(stone.get_block_type(), BlockType::Stone);
    stone.set_transparent();
    assert!(stone.is_transparent());
    assert_eq!(stone.get_block_type(), BlockType::Stone);
    assert!(Block::new(BlockType::Air).is_transparent());
    assert!(Block::new(BlockType::Lava).is_transparent());
    assert!(!Block::new(BlockType::Default).is_transparent());
    let p = BlockPosition::new(1, 2, 3);
    assert_eq!((p.x, p.y, p.z), (1, 2, 3));
}

#[test]
fn neighbor_entities_in_order() {
    let mut world = World::new();
    let p = ChunkPosition::new(3, 3, 3);
    world.add_chunk(ChunkPosition::new(4, 4, 4), Some(44));
    world.add_chunk(ChunkPosition::new(2, 2, 2), Some(22));
    world.add_chunk(ChunkPosition::new(3, 3, 4), None);
    world.add_chunk(ChunkPosition::new(3, 3, 3), Some(33));
    world.add_chunk(ChunkPosition::new(9, 9, 9), Some(99));
    assert_eq!(world.get_neighbors(p), vec![22, 44]);
    assert!(world.get_neighbors(ChunkPosition::new(20, 20, 20)).is_empty());
}
