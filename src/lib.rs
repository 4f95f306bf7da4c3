//! A streaming, chunked voxel world: chunk storage, neighbour-aware
//! snapshots, face-culling and greedy meshing, and the streaming policy that
//! decides which chunks are resident around an observer.

pub mod block;
pub mod greedy;
pub mod grid;
pub mod mesher;
pub mod streaming;
pub mod voxel;
pub mod world;
