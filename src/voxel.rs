//! Voxels, their visibility, and the rule that decides which faces show.

use vstd::prelude::*;

verus! {

/// How a voxel takes part in face generation.
#[derive(Debug, Clone, Copy, PartialEq, Eq, Structural)]
pub enum Visibility {
    Empty,
    Transparent,
    Opaque,
}

/// One cell of a chunk: nothing, or a solid or see-through material.
#[derive(Debug, Clone, Copy, PartialEq, Eq, Structural)]
pub enum VoxelType {
    Empty,
    Opaque(u32),
    Transparent(u32),
}

impl VoxelType {
    pub open spec fn spec_visibility(&self) -> Visibility {
        match self {
            VoxelType::Empty => Visibility::Empty,
            VoxelType::Opaque(_) => Visibility::Opaque,
            VoxelType::Transparent(_) => Visibility::Transparent,
        }
    }

    #[verifier::when_used_as_spec(spec_visibility)]
    pub fn visibility(&self) -> (r: Visibility)
        ensures
            r == self.spec_visibility(),
    {
        match self {
            VoxelType::Empty => Visibility::Empty,
            VoxelType::Opaque(_) => Visibility::Opaque,
            VoxelType::Transparent(_) => Visibility::Transparent,
        }
    }
}

impl Default for VoxelType {
    fn default() -> (r: VoxelType)
        ensures
            r == VoxelType::Empty,
    {
        VoxelType::Empty
    }
}

/// Whether `voxel` shows a face towards `neighbor`.
pub open spec fn face_visible(voxel: VoxelType, neighbor: VoxelType) -> bool {
    match (voxel.spec_visibility(), neighbor.spec_visibility()) {
        (Visibility::Opaque, Visibility::Empty) => true,
        (Visibility::Opaque, Visibility::Transparent) => true,
        (Visibility::Transparent, Visibility::Empty) => true,
        (Visibility::Transparent, Visibility::Transparent) => voxel != neighbor,
        _ => false,
    }
}

/// Decides whether the face of `voxel` that touches `neighbor` is drawn.
pub fn emits_face(voxel: VoxelType, neighbor: VoxelType) -> (r: bool)
    ensures
        r == face_visible(voxel, neighbor),
{
    match (voxel.visibility(), neighbor.visibility()) {
        (Visibility::Opaque, Visibility::Empty) => true,
        (Visibility::Opaque, Visibility::Transparent) => true,
        (Visibility::Transparent, Visibility::Empty) => true,
        (Visibility::Transparent, Visibility::Transparent) => voxel != neighbor,
        _ => false,
    }
}

/// The face emission table, row by row, over every pair of visibilities:
/// an opaque voxel shows a face to empty and transparent neighbours but not
/// to opaque ones; a transparent voxel shows one to empty neighbours, and to
/// transparent neighbours only of another material; an empty voxel never
/// shows one.
pub proof fn lemma_emission_table(voxel: VoxelType, neighbor: VoxelType)
    ensures
        voxel.spec_visibility() == Visibility::Opaque && neighbor.spec_visibility()
            == Visibility::Empty ==> face_visible(voxel, neighbor),
        voxel.spec_visibility() == Visibility::Opaque && neighbor.spec_visibility()
            == Visibility::Transparent ==> face_visible(voxel, neighbor),
        voxel.spec_visibility() == Visibility::Opaque && neighbor.spec_visibility()
            == Visibility::Opaque ==> !face_visible(voxel, neighbor),
        voxel.spec_visibility() == Visibility::Transparent && neighbor.spec_visibility()
            == Visibility::Empty ==> face_visible(voxel, neighbor),
        voxel.spec_visibility() == Visibility::Transparent && neighbor.spec_visibility()
            == Visibility::Transparent ==> (face_visible(voxel, neighbor) <==> voxel != neighbor),
        voxel.spec_visibility() == Visibility::Transparent && neighbor.spec_visibility()
            == Visibility::Opaque ==> !face_visible(voxel, neighbor),
        voxel.spec_visibility() == Visibility::Empty ==> !face_visible(voxel, neighbor),
{
}

} // verus!
