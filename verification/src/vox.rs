//! The voxel models read from `.vox` files, as plain values.
use vstd::prelude::*;

verus! {

/// One voxel of a model: its position and its palette index.
#[derive(Debug, Clone, Copy, PartialEq, Eq, Structural)]
pub struct VoxPoint {
    pub x: u8,
    pub y: u8,
    pub z: u8,
    pub i: u8,
}

/// A model: its size and its voxels.
#[derive(Debug, Clone)]
pub struct VoxModel {
    pub size_x: u32,
    pub size_y: u32,
    pub size_z: u32,
    pub voxels: Vec<VoxPoint>,
}

impl View for VoxModel {
    type V = (u32, u32, u32, Seq<VoxPoint>);

    open spec fn view(&self) -> (u32, u32, u32, Seq<VoxPoint>) {
        (self.size_x, self.size_y, self.size_z, self.voxels@)
    }
}

/// The models that `dot_vox::load_bytes` reads from `bytes`, or the error
/// it reports.
pub uninterp spec fn vox_models(bytes: Seq<u8>) -> Result<Seq<(u32, u32, u32, Seq<VoxPoint>)>, Seq<char>>;

/// Calls `dot_vox::load_bytes` and keeps of each model its size and its
/// voxels. Claimed of it: the result is what the file holds, as named by
/// [`vox_models`].
#[verifier::external_body]
fn load_vox_models(bytes: &[u8]) -> (r: Result<Vec<VoxModel>, String>)
    ensures
        match r {
            Ok(ms) => vox_models(bytes@) == Ok::<Seq<(u32, u32, u32, Seq<VoxPoint>)>, Seq<char>>(ms@.map_values(|m: VoxModel| m@)),
            Err(e) => vox_models(bytes@) == Err::<Seq<(u32, u32, u32, Seq<VoxPoint>)>, Seq<char>>(e@),
        },
{
    match dot_vox::load_bytes(bytes) {
        Ok(vox) => Ok(
            vox.models.iter().map(
                |m| VoxModel {
                    size_x: m.size.x,
                    size_y: m.size.y,
                    size_z: m.size.z,
                    voxels: m.voxels.iter().map(|v| VoxPoint { x: v.x, y: v.y, z: v.z, i: v.i }).collect(),
                },
            ).collect(),
        ),
        Err(e) => Err(e.to_string()),
    }
}

/// The first model of a `.vox` file: the reader's error when the file does
/// not parse, and an error when it holds no model.
pub fn first_vox_model(bytes: &[u8]) -> (r: Result<VoxModel, String>)
    ensures
        match vox_models(bytes@) {
            Ok(ms) => match r {
                Ok(m) => ms.len() > 0 && m@ == ms[0],
                Err(_) => ms.len() == 0,
            },
            Err(e) => r matches Err(e2) && e2@ == e,
        },
{
    match load_vox_models(bytes) {
        Ok(mut ms) => {
            if ms.len() == 0 {
                Err("The file holds no voxel model".to_owned())
            } else {
                let ghost all = ms@;
                let m = ms.remove(0);
                proof {
                    assert(m@ == all.map_values(|m: VoxModel| m@)[0]);
                }
                Ok(m)
            }
        },
        Err(e) => Err(e),
    }
}

} // verus!
