//! Run configuration.

use crate::extract::{ExtractConfig, TetraPointsConfig};
use crate::float::F32;
use vstd::prelude::*;

verus! {

/// What is evaluated and exported, and when.
pub struct ProcessConfig {
    /// Random seed.
    pub seed: u64,
    /// Iteration to resume from.
    pub start_iter: u32,
    /// Evaluate every this many steps.
    pub eval_every: u32,
    /// Save the rendered evaluation images.
    pub eval_save_to_disk: bool,
    /// Export every this many steps.
    pub export_every: u32,
    /// Where exports go. `{dataset}` stands for the name of the dataset.
    pub export_path: String,
    /// File name of an export. `{iter}` stands for the iteration.
    pub export_name: String,
}

impl ProcessConfig {
    /// The intervals are at least one step.
    pub open spec fn wf(&self) -> bool {
        self.eval_every >= 1 && self.export_every >= 1
    }
}

/// The length of a run and its levels of detail.
#[derive(Clone, Copy, Debug)]
pub struct TrainConfig {
    /// Steps of the main training.
    pub total_train_iters: u32,
    /// Steps between two refinements.
    pub refine_every: u32,
    /// The iteration that turns the geometry regularizers on.
    pub geo_from_iter: Option<u32>,
    /// Levels of detail after the main training.
    pub lod_levels: u32,
    /// Training steps of each level.
    pub lod_refine_steps: u32,
}

impl TrainConfig {
    /// The number of steps of the whole run.
    pub open spec fn total(&self) -> int {
        self.total_train_iters + self.lod_levels * self.lod_refine_steps
    }

    /// The whole run can be counted, and the refinement interval is at least one step.
    pub open spec fn wf(&self) -> bool {
        self.total() <= u32::MAX && self.refine_every >= 1
    }

    /// The number of steps of the whole run.
    pub fn total_iters(&self) -> (r: u32)
        requires
            self.wf(),
        ensures
            r == self.total(),
    {
        let lods: u64 = self.lod_levels as u64 * self.lod_refine_steps as u64;
        (self.total_train_iters as u64 + lods) as u32
    }

    /// Whether the geometry regularizers are on at `iter`.
    pub fn geo_regs_on(&self, iter: u32) -> (r: bool)
        ensures
            r <==> (self.geo_from_iter matches Some(from) && iter >= from),
    {
        match self.geo_from_iter {
            Some(from) => iter >= from,
            None => false,
        }
    }
}

/// When meshes are exported, and of what.
#[derive(Clone, Copy, Debug)]
pub struct MeshConfig {
    /// Export a mesh every this many steps, and with the last one.
    pub export_mesh_every: Option<u32>,
    /// The far plane of the frustums that are meshed.
    pub export_mesh_dist: F32,
    /// Central fraction of the images that is meshed.
    pub export_mesh_crop: F32,
    /// Faces to simplify to; `0` turns it off.
    pub export_mesh_target_faces: u32,
}

/// `cfg` is `base` but for the region and the number of faces.
pub open spec fn extracts(mesh: &MeshConfig, base: ExtractConfig, cfg: ExtractConfig) -> bool {
    cfg == (ExtractConfig {
        tetra_points: TetraPointsConfig { far: mesh.export_mesh_dist, ..base.tetra_points },
        image_crop: mesh.export_mesh_crop,
        target_faces: mesh.export_mesh_target_faces,
        ..base
    })
}

impl MeshConfig {
    /// How meshes are extracted: as `base` says, but for the region and the number of faces.
    pub fn extract_config(&self, base: ExtractConfig) -> (cfg: ExtractConfig)
        ensures
            extracts(self, base, cfg),
    {
        let mut cfg = base;
        cfg.tetra_points.far = self.export_mesh_dist;
        cfg.image_crop = self.export_mesh_crop;
        cfg.target_faces = self.export_mesh_target_faces;
        cfg
    }
}

/// When progress is logged.
#[derive(Clone, Copy, Debug)]
pub struct LogConfig {
    pub enabled: bool,
    /// Log the splats every this many steps.
    pub splats_every: Option<u32>,
    /// Log training statistics every this many steps.
    pub stats_every: u32,
    /// Log splat distributions every this many steps.
    pub distribution_every: u32,
}

} // verus!
