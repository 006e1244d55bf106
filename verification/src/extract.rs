//! Extraction of a mesh: what happens between the outside stages, and in which order.

use crate::bounds;
use crate::filter;
use crate::float::F32;
use crate::mesh::{Mesh, Vec3};
use crate::smooth::{self, Rings};
use vstd::prelude::*;

verus! {

/// The region of the seed points.
#[derive(Clone, Copy, Debug)]
pub struct TetraPointsConfig {
    pub near: F32,
    /// The far plane of every view's frustum.
    pub far: F32,
    /// Fraction of the image by which a frustum is widened.
    pub frustum_margin: F32,
}

/// How a mesh is extracted.
#[derive(Clone, Copy, Debug)]
pub struct ExtractConfig {
    pub tetra_points: TetraPointsConfig,
    /// The level that the surface follows.
    pub iso_value: F32,
    /// Step pairs of smoothing; `0` turns it off.
    pub smooth_iters: u32,
    /// Crossings on edges longer than this many times the sum of the extents of their ends
    /// are dropped.
    pub edge_filter_scale: F32,
    /// Components with fewer faces are dropped.
    pub min_component_faces: usize,
    /// Components with less than this fraction of the largest one are dropped.
    pub min_component_frac: F32,
    /// Faces to simplify to; `0` turns it off.
    pub target_faces: u32,
    /// Texels of the atlas, each way; `0` bakes none.
    pub texture_size: u32,
    /// Simplify to this many times the target before charting; `0` turns it off.
    pub pre_simplify_factor: usize,
    /// Fraction of the views that are baked from.
    pub bake_view_frac: F32,
    /// How fast the weight of a view falls with its distance.
    pub texture_dist_power: F32,
    /// Resolution of the views that the surface is carved from.
    pub carve_scale: F32,
    /// Central fraction of the images that is used.
    pub image_crop: F32,
}

impl Default for TetraPointsConfig {
    fn default() -> (r: Self)
        ensures
            r.near.bits == 0x3E4CCCCD,
            r.far.bits == 0x40200000,
            r.frustum_margin.bits == 0xBDCCCCCD,
    {
        TetraPointsConfig {
            near: F32::from_bits(0x3E4CCCCD),
            far: F32::from_bits(0x40200000),
            frustum_margin: F32::from_bits(0xBDCCCCCD),
        }
    }
}

impl Default for ExtractConfig {
    fn default() -> (r: Self)
        ensures
            r.tetra_points.near.bits == 0x3E4CCCCD,
            r.tetra_points.far.bits == 0x40200000,
            r.tetra_points.frustum_margin.bits == 0xBDCCCCCD,
            r.iso_value.bits == 0x3F000000,
            r.smooth_iters == 1,
            r.edge_filter_scale.bits == 0x3F800000,
            r.min_component_faces == 500,
            r.min_component_frac.bits == 0x3C23D70A,
            r.target_faces == 750000,
            r.texture_size == 4096,
            r.pre_simplify_factor == 2,
            r.bake_view_frac.bits == 0x3F4CCCCD,
            r.texture_dist_power.bits == 0x40000000,
            r.carve_scale.bits == 0x3F000000,
            r.image_crop.bits == 0x3F4CCCCD,
    {
        ExtractConfig {
            tetra_points: TetraPointsConfig::default(),
            iso_value: F32::from_bits(0x3F000000),
            smooth_iters: 1,
            edge_filter_scale: F32::from_bits(0x3F800000),
            min_component_faces: 500,
            min_component_frac: F32::from_bits(0x3C23D70A),
            target_faces: 750000,
            texture_size: 4096,
            pre_simplify_factor: 2,
            bake_view_frac: F32::from_bits(0x3F4CCCCD),
            texture_dist_power: F32::from_bits(0x40000000),
            carve_scale: F32::from_bits(0x3F000000),
            image_crop: F32::from_bits(0x3F4CCCCD),
        }
    }
}

/// The region of the seed points: that of the configuration, but for the margin. The crop of
/// the images decides on the margin, so that it holds for seeds and texels alike.
pub open spec fn region(cfg: &ExtractConfig, margin: F32) -> TetraPointsConfig {
    TetraPointsConfig { frustum_margin: margin, ..cfg.tetra_points }
}

/// The region of the seed points, with the margin that the crop of the images gives.
pub fn seed_region(cfg: &ExtractConfig, margin: F32) -> (r: TetraPointsConfig)
    ensures
        r == region(cfg, margin),
        r.frustum_margin == margin,
        r.near == cfg.tetra_points.near,
        r.far == cfg.tetra_points.far,
{
    let mut r = cfg.tetra_points;
    r.frustum_margin = margin;
    r
}

/// The margin of the configuration has no effect: two configurations that differ in it alone
/// give the same region.
pub proof fn configured_margin_has_no_effect(a: &ExtractConfig, b: &ExtractConfig, margin: F32)
    requires
        *b == (ExtractConfig {
            tetra_points: TetraPointsConfig {
                frustum_margin: b.tetra_points.frustum_margin,
                ..a.tetra_points
            },
            ..*a
        }),
    ensures
        region(a, margin) == region(b, margin),
{
}

/// `out` is `mesh` without the vertices outside the box, and the faces that use them.
pub open spec fn is_cropped(mesh: &Mesh, lo: Vec3, hi: Vec3, out: &Mesh) -> bool {
    let inside = Seq::new(
        mesh.vertices@.len(),
        |i: int| bounds::in_box(mesh.vertices@[i], lo, hi),
    );
    filter::is_filtered(mesh, inside, out)
}

/// Crop a mesh to a box.
pub fn crop(mesh: &Mesh, lo: Vec3, hi: Vec3) -> (out: Mesh)
    requires
        mesh.wf(),
    ensures
        is_cropped(mesh, lo, hi, &out),
{
    let mask = bounds::inside(&mesh.vertices, lo, hi);
    filter::filter_mesh_with_keep(mesh, mask.as_slice())
}

/// `out` is the raw surface `mesh` after the clean-up: crossings that are not kept and
/// vertices outside the box are dropped, then small components, and the rest is smoothed.
pub open spec fn is_cleaned<
    S: Fn(usize, F32) -> usize,
    R: Fn(&Vec<Vec3>, &Rings, usize, bool) -> Vec3,
>(
    mesh: &Mesh,
    keep: Seq<bool>,
    lo: Vec3,
    hi: Vec3,
    cfg: &ExtractConfig,
    share: S,
    relax: R,
    out: &Mesh,
) -> bool {
    exists|kept: Mesh, cropped: Mesh, large: Mesh|
        {
            &&& #[trigger] filter::is_filtered(mesh, keep, &kept)
            &&& #[trigger] is_cropped(&kept, lo, hi, &cropped)
            &&& #[trigger] filter::drops_small(
                &cropped,
                cfg.min_component_faces,
                cfg.min_component_frac,
                share,
                &large,
            )
            &&& smooth::is_smoothed(&large, cfg.smooth_iters, relax, out)
        }
}

/// `relax` can be asked of every mesh.
pub open spec fn can_relax_all<R: Fn(&Vec<Vec3>, &Rings, usize, bool) -> Vec3>(relax: R) -> bool {
    forall|mesh: Mesh| #[trigger] smooth::can_relax(relax, &mesh)
}

/// Clean the raw surface up. `keep` marks the crossings whose edge is short enough.
pub fn clean_mesh<
    S: Fn(usize, F32) -> usize,
    R: Fn(&Vec<Vec3>, &Rings, usize, bool) -> Vec3,
>(
    mesh: &Mesh,
    keep: &Vec<bool>,
    lo: Vec3,
    hi: Vec3,
    cfg: &ExtractConfig,
    share: S,
    relax: R,
) -> (out: Mesh)
    requires
        mesh.wf(),
        keep@.len() == mesh.vertices@.len(),
        filter::drops_any(cfg.min_component_faces, cfg.min_component_frac) ==> mesh.faces@.len()
            <= u32::MAX,
        cfg.smooth_iters > 0 ==> 6 * mesh.faces@.len() <= u32::MAX,
        forall|largest: usize| #[trigger] share.requires((largest, cfg.min_component_frac)),
        can_relax_all(relax),
    ensures
        is_cleaned(mesh, keep@, lo, hi, cfg, share, relax, &out),
        out.wf(),
        out.faces@.len() <= mesh.faces@.len(),
{
    let kept = filter::filter_mesh_with_keep(mesh, keep.as_slice());
    proof {
        filter::filtered_mesh_is_well_formed(mesh, keep@, &kept);
        filter::filtering_adds_no_face(mesh, keep@, &kept);
    }
    let cropped = crop(&kept, lo, hi);
    proof {
        let mask = Seq::new(
            kept.vertices@.len(),
            |i: int| bounds::in_box(kept.vertices@[i], lo, hi),
        );
        filter::filtered_mesh_is_well_formed(&kept, mask, &cropped);
        filter::filtering_adds_no_face(&kept, mask, &cropped);
    }
    let large = filter::filter_small_components(
        &cropped,
        cfg.min_component_faces,
        cfg.min_component_frac,
        share,
    );
    proof {
        filter::dropping_small_keeps_wf(
            &cropped,
            cfg.min_component_faces,
            cfg.min_component_frac,
            share,
            &large,
        );
        assert(smooth::can_relax(relax, &large));
    }
    let mut out = large.duplicate();
    let ghost before = out;
    smooth::taubin_smooth(&mut out, cfg.smooth_iters, relax);
    proof {
        smooth::smoothing_keeps_wf(&before, cfg.smooth_iters, relax, &out);
        same_start(&before, &large, cfg.smooth_iters, relax, &out);
        assert(filter::is_filtered(mesh, keep@, &kept));
        assert(is_cropped(&kept, lo, hi, &cropped));
        assert(filter::drops_small(
            &cropped,
            cfg.min_component_faces,
            cfg.min_component_frac,
            share,
            &large,
        ));
    }
    out
}

/// Smoothing depends on the vertices and faces alone.
proof fn same_start<R: Fn(&Vec<Vec3>, &Rings, usize, bool) -> Vec3>(
    a: &Mesh,
    b: &Mesh,
    iters: u32,
    relax: R,
    out: &Mesh,
)
    requires
        a.vertices@ == b.vertices@,
        a.faces@ == b.faces@,
        smooth::is_smoothed(a, iters, relax, out),
    ensures
        smooth::is_smoothed(b, iters, relax, out),
{
}

/// How a clean mesh is simplified and textured.
#[derive(Clone, Copy, Debug, PartialEq, Eq, Structural)]
pub struct FinishPlan {
    /// Simplify to this many faces before anything else.
    pub simplify_to: Option<usize>,
    /// Chart the mesh and bake a texture.
    pub texture: bool,
}

/// What is left to simplify once the texture is baked, or was not.
#[derive(Clone, Copy, Debug, PartialEq, Eq, Structural)]
pub enum LastSimplify {
    /// Nothing.
    Skip,
    /// Down to the target, with texture coordinates kept.
    WithUvs(usize),
    /// Down to the target.
    Plain(usize),
}

/// The plan for a mesh with `faces` faces. A mesh that gets no texture is simplified to the
/// target right away. One that does is simplified under the finished texture, and before
/// that only if it has too many faces to chart.
pub open spec fn plan(cfg: &ExtractConfig, faces: int) -> FinishPlan {
    let texture = cfg.texture_size > 0 && faces > 0;
    FinishPlan {
        simplify_to: if cfg.target_faces == 0 {
            None
        } else if !texture {
            Some(cfg.target_faces as usize)
        } else if cfg.pre_simplify_factor > 0 && faces > cfg.target_faces
            * cfg.pre_simplify_factor {
            Some((cfg.target_faces * cfg.pre_simplify_factor) as usize)
        } else {
            None
        },
        texture,
    }
}

/// Plan the simplification and texturing of a clean mesh.
pub fn finish_plan(cfg: &ExtractConfig, faces: usize) -> (r: FinishPlan)
    requires
        cfg.texture_size > 0 && faces > 0 ==> cfg.target_faces * cfg.pre_simplify_factor
            <= usize::MAX,
    ensures
        r == plan(cfg, faces as int),
{
    let texture: bool = cfg.texture_size > 0 && faces > 0;
    assert(cfg.target_faces * cfg.pre_simplify_factor >= 0) by (nonlinear_arith);
    let simplify_to: Option<usize> = if cfg.target_faces == 0 {
        None
    } else if !texture {
        Some(cfg.target_faces as usize)
    } else if cfg.pre_simplify_factor > 0 && faces > cfg.target_faces as usize
        * cfg.pre_simplify_factor {
        Some(cfg.target_faces as usize * cfg.pre_simplify_factor)
    } else {
        None
    };
    FinishPlan { simplify_to, texture }
}

/// What is simplified at the end: a textured mesh under its texture, and one whose charting
/// failed without.
pub open spec fn last_step(cfg: &ExtractConfig, wanted_texture: bool, has_texture: bool) -> LastSimplify {
    if cfg.target_faces == 0 {
        LastSimplify::Skip
    } else if has_texture {
        LastSimplify::WithUvs(cfg.target_faces as usize)
    } else if wanted_texture {
        LastSimplify::Plain(cfg.target_faces as usize)
    } else {
        LastSimplify::Skip
    }
}

/// What to simplify at the end.
pub fn last_simplify(cfg: &ExtractConfig, wanted_texture: bool, has_texture: bool) -> (r: LastSimplify)
    ensures
        r == last_step(cfg, wanted_texture, has_texture),
{
    if cfg.target_faces == 0 {
        LastSimplify::Skip
    } else if has_texture {
        LastSimplify::WithUvs(cfg.target_faces as usize)
    } else if wanted_texture {
        LastSimplify::Plain(cfg.target_faces as usize)
    } else {
        LastSimplify::Skip
    }
}

/// Where a target is set, every mesh is simplified to it exactly once: before anything else
/// if it gets no texture, or else at the end, whether charting worked or not.
pub proof fn every_mesh_is_simplified_to_the_target(
    cfg: &ExtractConfig,
    faces: int,
    has_texture: bool,
)
    requires
        cfg.target_faces > 0,
        has_texture ==> plan(cfg, faces).texture,
    ensures
        ({
            let p = plan(cfg, faces);
            let target = cfg.target_faces as usize;
            let last = last_step(cfg, p.texture, has_texture);
            if p.texture {
                last == LastSimplify::WithUvs(target) || last == LastSimplify::Plain(target)
            } else {
                p.simplify_to == Some(target) && last == LastSimplify::Skip
            }
        }),
{
}

/// Cropping keeps what lies in the box and nothing else: each corner of each face of the result is
/// a vertex of the mesh between the corners of the box, along each axis, and a face with three such
/// corners stays, as it was.
pub proof fn cropping_keeps_what_lies_inside(mesh: &Mesh, lo: Vec3, hi: Vec3, out: &Mesh) -> (src: Seq<int>)
    requires
        mesh.wf(),
        is_cropped(mesh, lo, hi, out),
    ensures
        src.len() == out.faces@.len(),
        forall|e: int, f: int| 0 <= e < f < src.len() ==> src[e] < src[f],
        forall|f: int|
            #![trigger src[f]]
            0 <= f < src.len() ==> 0 <= src[f] < mesh.faces@.len() && filter::stays_in_place(
                mesh,
                mesh.faces@[src[f]],
                out,
                out.faces@[f],
            ),
        forall|f: int|
            #![trigger src.contains(f)]
            0 <= f < mesh.faces@.len() ==> (src.contains(f) <==> forall|k: int|
                0 <= k < 3 ==> is_boxed(
                    mesh.vertices@[#[trigger] mesh.faces@[f][k] as int],
                    lo,
                    hi,
                )),
{
    let inside = Seq::new(
        mesh.vertices@.len(),
        |i: int| bounds::in_box(mesh.vertices@[i], lo, hi),
    );
    let (vertices, src) = filter::filtering_moves_no_corner(mesh, inside, out);
    assert forall|f: int|
        #![trigger src.contains(f)]
        0 <= f < mesh.faces@.len() implies (src.contains(f) <==> forall|k: int|
            0 <= k < 3 ==> is_boxed(
                mesh.vertices@[#[trigger] mesh.faces@[f][k] as int],
                lo,
                hi,
            )) by {
        let g = mesh.faces@[f];
        assert(crate::mesh::face_in(g, mesh.vertices@.len()));
        assert forall|k: int| 0 <= k < 3 implies inside[g[k] as int] == is_boxed(
            mesh.vertices@[#[trigger] g[k] as int],
            lo,
            hi,
        ) by {}
        if src.contains(f) {
            let e = src.index_of(f);
            assert(inside[mesh.faces@[src[e]][0] as int]);
        }
        if forall|k: int|
            0 <= k < 3 ==> is_boxed(
                mesh.vertices@[#[trigger] mesh.faces@[f][k] as int],
                lo,
                hi,
            ) {
            assert(inside[g[0] as int] && inside[g[1] as int] && inside[g[2] as int]);
        }
    }
    src
}

/// A point is neither before nor beyond a box along any axis.
pub open spec fn is_boxed(p: Vec3, lo: Vec3, hi: Vec3) -> bool {
    &&& !p.x.nan() && !lo.x.nan() && !hi.x.nan() && lo.x.rank() <= p.x.rank() <= hi.x.rank()
    &&& !p.y.nan() && !lo.y.nan() && !hi.y.nan() && lo.y.rank() <= p.y.rank() <= hi.y.rank()
    &&& !p.z.nan() && !lo.z.nan() && !hi.z.nan() && lo.z.rank() <= p.z.rank() <= hi.z.rank()
}

/// A mesh is simplified before it is textured only if it has more faces than the factor allows, and
/// then to as many as it allows.
pub proof fn dense_meshes_are_thinned_before_texturing(cfg: &ExtractConfig, faces: int)
    requires
        0 <= faces <= usize::MAX,
    ensures
        plan(cfg, faces).texture <==> cfg.texture_size > 0 && faces > 0,
        plan(cfg, faces).texture ==> match plan(cfg, faces).simplify_to {
            Some(n) => n == cfg.target_faces * cfg.pre_simplify_factor && 0 < n < faces,
            None => cfg.target_faces == 0 || cfg.pre_simplify_factor == 0 || faces
                <= cfg.target_faces * cfg.pre_simplify_factor,
        },
        cfg.target_faces == 0 ==> plan(cfg, faces).simplify_to is None,
{
    if cfg.target_faces > 0 && cfg.pre_simplify_factor > 0 {
        assert(cfg.target_faces * cfg.pre_simplify_factor > 0) by (nonlinear_arith)
            requires
                cfg.target_faces > 0,
                cfg.pre_simplify_factor > 0,
        ;
    }
}

/// All corners of a face are kept, and lie in the box.
pub open spec fn is_wanted(mesh: &Mesh, keep: Seq<bool>, lo: Vec3, hi: Vec3, f: [u32; 3]) -> bool {
    &&& keep[f[0] as int] && is_boxed(mesh.vertices@[f[0] as int], lo, hi)
    &&& keep[f[1] as int] && is_boxed(mesh.vertices@[f[1] as int], lo, hi)
    &&& keep[f[2] as int] && is_boxed(mesh.vertices@[f[2] as int], lo, hi)
}

/// The two filters before components are looked at leave the wanted faces, as they were.
proof fn wanted_faces_are_left(
    mesh: &Mesh,
    keep: Seq<bool>,
    lo: Vec3,
    hi: Vec3,
    kept: &Mesh,
    cropped: &Mesh,
) -> (src: Seq<int>)
    requires
        mesh.wf(),
        keep.len() == mesh.vertices@.len(),
        filter::is_filtered(mesh, keep, kept),
        is_cropped(kept, lo, hi, cropped),
    ensures
        cropped.wf(),
        src.len() == cropped.faces@.len(),
        forall|e: int, f: int| 0 <= e < f < src.len() ==> src[e] < src[f],
        forall|f: int|
            #![trigger src[f]]
            0 <= f < src.len() ==> 0 <= src[f] < mesh.faces@.len() && is_wanted(
                mesh,
                keep,
                lo,
                hi,
                mesh.faces@[src[f]],
            ) && filter::stays_in_place(mesh, mesh.faces@[src[f]], cropped, cropped.faces@[f]),
        forall|f: int|
            #![trigger src.contains(f)]
            0 <= f < mesh.faces@.len() && is_wanted(mesh, keep, lo, hi, mesh.faces@[f])
                ==> src.contains(f),
{
    filter::filtered_mesh_is_well_formed(mesh, keep, kept);
    let (vertices, a) = filter::filtering_moves_no_corner(mesh, keep, kept);
    let inside = Seq::new(
        kept.vertices@.len(),
        |i: int| bounds::in_box(kept.vertices@[i], lo, hi),
    );
    filter::filtered_mesh_is_well_formed(kept, inside, cropped);
    let b = cropping_keeps_what_lies_inside(kept, lo, hi, cropped);
    let src = Seq::new(b.len(), |f: int| a[b[f]]);
    assert forall|f: int| #![trigger src[f]] 0 <= f < src.len() implies 0 <= src[f]
        < mesh.faces@.len() && is_wanted(mesh, keep, lo, hi, mesh.faces@[src[f]])
        && filter::stays_in_place(mesh, mesh.faces@[src[f]], cropped, cropped.faces@[f]) by {
        let g = kept.faces@[b[f]];
        assert(filter::stays_in_place(mesh, mesh.faces@[a[b[f]]], kept, g));
        assert(b.contains(b[f]));
        assert(is_boxed(kept.vertices@[g[0] as int], lo, hi));
        assert(is_boxed(kept.vertices@[g[1] as int], lo, hi));
        assert(is_boxed(kept.vertices@[g[2] as int], lo, hi));
    }
    assert forall|f: int|
        #![trigger src.contains(f)]
        0 <= f < mesh.faces@.len() && is_wanted(mesh, keep, lo, hi, mesh.faces@[f]) implies src.contains(
        f,
    ) by {
        assert(a.contains(f));
        let e = a.index_of(f);
        let g = kept.faces@[e];
        assert(filter::stays_in_place(mesh, mesh.faces@[a[e]], kept, g));
        assert(is_boxed(kept.vertices@[g[0] as int], lo, hi));
        assert(is_boxed(kept.vertices@[g[1] as int], lo, hi));
        assert(is_boxed(kept.vertices@[g[2] as int], lo, hi));
        assert forall|k: int| 0 <= k < 3 implies is_boxed(
            kept.vertices@[#[trigger] kept.faces@[e][k] as int],
            lo,
            hi,
        ) by {
            assert(k == 0 || k == 1 || k == 2);
        }
        assert(b.contains(e));
        assert(src[b.index_of(e)] == f);
    }
    src
}

/// A clean surface has no face with a corner that is not kept or not in the box; its faces are
/// faces of the raw surface in their order. Where no component is too small, it has all others, and
/// without smoothing they are where they were.
pub proof fn cleaning_leaves_the_wanted_faces<
    S: Fn(usize, F32) -> usize,
    R: Fn(&Vec<Vec3>, &Rings, usize, bool) -> Vec3,
>(
    mesh: &Mesh,
    keep: Seq<bool>,
    lo: Vec3,
    hi: Vec3,
    cfg: &ExtractConfig,
    share: S,
    relax: R,
    out: &Mesh,
) -> (src: Seq<int>)
    requires
        mesh.wf(),
        keep.len() == mesh.vertices@.len(),
        is_cleaned(mesh, keep, lo, hi, cfg, share, relax, out),
    ensures
        src.len() == out.faces@.len(),
        forall|e: int, f: int| 0 <= e < f < src.len() ==> src[e] < src[f],
        forall|f: int|
            #![trigger src[f]]
            0 <= f < src.len() ==> 0 <= src[f] < mesh.faces@.len() && is_wanted(
                mesh,
                keep,
                lo,
                hi,
                mesh.faces@[src[f]],
            ) && (cfg.smooth_iters == 0 ==> filter::stays_in_place(
                mesh,
                mesh.faces@[src[f]],
                out,
                out.faces@[f],
            )),
        cfg.min_component_faces <= 1 && !cfg.min_component_frac.nan()
            && cfg.min_component_frac.rank() <= 0 ==> forall|f: int|
            #![trigger src.contains(f)]
            0 <= f < mesh.faces@.len() && is_wanted(mesh, keep, lo, hi, mesh.faces@[f])
                ==> src.contains(f),
{
    let (kept, cropped, large) = choose|kept: Mesh, cropped: Mesh, large: Mesh|
        {
            &&& #[trigger] filter::is_filtered(mesh, keep, &kept)
            &&& #[trigger] is_cropped(&kept, lo, hi, &cropped)
            &&& #[trigger] filter::drops_small(
                &cropped,
                cfg.min_component_faces,
                cfg.min_component_frac,
                share,
                &large,
            )
            &&& smooth::is_smoothed(&large, cfg.smooth_iters, relax, out)
        };
    let a = wanted_faces_are_left(mesh, keep, lo, hi, &kept, &cropped);
    if large.vertices@ == cropped.vertices@ && large.faces@ == cropped.faces@ {
        a
    } else {
        let scaled = choose|scaled: usize| #[trigger]
            share.ensures((filter::largest_of(&cropped), cfg.min_component_frac), scaled)
                && filter::is_filtered(
                &cropped,
                filter::in_large_component(
                    cropped.faces@,
                    cropped.vertices@.len(),
                    if scaled > cfg.min_component_faces {
                        scaled as int
                    } else {
                        cfg.min_component_faces as int
                    },
                ),
                &large,
            );
        let stay = filter::in_large_component(
            cropped.faces@,
            cropped.vertices@.len(),
            if scaled > cfg.min_component_faces {
                scaled as int
            } else {
                cfg.min_component_faces as int
            },
        );
        let (vertices, b) = filter::filtering_moves_no_corner(&cropped, stay, &large);
        let src = Seq::new(b.len(), |f: int| a[b[f]]);
        assert forall|f: int| #![trigger src[f]] 0 <= f < src.len() implies 0 <= src[f]
            < mesh.faces@.len() && is_wanted(mesh, keep, lo, hi, mesh.faces@[src[f]])
            && filter::stays_in_place(mesh, mesh.faces@[src[f]], &large, large.faces@[f]) by {
            assert(0 <= b[f] < a.len());
            assert(a[b[f]] == src[f]);
        }
        src
    }
}

/// A clean surface has no component with fewer faces than the bound: each face is connected to at
/// least so many.
pub proof fn cleaning_leaves_no_small_component<
    S: Fn(usize, F32) -> usize,
    R: Fn(&Vec<Vec3>, &Rings, usize, bool) -> Vec3,
>(
    mesh: &Mesh,
    keep: Seq<bool>,
    lo: Vec3,
    hi: Vec3,
    cfg: &ExtractConfig,
    share: S,
    relax: R,
    out: &Mesh,
    g: int,
)
    requires
        mesh.wf(),
        keep.len() == mesh.vertices@.len(),
        is_cleaned(mesh, keep, lo, hi, cfg, share, relax, out),
        cfg.min_component_faces > 1,
        0 <= g < out.faces@.len(),
    ensures
        filter::faces_with(out.faces@, out.faces@[g][0], out.faces@.len() as int).len()
            >= cfg.min_component_faces,
{
    let (kept, cropped, large) = choose|kept: Mesh, cropped: Mesh, large: Mesh|
        {
            &&& #[trigger] filter::is_filtered(mesh, keep, &kept)
            &&& #[trigger] is_cropped(&kept, lo, hi, &cropped)
            &&& #[trigger] filter::drops_small(
                &cropped,
                cfg.min_component_faces,
                cfg.min_component_frac,
                share,
                &large,
            )
            &&& smooth::is_smoothed(&large, cfg.smooth_iters, relax, out)
        };
    let src = wanted_faces_are_left(mesh, keep, lo, hi, &kept, &cropped);
    filter::no_small_component_is_left(
        &cropped,
        cfg.min_component_faces,
        cfg.min_component_frac,
        share,
        &large,
        g,
    );
}

} // verus!
