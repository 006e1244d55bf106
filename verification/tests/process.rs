//! The training schedule, exports and extraction plans.

use brush_mesh::extract::{
    clean_mesh, crop, finish_plan, last_simplify, seed_region, ExtractConfig, LastSimplify,
};
use brush_mesh::float::F32;
use brush_mesh::mesh::{Mesh, Vec3};
use brush_mesh::process::config::{LogConfig, MeshConfig, ProcessConfig, TrainConfig};
use brush_mesh::process::export::{
    export_directory, export_file_name, export_target, mesh_file_name, pad_iter,
};
use brush_mesh::process::schedule::{
    first_choice, init_source, level_image_scale, meshes_without_training, refines,
    wants_depth_init, warns_of_cut, InitSource, Run,
};
use brush_mesh::smooth::Rings;

fn f(x: f32) -> F32 {
    F32::from_bits(x.to_bits())
}

fn g(x: F32) -> f32 {
    f32::from_bits(x.bits)
}

fn vec3(x: f32, y: f32, z: f32) -> Vec3 {
    Vec3 { x: f(x), y: f(y), z: f(z) }
}

fn process(start_iter: u32) -> ProcessConfig {
    ProcessConfig {
        seed: 42,
        start_iter,
        eval_every: 4,
        eval_save_to_disk: true,
        export_every: 5,
        export_path: "./{dataset}_exports".to_string(),
        export_name: "export_{iter}.ply".to_string(),
    }
}

fn train(levels: u32, steps: u32) -> TrainConfig {
    TrainConfig {
        total_train_iters: 10,
        refine_every: 2,
        geo_from_iter: Some(3),
        lod_levels: levels,
        lod_refine_steps: steps,
    }
}

fn log() -> LogConfig {
    LogConfig { enabled: true, splats_every: Some(3), stats_every: 4, distribution_every: 5 }
}

/// The steps of a whole run: for each its phase, and what follows it.
fn run(cfg: &TrainConfig, process: &ProcessConfig, mesh_every: Option<u32>) -> Vec<String> {
    let mut run = Run::start(cfg, process);
    let mut out = Vec::new();
    while !run.is_done(cfg) {
        let iter = run.iter;
        let start = run.begin_step(cfg, process);
        if let Some((name, iter, total)) = &start.boundary {
            out.push(format!("boundary {name} {iter}/{total}"));
        }
        out.push(format!("step {iter}: {}/{} lod {}", start.phase_iter, start.phase_total, run.lod));
        let end = run.finish_step(cfg, process, mesh_every, &log(), true, 0);
        if end.eval {
            out.push(format!("eval {}", run.iter));
        }
        if let Some((name, iter, total)) = &end.export {
            out.push(format!("export {name} {iter}/{total}"));
        }
        if end.mesh {
            out.push(format!("mesh {}", run.iter));
        }
        if end.last {
            out.push("last".to_string());
        }
    }
    out
}

#[test]
fn runs_train_then_decimate_level_by_level() {
    let out = run(&train(2, 3), &process(8), None);
    let steps: Vec<&String> = out.iter().filter(|s| s.starts_with("step")).collect();
    assert_eq!(
        steps,
        vec![
            "step 8: 8/10 lod 0",
            "step 9: 9/10 lod 0",
            "step 10: 0/3 lod 1",
            "step 11: 1/3 lod 1",
            "step 12: 2/3 lod 1",
            "step 13: 0/3 lod 2",
            "step 14: 1/3 lod 2",
            "step 15: 2/3 lod 2",
        ]
    );
    let boundaries: Vec<&String> = out.iter().filter(|s| s.starts_with("boundary")).collect();
    assert_eq!(
        boundaries,
        vec!["boundary export_{iter}.ply 10/10", "boundary export_{iter}_lod1.ply 3/3"]
    );
    assert_eq!(out.last().map(String::as_str), Some("last"));
    assert!(out.iter().any(|s| s == "export export_{iter}_lod2.ply 3/3"), "{out:?}");
}

#[test]
fn runs_without_levels_end_with_an_export_and_a_mesh() {
    let out = run(&train(0, 0), &process(0), Some(4));
    assert!(out.iter().any(|s| s == "export export_{iter}.ply 5/10"));
    assert!(out.iter().any(|s| s == "export export_{iter}.ply 10/10"));
    let meshes: Vec<&String> = out.iter().filter(|s| s.starts_with("mesh")).collect();
    assert_eq!(meshes, vec!["mesh 4", "mesh 8", "mesh 10"]);
    let evals: Vec<&String> = out.iter().filter(|s| s.starts_with("eval")).collect();
    assert_eq!(evals, vec!["eval 4", "eval 8", "eval 10"]);
}

#[test]
fn logging_follows_its_intervals() {
    let cfg = train(0, 0);
    let mut run = Run { iter: 2, lod: 0 };
    let end = run.finish_step(&cfg, &process(0), None, &log(), true, 7);
    assert_eq!(run.iter, 3);
    assert!(end.log_splats && !end.log_stats && !end.log_distribution);
    assert!(end.refined);
    assert!(!end.eval && !end.save_eval && !end.update && !end.last);
    assert!(end.lod_progress.is_none());
    let mut run = Run { iter: 3, lod: 0 };
    assert!(run.finish_step(&cfg, &process(0), None, &log(), true, 0).log_memory);
    let off = LogConfig { enabled: false, splats_every: None, ..log() };
    let mut run = Run { iter: 9, lod: 0 };
    let end = run.finish_step(&cfg, &process(0), None, &off, true, 0);
    assert!(end.log_stats && !end.log_memory && !end.log_splats && end.log_distribution);
}

#[test]
fn total_steps_count_the_levels() {
    assert_eq!(train(2, 3).total_iters(), 16);
    assert_eq!(train(0, 3).total_iters(), 10);
    assert!(train(0, 0).geo_regs_on(3));
    assert!(!train(0, 0).geo_regs_on(2));
    let cfg = TrainConfig { geo_from_iter: None, ..train(0, 0) };
    assert!(!cfg.geo_regs_on(u32::MAX));
}

#[test]
fn finished_runs_still_export_a_mesh() {
    assert!(meshes_without_training(&train(0, 0), &process(10), Some(1)));
    assert!(!meshes_without_training(&train(0, 0), &process(9), Some(1)));
    assert!(!meshes_without_training(&train(0, 0), &process(10), None));
}

#[test]
fn refinement_stops_near_the_end_of_a_phase() {
    assert!(refines(200, 100, f(0.5)));
    assert!(refines(200, 100, f(0.95)));
    assert!(!refines(200, 100, f(0.96)));
    assert!(!refines(0, 100, f(0.0)));
    assert!(!refines(150, 100, f(0.5)));
    assert!(!refines(200, 100, f(f32::NAN)));
}

#[test]
fn splats_start_from_the_best_source() {
    assert_eq!(init_source(true, true), InitSource::Cloud);
    assert_eq!(init_source(false, true), InitSource::Depth);
    assert_eq!(init_source(false, false), InitSource::Random);
    assert!(wants_depth_init(false, 3));
    assert!(!wants_depth_init(true, 3));
    assert!(!wants_depth_init(false, 0));
    assert_eq!(first_choice(Some(1), Some(2), 3), 1);
    assert_eq!(first_choice(None, Some(2), 3), 2);
    assert_eq!(first_choice(None, None, 3), 3);
}

#[test]
fn exports_are_padded_so_that_they_sort() {
    assert_eq!(pad_iter(5, 30000), "00005");
    assert_eq!(pad_iter(30000, 30000), "30000");
    assert_eq!(pad_iter(123, 9), "123");
    assert_eq!(pad_iter(0, 0), "0");
    let names: Vec<String> = (0..=120).map(|i| pad_iter(i, 120)).collect();
    let mut sorted = names.clone();
    sorted.sort();
    assert_eq!(names, sorted);
}

#[test]
fn names_are_filled_in() {
    assert_eq!(export_file_name("export_{iter}.ply", 50, 1000), "export_0050.ply");
    assert_eq!(export_file_name("{iter}-{iter}", 7, 10), "07-07");
    assert_eq!(export_file_name("plain.ply", 7, 10), "plain.ply");
    assert_eq!(mesh_file_name(7, 10), "mesh_07.glb");
    assert_eq!(export_directory("./{dataset}_exports", Some("garden")), "./garden_exports");
    assert_eq!(export_directory("./{dataset}_exports", None), "./dataset_exports");
    let (name, iter, total) = export_target(&process(0), 2, 77, 100, 30);
    assert_eq!((name.as_str(), iter, total), ("export_{iter}_lod2.ply", 30, 30));
    let (name, iter, total) = export_target(&process(0), 0, 77, 100, 30);
    assert_eq!((name.as_str(), iter, total), ("export_{iter}.ply", 77, 100));
}

#[test]
fn extraction_has_defaults() {
    let cfg = ExtractConfig::default();
    assert_eq!(g(cfg.iso_value), 0.5);
    assert_eq!(cfg.smooth_iters, 1);
    assert_eq!(g(cfg.edge_filter_scale), 1.0);
    assert_eq!(cfg.min_component_faces, 500);
    assert_eq!(g(cfg.min_component_frac), 0.01);
    assert_eq!(cfg.target_faces, 750_000);
    assert_eq!(cfg.texture_size, 4096);
    assert_eq!(cfg.pre_simplify_factor, 2);
    assert_eq!(g(cfg.bake_view_frac), 0.8);
    assert_eq!(g(cfg.texture_dist_power), 2.0);
    assert_eq!(g(cfg.carve_scale), 0.5);
    assert_eq!(g(cfg.image_crop), 0.8);
}

#[test]
fn meshes_are_cropped_to_a_box() {
    let mesh = Mesh {
        vertices: vec![
            vec3(0.0, 0.0, 0.0),
            vec3(1.0, 0.0, 0.0),
            vec3(0.0, 1.0, 0.0),
            vec3(5.0, 0.0, 0.0),
        ],
        faces: vec![[0, 1, 3], [0, 1, 2]],
    };
    let out = crop(&mesh, vec3(0.0, 0.0, 0.0), vec3(1.0, 1.0, 1.0));
    assert_eq!(out.faces, vec![[0, 1, 2]]);
    assert_eq!(out.vertices.len(), 3);
}

#[test]
fn cleaning_drops_long_edges_and_specks() {
    let mesh = Mesh {
        vertices: (0..9).map(|i| vec3(i as f32, 0.0, 0.0)).collect(),
        faces: vec![[0, 1, 2], [1, 2, 3], [4, 5, 6], [6, 7, 8]],
    };
    let mut keep = vec![true; 9];
    keep[8] = false;
    let cfg = ExtractConfig {
        smooth_iters: 0,
        min_component_faces: 2,
        min_component_frac: f(0.0),
        ..ExtractConfig::default()
    };
    let out = clean_mesh(
        &mesh,
        &keep,
        vec3(-100.0, -1.0, -1.0),
        vec3(100.0, 1.0, 1.0),
        &cfg,
        |largest: usize, frac: F32| (largest as f32 * g(frac)) as usize,
        |pos: &Vec<Vec3>, _: &Rings, i: usize, _: bool| pos[i],
    );
    assert_eq!(out.faces, vec![[0, 1, 2], [1, 2, 3]]);
    assert_eq!(out.vertices.len(), 4);
}

#[test]
fn simplification_is_planned() {
    let cfg = ExtractConfig { target_faces: 100, ..ExtractConfig::default() };
    let plan = finish_plan(&cfg, 1000);
    assert_eq!(plan.simplify_to, Some(200));
    assert!(plan.texture);
    assert!(matches!(last_simplify(&cfg, true, true), LastSimplify::WithUvs(100)));
    assert!(matches!(last_simplify(&cfg, true, false), LastSimplify::Plain(100)));
    let plain = ExtractConfig { texture_size: 0, ..cfg };
    let plan = finish_plan(&plain, 1000);
    assert_eq!(plan.simplify_to, Some(100));
    assert!(!plan.texture);
    assert!(matches!(last_simplify(&plain, false, false), LastSimplify::Skip));
    // Without a texture the factor does not matter.
    let huge = ExtractConfig { pre_simplify_factor: usize::MAX, ..plain };
    assert_eq!(finish_plan(&huge, 1000).simplify_to, Some(100));
    let untouched = ExtractConfig { texture_size: 64, ..huge };
    assert_eq!(finish_plan(&untouched, 0).simplify_to, Some(100));
}

#[test]
fn mesh_settings_replace_the_region_and_the_faces() {
    let mesh = MeshConfig {
        export_mesh_every: Some(7),
        export_mesh_dist: f(4.0),
        export_mesh_crop: f(0.75),
        export_mesh_target_faces: 500_000,
    };
    let cfg = mesh.extract_config(ExtractConfig::default());
    assert_eq!(g(cfg.tetra_points.far), 4.0);
    assert_eq!(g(cfg.tetra_points.near), 0.2);
    assert_eq!(g(cfg.image_crop), 0.75);
    assert_eq!(cfg.target_faces, 500_000);
    assert_eq!(cfg.texture_size, ExtractConfig::default().texture_size);
}

#[test]
fn a_cut_is_warned_of() {
    assert!(warns_of_cut(100, 99));
    assert!(warns_of_cut(1, 0));
    assert!(!warns_of_cut(100, 100));
    assert!(!warns_of_cut(0, 0));
}

#[test]
fn images_shrink_from_level_to_level() {
    assert_eq!(level_image_scale(50, 0), None);
    assert_eq!(level_image_scale(50, 1), Some((50, 1)));
    assert_eq!(level_image_scale(50, 3), Some((50, 3)));
    assert_eq!(level_image_scale(99, 2), Some((99, 2)));
    assert_eq!(level_image_scale(100, 2), None);
    assert_eq!(level_image_scale(150, 2), None);
}

#[test]
fn the_crop_takes_the_place_of_the_margin() {
    let a = ExtractConfig::default();
    let mut b = a;
    b.tetra_points.frustum_margin = f(7.0);
    for cfg in [a, b] {
        let region = seed_region(&cfg, f(-0.25));
        assert_eq!(g(region.frustum_margin), -0.25);
        assert_eq!(region.near.bits, a.tetra_points.near.bits);
        assert_eq!(region.far.bits, a.tetra_points.far.bits);
    }
}

/// Whatever the name and the iterations, levels do not overwrite each other.
#[test]
fn levels_have_files_of_their_own() {
    for name in ["export_{iter}.ply", "x.ply", "a_lod{iter}.ply", "{iter}.ply{iter}.ply_lod1"] {
        let mut p = process(0);
        p.export_name = name.to_string();
        let mut files: Vec<String> = Vec::new();
        for lod in [0, 1, 2, 10, 11, 12] {
            let (name, iter, total) = export_target(&p, lod, 1, 5000, 1);
            files.push(export_file_name(&name, iter, total));
        }
        for (i, a) in files.iter().enumerate() {
            assert!(files[..i].iter().all(|b| a != b), "{files:?}");
        }
    }
}
