//! The schedule of a training run: where splats come from, what each step belongs to and
//! what follows it.

use crate::float::F32;
use crate::process::config::{LogConfig, ProcessConfig, TrainConfig};
use crate::process::export;
use vstd::prelude::*;

verus! {

/// Viewers are told of new splats every this many steps.
pub const UPDATE_EVERY: u32 = 5;

/// Number of splats of a random start.
pub const RANDOM_INIT_COUNT: usize = 10000;

/// `0.95`, the share of a phase in which splats are refined.
pub const REFINE_UNTIL_BITS: u32 = 0x3F733333;

/// What the first splats are made from.
#[derive(Clone, Copy, Debug, PartialEq, Eq, Structural)]
pub enum InitSource {
    /// A point cloud or splat file of the dataset.
    Cloud,
    /// Depth maps.
    Depth,
    /// Random points along camera rays.
    Random,
}

/// Whether depth maps are turned into seeds: only where the dataset has no cloud of its own.
pub fn wants_depth_init(has_cloud: bool, views_with_depth: usize) -> (r: bool)
    ensures
        r <==> !has_cloud && views_with_depth > 0,
{
    !has_cloud && views_with_depth > 0
}

/// A cloud that came with the dataset wins over depth seeds, and these over a random start.
pub fn init_source(has_cloud: bool, has_depth_seeds: bool) -> (r: InitSource)
    ensures
        r == (if has_cloud {
            InitSource::Cloud
        } else if has_depth_seeds {
            InitSource::Depth
        } else {
            InitSource::Random
        }),
{
    if has_cloud {
        InitSource::Cloud
    } else if has_depth_seeds {
        InitSource::Depth
    } else {
        InitSource::Random
    }
}

/// The configured mode wins over that of the splat file, and this over the default.
pub fn first_choice<M>(configured: Option<M>, from_file: Option<M>, default: M) -> (r: M)
    ensures
        r == (match configured {
            Some(m) => m,
            None => match from_file {
                Some(m) => m,
                None => default,
            },
        }),
{
    match configured {
        Some(m) => m,
        None => match from_file {
            Some(m) => m,
            None => default,
        },
    }
}

/// Whether to warn that not all points of the initial cloud are used: just where it was cut
/// down.
pub fn warns_of_cut(original: usize, kept: usize) -> (r: bool)
    ensures
        r <==> kept < original,
{
    kept < original
}

/// The share of its size that an image has at level of detail `lod`, as numerator and
/// denominator: each level makes the images of the one before `percent` of their size.
pub open spec fn image_share(percent: u32, lod: nat) -> (nat, nat)
    decreases lod,
{
    if lod == 0 {
        (1, 1)
    } else {
        let (n, d) = image_share(percent, (lod - 1) as nat);
        (n * percent as nat, d * 100)
    }
}

/// How the images of level `lod` are scaled: by this percentage, this many times. `None` if
/// they are used as they are, as in the main training and where the percentage makes them no
/// smaller.
pub fn level_image_scale(lod_image_scale: u32, lod: u32) -> (r: Option<(u32, u32)>)
    ensures
        r == (if lod > 0 && lod_image_scale < 100 {
            Some((lod_image_scale, lod))
        } else {
            None
        }),
        r matches Some((percent, times)) ==> image_share(percent, times as nat).0 < image_share(
            percent,
            times as nat,
        ).1,
{
    proof {
        if lod > 0 && lod_image_scale < 100 {
            levels_shrink_images(lod_image_scale, lod as nat);
        }
    }
    if lod > 0 && lod_image_scale < 100 {
        Some((lod_image_scale, lod))
    } else {
        None
    }
}

/// Images get smaller from level to level, unless they have no size left: the share of a
/// level is less than that of the level before, and below one.
pub proof fn levels_shrink_images(percent: u32, lod: nat)
    requires
        percent < 100,
        lod > 0,
    ensures
        ({
            let (n, d) = image_share(percent, lod);
            let (m, e) = image_share(percent, (lod - 1) as nat);
            &&& n < d
            &&& m > 0 ==> n * e < m * d
        }),
    decreases lod,
{
    let (m, e) = image_share(percent, (lod - 1) as nat);
    let p = percent as nat;
    if lod > 1 {
        levels_shrink_images(percent, (lod - 1) as nat);
    }
    assert(m <= e && e > 0) by {
        denominators_are_positive(percent, (lod - 1) as nat);
    }
    assert(m * p < e * 100) by (nonlinear_arith)
        requires
            0 <= m <= e,
            e > 0,
            0 <= p < 100,
    ;
    assert(m > 0 ==> (m * p) * e < m * (e * 100)) by (nonlinear_arith)
        requires
            e > 0,
            0 <= p < 100,
            m >= 0,
    ;
}

proof fn denominators_are_positive(percent: u32, lod: nat)
    ensures
        image_share(percent, lod).1 > 0,
    decreases lod,
{
    if lod > 0 {
        denominators_are_positive(percent, (lod - 1) as nat);
    }
}

/// The level of detail that step `iter` trains: none during the main training, then one
/// level after the other.
pub open spec fn level(cfg: &TrainConfig, iter: int) -> int {
    if cfg.lod_levels == 0 || iter < cfg.total_train_iters {
        0
    } else if (iter - cfg.total_train_iters) / (cfg.lod_refine_steps as int) + 1 <= cfg.lod_levels {
        (iter - cfg.total_train_iters) / (cfg.lod_refine_steps as int) + 1
    } else {
        cfg.lod_levels as int
    }
}

/// The step within its phase, and the number of steps of the phase.
pub open spec fn phase(cfg: &TrainConfig, lod: int, iter: int) -> (int, int) {
    if lod == 0 {
        (iter, cfg.total_train_iters as int)
    } else {
        (
            (iter - cfg.total_train_iters) % (cfg.lod_refine_steps as int),
            cfg.lod_refine_steps as int,
        )
    }
}

pub open spec fn is_multiple(n: u32, k: u32) -> bool {
    if k == 0 {
        n == 0
    } else {
        n % k == 0
    }
}

fn multiple_of(n: u32, k: u32) -> (r: bool)
    ensures
        r <==> is_multiple(n, k),
{
    if k == 0 {
        n == 0
    } else {
        n % k == 0
    }
}

/// A run between two steps.
#[derive(Clone, Copy, Debug)]
pub struct Run {
    /// The next step.
    pub iter: u32,
    /// The level of detail that the splats are at.
    pub lod: u32,
}

/// A step that is about to be trained.
pub struct StepStart {
    /// If the step enters a new level of detail: what the splats of the one before are
    /// exported as (name, iteration, total), before they are decimated.
    pub boundary: Option<(String, u32, u32)>,
    /// The step within its phase.
    pub phase_iter: u32,
    /// The number of steps of the phase.
    pub phase_total: u32,
}

/// What follows a step.
pub struct StepEnd {
    /// Evaluate the splats.
    pub eval: bool,
    /// Save the images of the evaluation.
    pub save_eval: bool,
    /// Export the splats (name, iteration, total).
    pub export: Option<(String, u32, u32)>,
    /// Export a mesh.
    pub mesh: bool,
    /// Log the splats.
    pub log_splats: bool,
    /// Log training statistics.
    pub log_stats: bool,
    /// Log memory use.
    pub log_memory: bool,
    /// Log and announce a refinement.
    pub refined: bool,
    /// Log splat distributions.
    pub log_distribution: bool,
    /// Tell viewers of the new splats.
    pub update: bool,
    /// Level of detail and number of levels, once past the main training.
    pub lod_progress: Option<(u32, u32)>,
    /// This was the last step.
    pub last: bool,
}

/// A level is entered at its first step and trained for its number of steps.
proof fn level_bounds(cfg: &TrainConfig, iter: int)
    requires
        cfg.wf(),
        0 <= iter < cfg.total(),
    ensures
        0 <= level(cfg, iter) <= cfg.lod_levels,
        iter < cfg.total_train_iters <==> level(cfg, iter) == 0,
        iter >= cfg.total_train_iters ==> cfg.lod_refine_steps >= 1 && level(cfg, iter) == (iter
            - cfg.total_train_iters) / (cfg.lod_refine_steps as int) + 1,
{
    if iter >= cfg.total_train_iters {
        let s = cfg.lod_refine_steps as int;
        let l = cfg.lod_levels as int;
        let d = iter - cfg.total_train_iters;
        assert(d < l * s);
        assert(s >= 1 && l >= 1) by (nonlinear_arith)
            requires
                0 <= d < l * s,
                s >= 0,
                l >= 0,
        ;
        assert(0 <= d / s < l) by (nonlinear_arith)
            requires
                0 <= d < l * s,
                s >= 1,
        ;
    }
}

/// Each level of detail is trained for exactly its number of steps: step `iter` trains level
/// `l` just when it lies in the `l`-th stretch after the main training.
pub proof fn levels_have_equal_length(cfg: &TrainConfig, iter: int, l: int)
    requires
        cfg.wf(),
        0 <= iter < cfg.total(),
        1 <= l <= cfg.lod_levels,
    ensures
        level(cfg, iter) == l <==> cfg.total_train_iters + (l - 1) * cfg.lod_refine_steps <= iter
            < cfg.total_train_iters + l * cfg.lod_refine_steps,
{
    level_bounds(cfg, iter);
    let s = cfg.lod_refine_steps as int;
    if iter >= cfg.total_train_iters {
        let d = iter - cfg.total_train_iters;
        assert(d / s == l - 1 <==> (l - 1) * s <= d < l * s) by (nonlinear_arith)
            requires
                s >= 1,
                d >= 0,
                l >= 1,
        ;
    } else {
        assert((l - 1) * s >= 0) by (nonlinear_arith)
            requires
                l >= 1,
                s >= 0,
        ;
    }
}

/// The level of detail never falls, and rises by one at most.
pub proof fn levels_rise_one_by_one(cfg: &TrainConfig, iter: int)
    requires
        cfg.wf(),
        0 <= iter,
        iter + 1 < cfg.total(),
    ensures
        level(cfg, iter) <= level(cfg, iter + 1) <= level(cfg, iter) + 1,
{
    level_bounds(cfg, iter);
    level_bounds(cfg, iter + 1);
    let s = cfg.lod_refine_steps as int;
    let d = iter - cfg.total_train_iters;
    if d >= 0 {
        assert(d / s <= (d + 1) / s <= d / s + 1) by (nonlinear_arith)
            requires
                s >= 1,
                d >= 0,
        ;
    } else if d == -1 {
        assert(0int / s == 0) by (nonlinear_arith)
            requires
                s >= 1,
        ;
    }
}

/// A step is within its phase.
pub proof fn steps_are_within_their_phase(cfg: &TrainConfig, iter: int)
    requires
        cfg.wf(),
        0 <= iter < cfg.total(),
    ensures
        0 <= phase(cfg, level(cfg, iter), iter).0 < phase(cfg, level(cfg, iter), iter).1,
{
    level_bounds(cfg, iter);
    let s = cfg.lod_refine_steps as int;
    let d = iter - cfg.total_train_iters;
    if d >= 0 {
        assert(0 <= d % s < s) by (nonlinear_arith)
            requires
                s >= 1,
        ;
    }
}

impl Run {
    /// The level of detail is not ahead of the schedule.
    pub open spec fn wf(&self, cfg: &TrainConfig) -> bool {
        &&& cfg.wf()
        &&& self.iter < cfg.total() ==> self.lod <= level(cfg, self.iter as int)
    }

    /// Begin, or resume, a run.
    pub fn start(cfg: &TrainConfig, process: &ProcessConfig) -> (r: Run)
        requires
            cfg.wf(),
        ensures
            r == (Run { iter: process.start_iter, lod: 0 }),
            r.wf(cfg),
    {
        proof {
            if process.start_iter < cfg.total() {
                level_bounds(cfg, process.start_iter as int);
            }
        }
        Run { iter: process.start_iter, lod: 0 }
    }

    /// Whether all steps are done.
    pub fn is_done(&self, cfg: &TrainConfig) -> (r: bool)
        requires
            cfg.wf(),
        ensures
            r <==> self.iter >= cfg.total(),
    {
        self.iter >= cfg.total_iters()
    }

    /// Begin the next step. Where it enters a new level of detail, the run is at that level
    /// from here on.
    pub fn begin_step(&mut self, cfg: &TrainConfig, process: &ProcessConfig) -> (r: StepStart)
        requires
            old(self).wf(cfg),
            old(self).iter < cfg.total(),
        ensures
            final(self).iter == old(self).iter,
            final(self).lod == level(cfg, old(self).iter as int),
            match r.boundary {
                Some((name, iter, total)) => old(self).lod < final(self).lod && (name@, iter, total)
                    == export::target(
                    process.export_name@,
                    old(self).lod,
                    old(self).iter,
                    cfg.total_train_iters,
                    cfg.lod_refine_steps,
                ),
                None => old(self).lod == final(self).lod,
            },
            (r.phase_iter as int, r.phase_total as int) == phase(
                cfg,
                final(self).lod as int,
                old(self).iter as int,
            ),
            r.phase_iter < r.phase_total,
    {
        proof {
            level_bounds(cfg, self.iter as int);
            steps_are_within_their_phase(cfg, self.iter as int);
        }
        let target: u32 = if self.iter < cfg.total_train_iters {
            0
        } else {
            (self.iter - cfg.total_train_iters) / cfg.lod_refine_steps + 1
        };
        let boundary = if target > self.lod {
            Some(
                export::export_target(
                    process,
                    self.lod,
                    self.iter,
                    cfg.total_train_iters,
                    cfg.lod_refine_steps,
                ),
            )
        } else {
            None
        };
        self.lod = target;
        if target == 0 {
            StepStart { boundary, phase_iter: self.iter, phase_total: cfg.total_train_iters }
        } else {
            StepStart {
                boundary,
                phase_iter: (self.iter - cfg.total_train_iters) % cfg.lod_refine_steps,
                phase_total: cfg.lod_refine_steps,
            }
        }
    }

    /// Finish the step: say what follows it, and go on to the next one.
    pub fn finish_step(
        &mut self,
        cfg: &TrainConfig,
        process: &ProcessConfig,
        mesh_every: Option<u32>,
        log: &LogConfig,
        has_eval: bool,
        num_added: u32,
    ) -> (r: StepEnd)
        requires
            cfg.wf(),
            process.wf(),
            mesh_every matches Some(every) ==> every >= 1,
            old(self).iter < cfg.total(),
            old(self).lod == level(cfg, old(self).iter as int),
        ensures
            final(self).iter == old(self).iter + 1,
            final(self).lod == old(self).lod,
            final(self).wf(cfg),
            is_step_end(r, cfg, process, mesh_every, log, has_eval, num_added, *final(self)),
    {
        let ghost before = *self;
        self.iter = self.iter + 1;
        let done: u32 = self.iter;
        let lod: u32 = self.lod;
        let last: bool = done == cfg.total_iters();
        proof {
            if done < cfg.total() {
                levels_rise_one_by_one(cfg, before.iter as int);
            }
        }
        let eval: bool = lod == 0 && (done % process.eval_every == 0 || done
            == cfg.total_train_iters) && has_eval;
        let should_export: bool = if lod == 0 {
            done % process.export_every == 0 || (last && cfg.lod_levels == 0)
        } else {
            last
        };
        let export = if should_export {
            Some(
                export::export_target(
                    process,
                    lod,
                    done,
                    cfg.total_train_iters,
                    cfg.lod_refine_steps,
                ),
            )
        } else {
            None
        };
        let mesh: bool = match mesh_every {
            Some(every) => done % every == 0 || last,
            None => false,
        };
        let log_splats: bool = match log.splats_every {
            Some(every) => multiple_of(done, every) || last,
            None => false,
        };
        let log_stats: bool = multiple_of(done, log.stats_every) || last;
        let log_distribution: bool = multiple_of(done, log.distribution_every) || last;
        StepEnd {
            eval,
            save_eval: eval && process.eval_save_to_disk,
            export,
            mesh,
            log_splats,
            log_stats,
            log_memory: log.enabled && log_stats,
            refined: num_added > 0,
            log_distribution,
            update: done % UPDATE_EVERY == 0 || last,
            lod_progress: if lod > 0 {
                Some((lod, cfg.lod_levels))
            } else {
                None
            },
            last,
        }
    }
}

/// Whether the splats are exported after `done` steps at level `lod`.
pub open spec fn exports_after(
    cfg: &TrainConfig,
    process: &ProcessConfig,
    lod: u32,
    done: u32,
) -> bool {
    if lod == 0 {
        done % process.export_every == 0 || (done == cfg.total() && cfg.lod_levels == 0)
    } else {
        done == cfg.total()
    }
}

/// Whether a mesh is exported after `done` steps.
pub open spec fn meshes_after(cfg: &TrainConfig, mesh_every: Option<u32>, done: u32) -> bool {
    mesh_every matches Some(every) && (done % every == 0 || done == cfg.total())
}

/// `r` is what follows a step that brought the run to `run`.
pub open spec fn is_step_end(
    r: StepEnd,
    cfg: &TrainConfig,
    process: &ProcessConfig,
    mesh_every: Option<u32>,
    log: &LogConfig,
    has_eval: bool,
    num_added: u32,
    run: Run,
) -> bool {
    let done = run.iter;
    let last = done == cfg.total();
    &&& r.last == last
    &&& r.eval == (run.lod == 0 && (done % process.eval_every == 0 || done
        == cfg.total_train_iters) && has_eval)
    &&& r.save_eval == (r.eval && process.eval_save_to_disk)
    &&& match r.export {
        Some((name, iter, total)) => exports_after(cfg, process, run.lod, done) && (
            name@,
            iter,
            total,
        ) == export::target(
            process.export_name@,
            run.lod,
            done,
            cfg.total_train_iters,
            cfg.lod_refine_steps,
        ),
        None => !exports_after(cfg, process, run.lod, done),
    }
    &&& r.mesh == meshes_after(cfg, mesh_every, done)
    &&& r.log_splats == (log.splats_every matches Some(every) && (is_multiple(done, every) || last))
    &&& r.log_stats == (is_multiple(done, log.stats_every) || last)
    &&& r.log_memory == (log.enabled && r.log_stats)
    &&& r.refined == (num_added > 0)
    &&& r.log_distribution == (is_multiple(done, log.distribution_every) || last)
    &&& r.update == (done % UPDATE_EVERY == 0 || last)
    &&& r.lod_progress == (if run.lod > 0 {
        Some((run.lod, cfg.lod_levels))
    } else {
        None
    })
}

/// Whether the splats are refined after step `phase_iter` of a phase, at `progress` through
/// it: every so many steps, but not at its start and not at its end.
pub fn refines(phase_iter: u32, refine_every: u32, progress: F32) -> (r: bool)
    requires
        refine_every >= 1,
    ensures
        r <==> phase_iter > 0 && phase_iter % refine_every == 0 && progress.spec_le(
            F32 { bits: REFINE_UNTIL_BITS },
        ),
{
    phase_iter > 0 && phase_iter % refine_every == 0 && progress.le(
        F32::from_bits(REFINE_UNTIL_BITS),
    )
}

/// Whether a mesh is extracted from the first splats: meshes are wanted and there is no step
/// to train.
pub fn meshes_without_training(
    cfg: &TrainConfig,
    process: &ProcessConfig,
    mesh_every: Option<u32>,
) -> (r: bool)
    requires
        cfg.wf(),
    ensures
        r <==> mesh_every is Some && process.start_iter >= cfg.total(),
{
    mesh_every.is_some() && process.start_iter >= cfg.total_iters()
}

/// Where meshes are wanted, a run ends with one, whether it has steps to train or not.
pub proof fn runs_end_with_a_mesh(
    cfg: &TrainConfig,
    process: &ProcessConfig,
    mesh_every: Option<u32>,
    done: u32,
)
    requires
        cfg.wf(),
        mesh_every is Some,
        done == cfg.total(),
    ensures
        process.start_iter >= cfg.total() || meshes_after(cfg, mesh_every, done),
{
}

/// A run that trains ends with an export of its splats.
pub proof fn runs_end_with_an_export(
    cfg: &TrainConfig,
    process: &ProcessConfig,
    iter: u32,
    lod: u32,
)
    requires
        cfg.wf(),
        iter + 1 == cfg.total(),
        lod == level(cfg, iter as int),
        cfg.lod_levels > 0 ==> cfg.lod_refine_steps > 0,
    ensures
        exports_after(cfg, process, lod, (iter + 1) as u32),
{
    level_bounds(cfg, iter as int);
    if cfg.lod_levels > 0 {
        assert(cfg.lod_levels * cfg.lod_refine_steps >= 1) by (nonlinear_arith)
            requires
                cfg.lod_levels > 0,
                cfg.lod_refine_steps > 0,
        ;
    }
}

/// The last step reports everything that is reported at all, and exports.
pub proof fn the_last_step_reports_everything(
    r: StepEnd,
    cfg: &TrainConfig,
    process: &ProcessConfig,
    mesh_every: Option<u32>,
    log: &LogConfig,
    has_eval: bool,
    num_added: u32,
    run: Run,
)
    requires
        is_step_end(r, cfg, process, mesh_every, log, has_eval, num_added, run),
        run.iter == cfg.total_train_iters + cfg.lod_levels * cfg.lod_refine_steps,
        run.lod > 0 <==> cfg.lod_levels > 0,
    ensures
        r.last,
        r.update,
        r.log_stats,
        r.log_distribution,
        r.log_memory == log.enabled,
        r.log_splats == log.splats_every is Some,
        r.mesh == mesh_every is Some,
        r.export is Some,
{
    if cfg.lod_levels == 0 {
        assert(cfg.lod_levels * cfg.lod_refine_steps == 0) by (nonlinear_arith)
            requires
                cfg.lod_levels == 0,
        ;
    }
}

/// Steps are evaluated in the main training alone: at every multiple of the interval and at its
/// end, where there is something to evaluate with.
pub proof fn evaluations_follow_the_interval(
    r: StepEnd,
    cfg: &TrainConfig,
    process: &ProcessConfig,
    mesh_every: Option<u32>,
    log: &LogConfig,
    has_eval: bool,
    num_added: u32,
    run: Run,
    k: int,
)
    requires
        is_step_end(r, cfg, process, mesh_every, log, has_eval, num_added, run),
        process.wf(),
    ensures
        run.lod > 0 || !has_eval ==> !r.eval,
        run.lod == 0 && has_eval && run.iter == cfg.total_train_iters ==> r.eval,
        run.lod == 0 && has_eval && run.iter == k * process.eval_every ==> r.eval,
        run.lod == 0 && run.iter != cfg.total_train_iters && k * process.eval_every < run.iter < (k
            + 1) * process.eval_every ==> !r.eval,
        r.save_eval <==> r.eval && process.eval_save_to_disk,
{
    multiples(run.iter as int, process.eval_every as int, k);
}

/// A number is a multiple of another, or lies between two of its multiples.
proof fn multiples(n: int, every: int, k: int)
    requires
        every > 0,
    ensures
        n == k * every ==> n % every == 0,
        k * every < n < (k + 1) * every ==> n % every != 0,
{
    if n == k * every {
        vstd::arithmetic::div_mod::lemma_fundamental_div_mod_converse(n, every, k, 0);
    }
    if k * every < n < (k + 1) * every {
        assert((k + 1) * every == k * every + every) by (nonlinear_arith);
        vstd::arithmetic::div_mod::lemma_fundamental_div_mod_converse(n, every, k, n - k * every);
    }
}

/// The splats are exported at every multiple of the interval in the main training; a level of
/// detail is exported once, after its last step, under a name of its own. Meshes are exported at
/// every multiple of their interval and at the end.
pub proof fn exports_follow_the_interval(
    r: StepEnd,
    cfg: &TrainConfig,
    process: &ProcessConfig,
    mesh_every: Option<u32>,
    log: &LogConfig,
    has_eval: bool,
    num_added: u32,
    run: Run,
    k: int,
)
    requires
        is_step_end(r, cfg, process, mesh_every, log, has_eval, num_added, run),
        process.wf(),
        mesh_every matches Some(every) ==> every >= 1,
    ensures
        run.lod == 0 && run.iter == k * process.export_every ==> r.export is Some,
        run.lod == 0 && run.iter != cfg.total() && k * process.export_every < run.iter < (k + 1)
            * process.export_every ==> r.export is None,
        run.lod > 0 ==> (r.export is Some <==> run.iter == cfg.total()),
        run.lod == 0 ==> (r.export matches Some(e) ==> e.0@ == process.export_name@ && e.1
            == run.iter && e.2 == cfg.total_train_iters),
        mesh_every is None ==> !r.mesh,
        mesh_every matches Some(every) ==> (run.iter == k * every || run.iter == cfg.total()
            ==> r.mesh) && (run.iter != cfg.total() && k * every < run.iter < (k + 1) * every
            ==> !r.mesh),
{
    multiples(run.iter as int, process.export_every as int, k);
    if let Some(every) = mesh_every {
        multiples(run.iter as int, every as int, k);
    }
}

/// Progress is shown at every fifth step, and that of the levels of detail while one is trained.
pub proof fn progress_is_shown(
    r: StepEnd,
    cfg: &TrainConfig,
    process: &ProcessConfig,
    mesh_every: Option<u32>,
    log: &LogConfig,
    has_eval: bool,
    num_added: u32,
    run: Run,
    k: int,
)
    requires
        is_step_end(r, cfg, process, mesh_every, log, has_eval, num_added, run),
    ensures
        run.iter == k * 5 ==> r.update,
        run.iter != cfg.total() && k * 5 < run.iter < (k + 1) * 5 ==> !r.update,
        r.refined <==> num_added > 0,
        r.lod_progress is Some <==> run.lod > 0,
        r.lod_progress matches Some(p) ==> p == (run.lod, cfg.lod_levels),
{
    multiples(run.iter as int, UPDATE_EVERY as int, k);
}

/// The steps of a phase are numbered from zero to its last one.
pub proof fn phases_number_their_steps(cfg: &TrainConfig, l: int, k: int)
    requires
        cfg.wf(),
        1 <= l <= cfg.lod_levels,
        0 <= k < cfg.lod_refine_steps,
    ensures
        ({
            let first = cfg.total_train_iters + (l - 1) * cfg.lod_refine_steps;
            phase(cfg, l, first + k) == (k, cfg.lod_refine_steps as int)
        }),
        0 <= k < cfg.total_train_iters ==> phase(cfg, 0, k) == (k, cfg.total_train_iters as int),
{
    let s = cfg.lod_refine_steps as int;
    let d = (l - 1) * s + k;
    vstd::arithmetic::div_mod::lemma_fundamental_div_mod_converse(d, s, l - 1, k);
}

/// The share of an image is the percentage to the power of the level.
pub proof fn shares_are_powers(percent: u32, lod: nat)
    ensures
        image_share(percent, lod).0 == vstd::arithmetic::power::pow(percent as int, lod),
        image_share(percent, lod).1 == vstd::arithmetic::power::pow(100, lod),
    decreases lod,
{
    reveal(vstd::arithmetic::power::pow);
    if lod > 0 {
        shares_are_powers(percent, (lod - 1) as nat);
        let (n, d) = image_share(percent, (lod - 1) as nat);
        assert(n * percent as nat == percent as int * n) by (nonlinear_arith);
    }
}

/// Splats, statistics and distributions are logged at the multiples of their intervals and at the
/// end; memory along with the statistics.
pub proof fn logs_follow_their_intervals(
    r: StepEnd,
    cfg: &TrainConfig,
    process: &ProcessConfig,
    mesh_every: Option<u32>,
    log: &LogConfig,
    has_eval: bool,
    num_added: u32,
    run: Run,
    k: int,
)
    requires
        is_step_end(r, cfg, process, mesh_every, log, has_eval, num_added, run),
    ensures
        ({
            let n = run.iter as int;
            let last = n == cfg.total();
            &&& log.splats_every is None ==> !r.log_splats
            &&& log.splats_every matches Some(every) ==> {
                &&& every > 0 && n == k * every ==> r.log_splats
                &&& every > 0 && !last && k * every < n < (k + 1) * every ==> !r.log_splats
            }
            &&& log.stats_every > 0 && n == k * log.stats_every ==> r.log_stats
            &&& log.stats_every > 0 && !last && k * log.stats_every < n < (k + 1)
                * log.stats_every ==> !r.log_stats
            &&& log.distribution_every > 0 && n == k * log.distribution_every ==> r.log_distribution
            &&& log.distribution_every > 0 && !last && k * log.distribution_every < n < (k + 1)
                * log.distribution_every ==> !r.log_distribution
            &&& r.log_memory ==> log.enabled && r.log_stats
            &&& log.enabled && r.log_stats ==> r.log_memory
        }),
{
    let n = run.iter as int;
    if let Some(every) = log.splats_every {
        if every > 0 {
            multiples(n, every as int, k);
        }
    }
    if log.stats_every > 0 {
        multiples(n, log.stats_every as int, k);
    }
    if log.distribution_every > 0 {
        multiples(n, log.distribution_every as int, k);
    }
}

} // verus!
