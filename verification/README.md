# brush_mesh

Meshes from Gaussian splats: the parts of the pipeline that decide, index and
arrange things, written in Rust and proved with Verus.

- `src/` is the library. Every function states what it returns or changes, and the
  statements are proved. Numbers with a floating point appear as their bit patterns
  (`float::F32`); where a step needs to compute with them, it takes a closure and
  says what it does with the answers.
- `app/` is the application around it: arithmetic on floating-point numbers, cameras,
  files, images, the graphics card and the command line.
- `tests/` runs the library, with the outside crates linked.

| module | what it holds |
| --- | --- |
| `tetra_points`, `delaunay`, `marching_tet`, `refine`, `carve` | from splats to a raw surface |
| `filter`, `smooth`, `simplify`, `extract` | clean-up of the surface |
| `texture`, `bake` | charts, packing, texels and the views they are baked from |
| `integrate`, `buckets`, `render` | per-tile work lists, opacity and gradients |
| `gltf`, `json`, `bytes` | binary glTF files |
| `dataset`, `process`, `eval` | datasets, the schedule of a run, evaluation |
| `float`, `bounds`, `mesh`, `seqs`, `sort`, `text` | shared ground |

What is trusted rather than proved is marked `#[verifier::external_body]`, with a
comment that names the outside function and what is claimed of it.
