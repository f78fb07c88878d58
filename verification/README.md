# register_core

Align bitonal scans of Japanese novel pages onto a fixed paper-size canvas,
as a Verus-verified library.

```text
  RawPage --analyze--> AnalyzedPage --plan--> AlignmentPlan --render--> RegisteredPage
```

- `src/` is the library, verified by Verus: ink bounding boxes
  (`analyze`), per-parity median reference layouts (`reference`),
  top-right-anchored byte-aligned translations (`plan`), bit-exact blits and
  the affine render path (`raster`), the PBM P4 codec (`pbm`), page files as
  bytes (`codec`), the packed bit page (`bitplane`) and the decisions of the
  streaming reference coordinator (`coordinator`). Each function carries a
  `requires` / `ensures` contract, and the public `lemma_*` proof functions
  state the laws that relate them.
- `src/foreign.rs` is what is trusted rather than proved: the declarations
  of the outside types the library carries, the contracts assumed for the
  std functions it calls, and the wrappers around the `image` decoders and
  encoders and `imageproc`'s warp, whose bodies Verus does not read.
- `tests/` exercises the library on concrete pages.
- `app/` is the `register` command-line program: argument parsing, directory
  walking, file I/O, worker threads and progress reporting around the
  library.
