# pixels_reference

A verified integer reference for a certified software rasterizer: fixed-point
interval arithmetic, exact root isolation and ordering of depth candidates,
row-event partitioning, coverage areas, the scalar and packet depth
recurrences, tile rendering with digests, display transforms and the
acceptance checks on captured frames. Every function in `src/` is checked
by Verus against its `requires`/`ensures` contract; the public proof
functions state the laws the library keeps across calls.

Layout:

- `src/` — the verified library, one module per concern (`iv32`, `poly`,
  `root`, `order`, `events`, `coverage`, `fixed_q`, `raster`, `binary32`,
  `frame`, `display`, `quality`, ...).
- `tests/` — ordinary Rust tests that exercise the compiled library.
- `app/` — the floating-point companions (shading, slope moments, the
  bisection oracle, float domain selection, the guest reciprocal square
  root), which the verified library does not hold.

The only outside crate is `sha2`, reached through one trusted wrapper
(`frame::sha256`) whose contract names the digest without describing it.
The renderer this reference accompanies hashes frames with the SHA-256 of
its own machine crate (`wrela_machine::sha256`), which is not published;
`sha2` computes the same standard digest in its place.

Not held here, because the code they depend on is not part of this tree:

- `render_frame`, `render_truth_frames`, `integrate_penumbra` and the
  truth-file digest check need the floating-point texture sampler
  (`texture`) and shading;
- `filmic_v1_tone_lut`, `srgb_transfer_lut`, `sealed_tone_lut`,
  `canonical_table` and the linear endpoint encoders need the sealed
  transfer tables (`tables`) and floating point;
- `setup_from_real_envelopes` needs the machine crate's envelope
  derivation; its integer tail is `fixed_q::seal_setup`;
- the conformance scoring, probe and semantic-evaluator entry points need
  the compiled renderer, the `scalar`, `probe`, `program`, `ids` and
  `graph` modules, and threads;
- the ambient-occlusion, area-light, interval and secondary-ray float
  paths need the `scalar` module.
