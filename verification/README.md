# fpvflow_core

External audio and color processing for stabilized flight footage, verified with
Verus.

- `src/audio`: a recorded track is imported, aligned to the gyroscope, drawn, and
  cut into the buffer that is embedded on export.
- `src/color`: `.cube` conversion tables and the adjustments applied after them.
- `src/rendering`, `src/timeline.rs`: how the track goes to its encoder and to the
  timeline.
- `src/ieee`: IEEE 754 arithmetic on bit patterns. Every value the library works on
  is a bit pattern (`Single`, `Double`), so each result is stated and proved bit for
  bit; the tests hold it against the hardware.
- `app`: files, decoder, encoder, Fourier transform and toolkit around the library.
  Cosines, powers, logarithms and hypotenuses are native floats and are taken there.

The laws that span several functions stand in the `laws.rs` files, in `scale.rs`,
`bounded.rs` and `agreement.rs` under `src/color`, and in `identity.rs`, `domain.rs`, `interpolation.rs`,
`resampling.rs` and `refinement.rs` under `src/color/lut`.
