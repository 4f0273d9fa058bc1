# samplerack

Sample-rate conversion of interleaved audio, verified with Verus.

A resampler changes the sample rate of a signal by a `ratio = output_rate / input_rate`:

- `NoopResampler` passes the signal through.
- `LinearResampler` interpolates linearly: cheapest, one frame of delay, no filter against
  aliasing.
- `SincResampler` interpolates with a windowed sinc whose cutoff follows the ratio, so that
  downsampling does not alias.
- `RubatoResampler` drives rubato's asynchronous sinc resampler, aligned to input frame 0 and
  cut to the length that the input is worth, so that it can stand in for `SincResampler`.

## Layout

- `src/` is the verified library. It holds no floating-point arithmetic: the single operations
  come in through the `Arithmetic` trait, rubato through the `Engine` trait. Neither trait
  promises anything, so what is proved holds of every implementation. Ratios and positions are
  binary64 bit patterns (`Double`), whose floor, rounding, bounds and comparisons are computed
  and proved exactly; `formulas` says which operations make up each formula.
- `app/` supplies `f32`/`f64` arithmetic and the rubato engine, and wraps the resamplers in an
  interface of plain floats.
- `tests/` runs all of it, rubato included.

## What is proved

The contracts say for every call which frames are written, at which positions, by which
operation on which input frames, and what state is left. On top of them stand laws, the
functions named `law_*`, each with its conditions:

- Linear and sinc: a stream depends on its input and not on how input and output are cut, where
  positions never move back (and, for sinc, the table stays); a flush with room to spare has
  drained the stream; every channel is converted as if it were alone. Where every operation has
  one result, two courses of a stream write the same, sample for sample. At a ratio of one,
  linear interpolation gives the input back, where the arithmetic counts frames exactly and
  `a + (b - a) * 0` is `a`.
- Reset: a linear resampler is as a new one with its ratio; a sinc one, where its table is that
  of its ratio; a rubato one, where restarting an engine that then runs at the ratio makes it as
  good as new: every `process` and `flush` behind the reset is one that a new resampler allows.
- Rubato, with an engine that keeps its word on the calls that are made of it: exactly the
  warm-up is dropped, no input is lost, and a whole stream writes exactly as many frames as its
  input is worth, however it is cut and however often it was flushed before its first frame.
- Length: linear and sinc streams are as long as each other, and as long as the input is worth
  (and as a rubato stream) to within the frames by which the positions, each added to the last,
  disagree with `ceil(ratio * frames)`.
