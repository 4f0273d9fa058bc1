//! Sample-rate conversion of interleaved audio.
//!
//! A [`Resampler`] changes the sample rate of a signal by a `ratio = output_rate /
//! input_rate`. There are four:
//!
//! - [`NoopResampler`] passes the signal through; the default, and a baseline.
//! - [`LinearResampler`] interpolates linearly: the cheapest, with one frame of delay, and no
//!   filter against aliasing.
//! - [`SincResampler`] interpolates with a windowed sinc whose cutoff follows the ratio, so
//!   that downsampling does not alias.
//! - [`RubatoResampler`] runs a fixed-chunk engine (rubato's asynchronous sinc resampler) for
//!   the sharpest filter, aligned and cut to length so that it can stand in for
//!   [`SincResampler`].
//!
//! All of them are aligned: the first output frame is made at the first input frame.
//!
//! What a resampler does with the signal is floating-point arithmetic, and this library holds
//! none: the program that uses it supplies the single operations as an [`Arithmetic`], and the
//! engine as an [`Engine`]. Everything else is here and proved: formulas, buffering, positions,
//! which operands go into which operation, when a call stops, and how much it reports.

pub mod arithmetic;
pub mod contract_laws;
pub mod double;
pub mod formulas;
pub mod internals;
pub mod kernel_laws;
pub mod length_laws;
pub mod linear;
pub mod resampler;
pub mod rounding;
pub mod rubato_backend;
pub mod rubato_course;
pub mod rubato_laws;
pub mod sample_laws;
pub mod setup_laws;
pub mod sinc;
pub mod stream;
pub mod value_laws;

pub use arithmetic::Arithmetic;
pub use double::Double;
pub use linear::LinearResampler;
pub use resampler::NoopResampler;
pub use resampler::ResampleResult;
pub use resampler::Resampler;
pub use rubato_backend::Engine;
pub use rubato_backend::RubatoResampler;
pub use sinc::SincResampler;
