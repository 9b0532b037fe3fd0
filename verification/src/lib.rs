//! Where somebody is speaking: the decisions of a voice activity detector
//! built on Silero VAD.
//!
//! Samples are cut into the chunks the model takes (`chunker`), the model is
//! asked about each of them (`graph`), and its probabilities are turned into
//! spans of speech (`spans`), which are groups of chunks (`groups`).
//! `session` puts these together for one stream, `calls` runs it call by call,
//! and `streams` says what holds of all the calls together. `params` settles
//! what the host sets, and `module` says what the host is told and which
//! streams are taken.
//!
//! Seconds and probabilities are IEEE 754 double-precision numbers, held as
//! their bits and computed with integers (`binary64`), so that what every
//! result is, down to the last bit, is part of what is proved. Each is the
//! closest number there is to the exact result (`closest`).

pub mod binary32;
pub mod binary64;
pub mod calls;
pub mod chunker;
pub mod clock;
pub mod closest;
pub mod exact;
pub mod graph;
pub mod groups;
pub mod module;
pub mod params;
pub mod rounding;
pub mod scaled;
pub mod session;
pub mod spans;
pub mod streams;
pub mod text;

pub use binary32::Binary32;
pub use binary64::Binary64;
pub use chunker::{Chunk, Chunker};
pub use clock::{chunk_seconds, seconds, CHUNK, SAMPLE_RATE};
pub use spans::{Span, Spans};
