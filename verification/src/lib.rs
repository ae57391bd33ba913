//! A sound engine whose signals are tables of frames.
//!
//! A render is a graph of nodes on frame signals: oscillators, gains, filters and
//! mixers. This crate holds what the nodes, the graph language, the decoder and the
//! writers decide, with what each of them guarantees. It neither reads nor writes
//! anything, and it computes on the bits of floating-point numbers: a sine, an
//! exponential and the streams between nodes are left to the program around it.
pub mod arrow;
pub mod config;
pub mod config_laws;
pub mod dsl;
pub mod dsp;
pub mod error;
pub mod ieee;
pub mod layout;
pub mod output;
pub mod physical;
pub mod preview;
pub mod preview_laws;
pub mod render;
pub mod render_laws;
pub mod text;
pub mod wave_laws;

pub use config::{RenderConfig, RenderConfigBuilder};
pub use error::{Error, Result};
pub use layout::frame_schema;
pub use output::wav::StreamingWavStats;
pub use render::{decode_from_frames, FrameDecoder};
