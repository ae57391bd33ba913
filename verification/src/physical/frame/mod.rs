//! Nodes on frame signals.
pub mod display;
pub mod filter_laws;
pub mod gain;
pub mod gap_laws;
pub mod laws;
pub mod low_pass_filter;
pub mod mix;
pub mod node;
pub mod plan;
pub mod signal_laws;
pub mod sine;
pub mod square;

pub use gain::FrameGainExec;
pub use low_pass_filter::FrameLowPassFilterExec;
pub use mix::FrameMixExec;
pub use plan::{FramePlan, Plan};
pub use sine::FrameSineOscExec;
pub use square::FrameSquareOscExec;
