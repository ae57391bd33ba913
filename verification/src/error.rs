//! What can go wrong, and how it reads.
use vstd::prelude::*;

verus! {

/// Why a configuration, a render or an output was refused.
#[derive(Debug)]
pub enum Error {
    /// The configuration breaks a rule.
    InvalidConfig(String),
    /// The rendered frames or samples break a rule.
    InvalidRender(String),
    /// The stream of rendered batches failed.
    RenderStream(String),
    /// A WAV file could not be written.
    WavError {
        /// What was attempted.
        action: String,
        /// The destination.
        path: String,
        /// What the writer reported.
        source: String,
    },
    /// A waveform image could not be written.
    WaveformError {
        /// The destination.
        path: String,
        /// What the file system reported.
        source: String,
    },
}

/// A result of the engine.
pub type Result<T> = std::result::Result<T, Error>;

impl Error {
    /// The text of the error.
    pub open spec fn message(self) -> Seq<char> {
        match self {
            Error::InvalidConfig(reason) => "invalid configuration: "@ + reason@,
            Error::InvalidRender(reason) => "invalid render: "@ + reason@,
            Error::RenderStream(source) => "render stream failed: "@ + source@,
            Error::WavError { action, path, source } => "failed to "@ + action@ + " WAV at "@
                + path@ + ": "@ + source@,
            Error::WaveformError { path, source } => "failed to write waveform SVG at "@ + path@
                + ": "@ + source@,
        }
    }

    /// The error in one line.
    pub fn to_string(&self) -> (text: String)
        ensures
            text@ == self.message(),
    {
        match self {
            Error::InvalidConfig(reason) => {
                "invalid configuration: ".to_owned().concat(reason.as_str())
            },
            Error::InvalidRender(reason) => "invalid render: ".to_owned().concat(reason.as_str()),
            Error::RenderStream(source) => {
                "render stream failed: ".to_owned().concat(source.as_str())
            },
            Error::WavError { action, path, source } => {
                "failed to ".to_owned().concat(action.as_str()).concat(" WAV at ").concat(
                    path.as_str(),
                ).concat(": ").concat(source.as_str())
            },
            Error::WaveformError { path, source } => {
                "failed to write waveform SVG at ".to_owned().concat(path.as_str()).concat(
                    ": ",
                ).concat(source.as_str())
            },
        }
    }
}

/// Whether an error says that a render is invalid for this reason.
pub open spec fn invalid_render(error: Error, reason: Seq<char>) -> bool {
    error matches Error::InvalidRender(text) && text@ == reason
}

} // verus!
