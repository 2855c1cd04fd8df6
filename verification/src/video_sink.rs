//! The boundary between the renderer and whatever encodes its frames.
use vstd::prelude::*;

verus! {

/// Error returned by [`VideoFrameSink`] implementations: the description of
/// whatever went wrong on the encoder's side.
#[derive(Debug, PartialEq, Eq)]
pub struct VideoSinkError {
    pub message: String,
}

/// Consumer of rendered RGBA video frames.
///
/// The renderer hands each rendered frame to a sink without knowing how it is
/// encoded, muxed or written; that belongs to whatever embeds the renderer.
pub trait VideoFrameSink {
    /// Called once per rendered frame with exactly `width * height * 4`
    /// tightly packed RGBA8 bytes (row-major, no row padding). Validating the
    /// size is the sink's responsibility.
    fn write_rgba_frame(&mut self, rgba: &[u8]) -> Result<(), VideoSinkError>;

    /// Called exactly once after the last frame has been written (including
    /// any repeated still-ending frames), to flush and close the output.
    fn finish(&mut self) -> Result<(), VideoSinkError>;
}

} // verus!
