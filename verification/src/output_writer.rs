use vstd::prelude::*;

verus! {

/// Marker for the component that renders snapshots to the output stream.
/// The rendering itself is input/output and belongs to the surrounding
/// program.
pub struct OutputWriter {}

impl OutputWriter {
    pub fn new() -> (r: OutputWriter) {
        OutputWriter {}
    }
}

} // verus!
