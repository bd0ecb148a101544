use vstd::prelude::*;

pub mod bits;
pub mod line;
pub mod grid;
pub mod buffers;

verus! {

/// Whether a flock avoids or approaches a target point.
#[derive(Clone, Copy, Debug, PartialEq, Eq, Structural)]
pub enum TargetType {
    Avoid,
    Approach,
}

} // verus!
