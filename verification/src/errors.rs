use vstd::prelude::*;

verus! {

/// Every failure the library can report. All of them are fatal for a run:
/// nothing in the pipeline retries or recovers.
#[derive(Clone, Copy, Debug, PartialEq, Eq, Structural)]
pub enum MazeError {
    /// The maze definition is structurally bad: no rows, an empty row,
    /// ragged rows, or a grid larger than the library supports.
    MalformedInput,
    /// A start or end point, or a looked-up position, lies outside the grid.
    OutOfBounds,
    /// A greedy lookup found no stored entry for a legal action, or a state
    /// with no legal action at all (a degenerate grid).
    MissingEntry,
    /// A grid cell holds a code other than free, start marker, or goal.
    InvalidCellCode,
    /// A greedy rollout used up its step budget without reaching the goal.
    NoConvergence,
}

} // verus!
