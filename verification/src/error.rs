//! The ways in which a stage of the pipeline can refuse its input.

use vstd::prelude::*;

verus! {

/// Why a stage refused its input. No stage returns partial results: it
/// either succeeds completely or reports one of these.
#[derive(Clone, Copy, Debug, PartialEq, Eq, Structural)]
pub enum PipelineError {
    /// A matrix has the wrong shape for the operation.
    Shape,
    /// A configuration value is not usable, such as a tempo of zero.
    Config,
    /// A denominator is zero, as for the deviation of fewer than two cells.
    ArithmeticDegeneracy,
    /// A tick or a delta time does not fit the MIDI container.
    TimeRange,
    /// The container writer refused the track.
    Encoding,
}

impl PipelineError {
    /// The description of the error.
    pub open spec fn description(self) -> Seq<char> {
        match self {
            PipelineError::Shape => "matrix has the wrong shape"@,
            PipelineError::Config => "invalid configuration"@,
            PipelineError::ArithmeticDegeneracy => "division by a zero denominator"@,
            PipelineError::TimeRange => "time does not fit the MIDI container"@,
            PipelineError::Encoding => "the MIDI writer refused the track"@,
        }
    }

    /// A short description of the error.
    pub fn message(&self) -> (text: &'static str)
        ensures
            text@ == self.description(),
    {
        match self {
            PipelineError::Shape => "matrix has the wrong shape",
            PipelineError::Config => "invalid configuration",
            PipelineError::ArithmeticDegeneracy => "division by a zero denominator",
            PipelineError::TimeRange => "time does not fit the MIDI container",
            PipelineError::Encoding => "the MIDI writer refused the track",
        }
    }
}

} // verus!
