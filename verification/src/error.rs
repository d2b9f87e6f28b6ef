use vstd::prelude::*;

verus! {

/// Why a set of detections was refused.
#[derive(Debug, Clone, Copy, PartialEq, Eq, Structural)]
pub enum InputError {
    /// The arrays do not describe the same number of detections or rays.
    ShapeMismatch,
    /// The detections have no rays at all.
    NoRays,
    /// A value does not fit the integer type that has to hold it.
    OutOfRange,
}

impl InputError {
    /// The description of each error.
    pub open spec fn spec_message(self) -> Seq<char> {
        match self {
            InputError::ShapeMismatch => "the input arrays disagree on the number of detections or rays"@,
            InputError::NoRays => "the detections have no rays"@,
            InputError::OutOfRange => "a value is outside the representable range"@,
        }
    }

    /// A short description, fit for an error message.
    pub fn message(&self) -> (text: &'static str)
        ensures
            text@ == self.spec_message(),
    {
        match self {
            InputError::ShapeMismatch => "the input arrays disagree on the number of detections or rays",
            InputError::NoRays => "the detections have no rays",
            InputError::OutOfRange => "a value is outside the representable range",
        }
    }
}

} // verus!
