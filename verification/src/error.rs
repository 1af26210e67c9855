//! Error types of the state-space builder and of the model container.

use vstd::prelude::*;

verus! {

use vstd::string::StringExecFns;

/// Errors raised while configuring or building the discrete state-space model.
#[derive(Debug, Clone)]
pub enum StateSpaceError {
    /// A required configuration argument is missing; the payload names it.
    MissingArguments(String),
    /// The sampling frequency was not set.
    SamplingFrequency,
    /// A modal transformation matrix could not be assembled; the payload says why.
    Matrix(String),
}

impl StateSpaceError {
    /// A human-readable description of the error.
    pub fn message(&self) -> (r: String)
        ensures
            match self {
                StateSpaceError::MissingArguments(v) => r@ == "argument "@ + v@ + " is missing"@,
                StateSpaceError::SamplingFrequency => r@ == "sampling frequency not set"@,
                StateSpaceError::Matrix(msg) => r@ == msg@,
            },
    {
        match self {
            StateSpaceError::MissingArguments(v) => {
                let mut s = String::from_str("argument ");
                s.append(v.as_str());
                s.append(" is missing");
                s
            },
            StateSpaceError::SamplingFrequency => String::from_str("sampling frequency not set"),
            StateSpaceError::Matrix(msg) => msg.clone(),
        }
    }
}

/// Errors raised by the model container itself.
#[derive(Debug, Clone)]
pub enum FemError {
    /// A group name could not be matched against the model; the payload holds it.
    Convert(String),
    /// The model carries no static gain matrix.
    StaticGain,
}

impl FemError {
    /// A human-readable description of the error.
    pub fn message(&self) -> (r: String)
        ensures
            match self {
                FemError::Convert(v) => r@ == "failed to convert "@ + v@,
                FemError::StaticGain => r@ == "static gain not found"@,
            },
    {
        match self {
            FemError::Convert(v) => {
                let mut s = String::from_str("failed to convert ");
                s.append(v.as_str());
                s
            },
            FemError::StaticGain => String::from_str("static gain not found"),
        }
    }
}

} // verus!
