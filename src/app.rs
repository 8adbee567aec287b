//! Errors reported by a simulation run.

use vstd::prelude::*;
use vstd::string::*;

verus! {

/// The failures that a simulation run reports to its caller.
#[derive(Debug)]
pub enum AppError {
    /// The output could not be written.
    Save(String),
    /// A probability distribution could not be built from the parameters.
    Simulation(String),
    /// A parameter breaks one of its constraints.
    InvalidArgument(String),
}

pub type AppResult<T> = Result<T, AppError>;

/// The text that describes an error.
pub open spec fn message_of(e: AppError) -> Seq<char> {
    match e {
        AppError::Save(why) => "Error when saving: "@ + why@,
        AppError::Simulation(why) => "Error during simulation: "@ + why@,
        AppError::InvalidArgument(why) => "Wrong argument: "@ + why@,
    }
}

impl AppError {
    /// The text that describes the error: what failed, then why.
    pub fn message(&self) -> (r: String)
        ensures
            r@ == message_of(*self),
    {
        match self {
            AppError::Save(why) => String::from_str("Error when saving: ").concat(why.as_str()),
            AppError::Simulation(why) => String::from_str("Error during simulation: ").concat(
                why.as_str(),
            ),
            AppError::InvalidArgument(why) => String::from_str("Wrong argument: ").concat(
                why.as_str(),
            ),
        }
    }
}

} // verus!
