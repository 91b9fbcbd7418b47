//! The ways in which reading a temperature can fail.

use vstd::prelude::*;

verus! {

/// Possible errors from the conversion.
#[derive(Debug, Clone, Copy, PartialEq, Eq, Structural)]
pub enum FcError {
    /// The last character is neither a unit letter nor a digit.
    UnitNotRecognized,
    /// The text in front of the unit is not a decimal number.
    ValueNotANumber,
    /// The command line does not have exactly one argument.
    WrongSyntax,
}

impl FcError {
    /// The message shown to the user for each kind of error.
    pub open spec fn message(self) -> Seq<char> {
        match self {
            FcError::UnitNotRecognized => "Unit not recognized!"@,
            FcError::ValueNotANumber => "Value not a number!"@,
            FcError::WrongSyntax => "Wrong syntax!"@,
        }
    }

    /// Returns the fixed user-facing message of this error.
    pub fn to_str(&self) -> (text: &'static str)
        ensures
            text@ == self.message(),
    {
        match self {
            FcError::UnitNotRecognized => "Unit not recognized!",
            FcError::ValueNotANumber => "Value not a number!",
            FcError::WrongSyntax => "Wrong syntax!",
        }
    }
}

} // verus!
