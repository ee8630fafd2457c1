//! The ways in which an itinerary can be refused.

use vstd::prelude::*;
use vstd::string::StringExecFns;

verus! {

/// What is wrong with the shape of an input value.
#[derive(Clone, Copy, Debug, PartialEq, Eq, Structural)]
pub enum ShapeProblem {
    /// The value is no array, or an array without elements.
    NotAnArray,
    /// The value is a non-empty array, but some element of it is not a pair of non-empty
    /// strings.
    InvalidEntries,
}

/// Why no itinerary was produced.
#[derive(Clone, Copy, Debug, PartialEq, Eq, Structural)]
pub enum ItineraryError {
    /// The input value does not have the shape of a list of segments.
    Shape(ShapeProblem),
    /// Every origin is also a destination, so there is no place to start from.
    NoUniqueStart,
    /// The walk reached a place that no remaining segment leaves from.
    ChainBroken,
}

impl ItineraryError {
    /// The diagnostic text of this error.
    pub open spec fn message_text(self) -> Seq<char> {
        match self {
            ItineraryError::Shape(ShapeProblem::NotAnArray) => "value is not an array"@,
            ItineraryError::Shape(ShapeProblem::InvalidEntries) => "some invalid entries"@,
            ItineraryError::NoUniqueStart => "No first location, possible cycle"@,
            ItineraryError::ChainBroken => "No first location, possible cycle"@,
        }
    }

    /// Returns the diagnostic text of this error.
    pub fn message(&self) -> (text: String)
        ensures
            text@ == self.message_text(),
    {
        match self {
            ItineraryError::Shape(ShapeProblem::NotAnArray) => String::from_str(
                "value is not an array",
            ),
            ItineraryError::Shape(ShapeProblem::InvalidEntries) => String::from_str(
                "some invalid entries",
            ),
            ItineraryError::NoUniqueStart => String::from_str("No first location, possible cycle"),
            ItineraryError::ChainBroken => String::from_str("No first location, possible cycle"),
        }
    }
}

} // verus!
