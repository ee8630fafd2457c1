//! The mathematical model of places and flight segments.

use vstd::prelude::*;

verus! {

/// The name of a place.
pub type Place = Seq<char>;

/// One flight: where it leaves from and where it arrives.
pub type Segment = (Seq<char>, Seq<char>);

} // verus!
