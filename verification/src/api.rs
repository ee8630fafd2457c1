//! Sorting an itinerary, and its termini, on loosely typed values.

use crate::decode::{decoded, encoded, to_js_itinerary, to_stringpairs};
use crate::error::ItineraryError;
use crate::route::{itinerary_of, itinerary_sort, lemma_itinerary_nonempty};
use crate::segment::Segment;
use crate::value::{Value, ValueView};
use vstd::prelude::*;

verus! {

/// The start and the end of a journey, as an itinerary of one segment.
pub open spec fn termini(path: Seq<Segment>) -> Seq<Segment> {
    seq![(path.first().0, path.last().1)]
}

/// The segments of a value in travel order, as a value: the value is decoded, its segments
/// are put in order, and the itinerary is encoded. An error of either step is the result.
pub open spec fn sorted_value(value: ValueView) -> Result<ValueView, ItineraryError> {
    match decoded(value) {
        Ok(segments) => match itinerary_of(segments) {
            Ok(path) => Ok(encoded(path)),
            Err(error) => Err(error),
        },
        Err(error) => Err(error),
    }
}

/// The termini of the journey that a value holds, as a value of one segment.
pub open spec fn termini_value(value: ValueView) -> Result<ValueView, ItineraryError> {
    match decoded(value) {
        Ok(segments) => match itinerary_of(segments) {
            Ok(path) => Ok(encoded(termini(path))),
            Err(error) => Err(error),
        },
        Err(error) => Err(error),
    }
}

/// Puts the segments that `value` holds in travel order.
pub fn js_itinerary_sort(value: Value) -> (sorted: Result<Value, ItineraryError>)
    ensures
        match sorted_value(value@) {
            Ok(expected) => sorted is Ok && sorted->Ok_0@ == expected,
            Err(error) => sorted == Err::<Value, ItineraryError>(error),
        },
{
    let pairs = match to_stringpairs(value) {
        Ok(pairs) => pairs,
        Err(error) => {
            return Err(error);
        },
    };
    let sorted = match itinerary_sort(pairs) {
        Ok(sorted) => sorted,
        Err(error) => {
            return Err(error);
        },
    };
    Ok(to_js_itinerary(sorted))
}

/// Gives the first origin and the last destination of the journey that `value` holds.
pub fn js_itinerary_termini(value: Value) -> (ends: Result<Value, ItineraryError>)
    ensures
        match termini_value(value@) {
            Ok(expected) => ends is Ok && ends->Ok_0@ == expected,
            Err(error) => ends == Err::<Value, ItineraryError>(error),
        },
{
    let pairs = match to_stringpairs(value) {
        Ok(pairs) => pairs,
        Err(error) => {
            return Err(error);
        },
    };
    let ghost segments = pairs.deep_view();
    let sorted = match itinerary_sort(pairs) {
        Ok(sorted) => sorted,
        Err(error) => {
            return Err(error);
        },
    };
    proof {
        lemma_itinerary_nonempty(segments);
    }
    let mut ends: Vec<(String, String)> = Vec::new();
    ends.push((sorted[0].0.clone(), sorted[sorted.len() - 1].1.clone()));
    assert(ends.deep_view() =~= termini(sorted.deep_view()));
    Ok(to_js_itinerary(ends))
}

} // verus!
