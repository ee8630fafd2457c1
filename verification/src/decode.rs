//! Between loosely typed values and lists of segments.

use crate::error::{ItineraryError, ShapeProblem};
use crate::segment::Segment;
use crate::value::{Value, ValueView};
use vstd::prelude::*;

verus! {

/// The segment that a value denotes: an array of exactly two strings, neither of them empty,
/// denotes the flight from the first to the second. No other value denotes a segment.
pub open spec fn pair_of(value: ValueView) -> Option<Segment> {
    match value {
        ValueView::Array(items) => if items.len() == 2 {
            match (items[0], items[1]) {
                (ValueView::Text(from), ValueView::Text(to)) => if from.len() > 0 && to.len() > 0 {
                    Some((from, to))
                } else {
                    None
                },
                _ => None,
            }
        } else {
            None
        },
        _ => None,
    }
}

/// The list of segments that a value denotes: a non-empty array whose elements all denote
/// segments denotes those segments, in the order of the array.
pub open spec fn decoded(value: ValueView) -> Result<Seq<Segment>, ItineraryError> {
    match value {
        ValueView::Array(items) => if items.len() == 0 {
            Err(ItineraryError::Shape(ShapeProblem::NotAnArray))
        } else if forall|i: int| 0 <= i < items.len() ==> (#[trigger] pair_of(items[i])) is Some {
            Ok(items.map_values(|item: ValueView| pair_of(item)->Some_0))
        } else {
            Err(ItineraryError::Shape(ShapeProblem::InvalidEntries))
        },
        _ => Err(ItineraryError::Shape(ShapeProblem::NotAnArray)),
    }
}

/// The value that stands for one segment: the array of its two places.
pub open spec fn encoded_pair(segment: Segment) -> ValueView {
    ValueView::Array(seq![ValueView::Text(segment.0), ValueView::Text(segment.1)])
}

/// The value that stands for a list of segments: the array of its segments' values.
pub open spec fn encoded(segments: Seq<Segment>) -> ValueView {
    ValueView::Array(segments.map_values(|segment: Segment| encoded_pair(segment)))
}

/// Reads one element of the input as a segment.
pub fn to_stringpair_opt(value: &Value) -> (pair: Option<(String, String)>)
    ensures
        pair.deep_view() == pair_of(value@),
{
    match value {
        Value::Array(items) => {
            if items.len() == 2 {
                proof {
                    let views = value@->Array_0;
                    assert(views.len() == 2);
                    assert(views[0] == items@[0]@);
                    assert(views[1] == items@[1]@);
                }
                match (&items[0], &items[1]) {
                    (Value::Text(s0), Value::Text(s1)) => {
                        if !s0.as_str().is_empty() && !s1.as_str().is_empty() {
                            Some((s0.clone(), s1.clone()))
                        } else {
                            None
                        }
                    },
                    _ => None,
                }
            } else {
                None
            }
        },
        _ => None,
    }
}

/// Whether reading an element gave a segment.
pub fn is_valid_entry(entry: &Option<(String, String)>) -> (valid: bool)
    ensures
        valid == entry is Some,
{
    entry.is_some()
}

/// Whether every element gave a segment.
///
/// Calls `itertools::all` on the entries, with [`is_valid_entry`] as the predicate. The
/// contract is taken on trust: that function hands the entries to `Iterator::all`, so the
/// result is `true` exactly when the predicate holds of every entry, and `true` for no
/// entries.
#[verifier::external_body]
fn all_valid(entries: &Vec<Option<(String, String)>>) -> (valid: bool)
    ensures
        valid == forall|i: int| 0 <= i < entries@.len() ==> (#[trigger] entries@[i]) is Some,
{
    itertools::all(entries, |entry| is_valid_entry(entry))
}

/// Reads the input as a list of segments, all or nothing.
pub fn to_stringpairs(value: Value) -> (pairs: Result<Vec<(String, String)>, ItineraryError>)
    ensures
        match decoded(value@) {
            Ok(segments) => pairs is Ok && pairs->Ok_0.deep_view() == segments,
            Err(error) => pairs == Err::<Vec<(String, String)>, ItineraryError>(error),
        },
{
    match value {
        Value::Array(items) => {
            if items.len() == 0 {
                return Err(ItineraryError::Shape(ShapeProblem::NotAnArray));
            }
            let ghost views = value@->Array_0;
            let mut opt_pairs: Vec<Option<(String, String)>> = Vec::new();
            let mut i: usize = 0;
            while i < items.len()
                invariant
                    i <= items.len(),
                    views.len() == items.len(),
                    forall|k: int| 0 <= k < items.len() ==> views[k] == (#[trigger] items@[k])@,
                    opt_pairs.len() == i,
                    forall|k: int|
                        0 <= k < i ==> (#[trigger] opt_pairs@[k]).deep_view() == pair_of(views[k]),
                decreases items.len() - i,
            {
                opt_pairs.push(to_stringpair_opt(&items[i]));
                i = i + 1;
            }
            if all_valid(&opt_pairs) {
                let mut pairs: Vec<(String, String)> = Vec::new();
                let mut j: usize = 0;
                while j < opt_pairs.len()
                    invariant
                        j <= opt_pairs.len(),
                        opt_pairs.len() == views.len(),
                        forall|k: int|
                            0 <= k < opt_pairs.len() ==> (#[trigger] opt_pairs@[k]).deep_view()
                                == pair_of(views[k]),
                        forall|k: int|
                            0 <= k < opt_pairs.len() ==> (#[trigger] opt_pairs@[k]) is Some,
                        pairs.len() == j,
                        forall|k: int|
                            0 <= k < j ==> Some((#[trigger] pairs@[k]).deep_view()) == pair_of(
                                views[k],
                            ),
                    decreases opt_pairs.len() - j,
                {
                    match &opt_pairs[j] {
                        Some(pair) => {
                            pairs.push((pair.0.clone(), pair.1.clone()));
                        },
                        None => {
                            assert(false);
                        },
                    }
                    j = j + 1;
                }
                proof {
                    assert forall|k: int| 0 <= k < views.len() implies (#[trigger] pair_of(
                        views[k],
                    )) is Some by {
                        assert(opt_pairs@[k] is Some);
                    }
                    let segments = decoded(value@)->Ok_0;
                    assert(pairs.deep_view().len() == segments.len());
                    assert forall|k: int| 0 <= k < segments.len() implies pairs.deep_view()[k]
                        == segments[k] by {
                        assert(Some(pairs@[k].deep_view()) == pair_of(views[k]));
                    }
                    assert(pairs.deep_view() =~= segments);
                }
                Ok(pairs)
            } else {
                proof {
                    let k = choose|k: int| 0 <= k < opt_pairs@.len() && !(opt_pairs@[k] is Some);
                    assert(opt_pairs@[k].deep_view() == pair_of(views[k]));
                    assert(!(pair_of(views[k]) is Some));
                }
                Err(ItineraryError::Shape(ShapeProblem::InvalidEntries))
            }
        },
        _ => Err(ItineraryError::Shape(ShapeProblem::NotAnArray)),
    }
}

/// Writes one segment as a value.
pub fn to_js_stringpair(stringpair: (String, String)) -> (value: Value)
    ensures
        value@ == encoded_pair(stringpair.deep_view()),
{
    let (s0, s1) = stringpair;
    let mut items: Vec<Value> = Vec::new();
    items.push(Value::Text(s0));
    items.push(Value::Text(s1));
    let value = Value::Array(items);
    proof {
        let views = value@->Array_0;
        assert(views[0] == items@[0]@);
        assert(views[1] == items@[1]@);
        assert(views =~= seq![ValueView::Text(s0@), ValueView::Text(s1@)]);
    }
    value
}

/// Writes a list of segments as a value.
pub fn to_js_itinerary(vec: Vec<(String, String)>) -> (value: Value)
    ensures
        value@ == encoded(vec.deep_view()),
{
    let mut items: Vec<Value> = Vec::new();
    let mut i: usize = 0;
    while i < vec.len()
        invariant
            i <= vec.len(),
            items.len() == i,
            forall|k: int|
                0 <= k < i ==> (#[trigger] items@[k])@ == encoded_pair(vec@[k].deep_view()),
        decreases vec.len() - i,
    {
        items.push(to_js_stringpair((vec[i].0.clone(), vec[i].1.clone())));
        i = i + 1;
    }
    let value = Value::Array(items);
    proof {
        let views = value@->Array_0;
        let expected = encoded(vec.deep_view())->Array_0;
        assert(views.len() == expected.len());
        assert forall|k: int| 0 <= k < views.len() implies views[k] == expected[k] by {
            assert(views[k] == items@[k]@);
        }
        assert(views =~= expected);
    }
    value
}

} // verus!
