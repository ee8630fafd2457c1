use flightpath::decode::{
    is_valid_entry, to_js_itinerary, to_js_stringpair, to_stringpair_opt, to_stringpairs,
};
use flightpath::{ItineraryError, ShapeProblem, Value};

fn text(s: &str) -> Value {
    Value::Text(s.to_string())
}

fn pair(from: &str, to: &str) -> Value {
    Value::Array(vec![text(from), text(to)])
}

fn owned(from: &str, to: &str) -> (String, String) {
    (from.to_string(), to.to_string())
}

#[test]
fn pair_of_two_strings_is_read() {
    assert_eq!(to_stringpair_opt(&pair("SFO", "EWR")), Some(owned("SFO", "EWR")));
}

#[test]
fn pair_with_empty_string_is_not_read() {
    assert_eq!(to_stringpair_opt(&pair("A", "")), None);
    assert_eq!(to_stringpair_opt(&pair("", "B")), None);
    assert_eq!(to_stringpair_opt(&pair("", "")), None);
}

#[test]
fn element_of_other_shape_is_not_read() {
    assert_eq!(to_stringpair_opt(&text("SFO")), None);
    assert_eq!(to_stringpair_opt(&Value::Other), None);
    assert_eq!(to_stringpair_opt(&Value::Array(vec![])), None);
    assert_eq!(to_stringpair_opt(&Value::Array(vec![text("A")])), None);
    assert_eq!(to_stringpair_opt(&Value::Array(vec![text("A"), text("B"), text("C")])), None);
    assert_eq!(to_stringpair_opt(&Value::Array(vec![text("A"), Value::Other])), None);
    assert_eq!(to_stringpair_opt(&Value::Array(vec![Value::Other, text("B")])), None);
    assert_eq!(to_stringpair_opt(&Value::Array(vec![pair("A", "B"), text("B")])), None);
}

#[test]
fn valid_entry_is_one_that_was_read() {
    assert!(is_valid_entry(&Some(owned("A", "B"))));
    assert!(!is_valid_entry(&None));
}

#[test]
fn list_of_pairs_is_read_in_order() {
    let value = Value::Array(vec![pair("IND", "EWR"), pair("SFO", "ATL"), pair("GSO", "IND")]);
    assert_eq!(
        to_stringpairs(value),
        Ok(vec![owned("IND", "EWR"), owned("SFO", "ATL"), owned("GSO", "IND")])
    );
}

#[test]
fn empty_array_is_refused() {
    assert_eq!(
        to_stringpairs(Value::Array(vec![])),
        Err(ItineraryError::Shape(ShapeProblem::NotAnArray))
    );
}

#[test]
fn value_that_is_no_array_is_refused() {
    assert_eq!(
        to_stringpairs(text("SFO")),
        Err(ItineraryError::Shape(ShapeProblem::NotAnArray))
    );
    assert_eq!(
        to_stringpairs(Value::Other),
        Err(ItineraryError::Shape(ShapeProblem::NotAnArray))
    );
}

#[test]
fn pair_with_empty_string_is_refused() {
    assert_eq!(
        to_stringpairs(Value::Array(vec![pair("A", "")])),
        Err(ItineraryError::Shape(ShapeProblem::InvalidEntries))
    );
}

#[test]
fn one_invalid_entry_refuses_the_whole_list() {
    let bad_first = Value::Array(vec![text("SFO"), pair("SFO", "ATL"), pair("ATL", "EWR")]);
    let bad_middle = Value::Array(vec![pair("SFO", "ATL"), Value::Other, pair("ATL", "EWR")]);
    let bad_last = Value::Array(vec![
        pair("SFO", "ATL"),
        pair("ATL", "EWR"),
        Value::Array(vec![text("EWR")]),
    ]);
    for value in [bad_first, bad_middle, bad_last] {
        assert_eq!(
            to_stringpairs(value),
            Err(ItineraryError::Shape(ShapeProblem::InvalidEntries))
        );
    }
}

#[test]
fn segment_is_written_as_array_of_two_strings() {
    assert_eq!(to_js_stringpair(owned("SFO", "EWR")), pair("SFO", "EWR"));
}

#[test]
fn itinerary_is_written_as_array_of_pairs() {
    assert_eq!(
        to_js_itinerary(vec![owned("SFO", "ATL"), owned("ATL", "EWR")]),
        Value::Array(vec![pair("SFO", "ATL"), pair("ATL", "EWR")])
    );
    assert_eq!(to_js_itinerary(vec![]), Value::Array(vec![]));
}

#[test]
fn written_itinerary_reads_back() {
    let pairs = vec![owned("SFO", "ATL"), owned("ATL", "EWR")];
    assert_eq!(to_stringpairs(to_js_itinerary(pairs.clone())), Ok(pairs));
}

#[test]
fn clone_copies_the_whole_value() {
    let value = Value::Array(vec![pair("SFO", "ATL"), text("x"), Value::Other]);
    let copy = value.clone();
    assert_eq!(copy, value);
}

#[test]
fn each_error_has_its_message() {
    assert_eq!(
        ItineraryError::Shape(ShapeProblem::NotAnArray).message(),
        "value is not an array"
    );
    assert_eq!(
        ItineraryError::Shape(ShapeProblem::InvalidEntries).message(),
        "some invalid entries"
    );
    assert_eq!(ItineraryError::NoUniqueStart.message(), "No first location, possible cycle");
    assert_eq!(ItineraryError::ChainBroken.message(), "No first location, possible cycle");
}
