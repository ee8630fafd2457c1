use flightpath::{js_itinerary_sort, Value};

fn lift(json: &serde_json::Value) -> Value {
    match json {
        serde_json::Value::String(text) => Value::Text(text.clone()),
        serde_json::Value::Array(items) => Value::Array(items.iter().map(lift).collect()),
        _ => Value::Other,
    }
}

fn parse(text: &str) -> Value {
    let json: serde_json::Value = serde_json::from_str(text).unwrap();
    lift(&json)
}

#[test]
fn test_single_flight() {
    let data0 = r#"
    [["SFO", "EWR"]]
    "#;
    let v0 = parse(data0);
    let v0s = js_itinerary_sort(parse(data0)).unwrap();
    assert_eq!(v0, v0s);
}

#[test]
fn test_double_flight() {
    let data1 = r#"
    [["ATL", "EWR"], ["SFO", "ATL"]] 
    "#;
    let v1s = js_itinerary_sort(parse(data1)).unwrap();
    let data1s = r#"
    [["SFO", "ATL"], ["ATL", "EWR"]] 
    "#;
    assert_eq!(v1s, parse(data1s));
}

#[test]
fn test_triple_flight() {
    let data2 = r#"
    [["IND", "EWR"], ["SFO", "ATL"], ["GSO", "IND"], ["ATL", "GSO"]]
        "#;
    let v2s = js_itinerary_sort(parse(data2)).unwrap();
    let data2s = r#"
        [["SFO", "ATL"], ["ATL", "GSO"], ["GSO", "IND"], ["IND", "EWR"]]
        "#;
    assert_eq!(v2s, parse(data2s));
}

#[test]
fn test_flight_cycle() {
    let data = r#"
    [["IND", "EWR"], ["SFO", "ATL"], ["GSO", "IND"], ["ATL", "GSO"], ["EWR", "SFO"]]
        "#;
    let vs = js_itinerary_sort(parse(data));
    assert!(vs.is_err());
}

#[test]
fn triple_flight_termini() {
    let data = r#"[["IND", "EWR"], ["SFO", "ATL"], ["GSO", "IND"], ["ATL", "GSO"]]"#;
    let ends = flightpath::js_itinerary_termini(parse(data)).unwrap();
    assert_eq!(ends, parse(r#"[["SFO", "EWR"]]"#));
}

#[test]
fn single_flight_termini() {
    let ends = flightpath::js_itinerary_termini(parse(r#"[["SFO", "EWR"]]"#)).unwrap();
    assert_eq!(ends, parse(r#"[["SFO", "EWR"]]"#));
}

#[test]
fn flight_cycle_has_no_start() {
    let data = r#"
    [["IND", "EWR"], ["SFO", "ATL"], ["GSO", "IND"], ["ATL", "GSO"], ["EWR", "SFO"]]
        "#;
    assert_eq!(js_itinerary_sort(parse(data)), Err(flightpath::ItineraryError::NoUniqueStart));
    assert_eq!(
        flightpath::js_itinerary_termini(parse(data)),
        Err(flightpath::ItineraryError::NoUniqueStart)
    );
}

#[test]
fn empty_array_is_a_shape_error() {
    let expected = Err(flightpath::ItineraryError::Shape(flightpath::ShapeProblem::NotAnArray));
    assert_eq!(js_itinerary_sort(parse("[]")), expected);
    assert_eq!(flightpath::js_itinerary_termini(parse("[]")), expected);
}

#[test]
fn empty_place_is_a_shape_error() {
    let expected =
        Err(flightpath::ItineraryError::Shape(flightpath::ShapeProblem::InvalidEntries));
    assert_eq!(js_itinerary_sort(parse(r#"[["A", ""]]"#)), expected);
    assert_eq!(flightpath::js_itinerary_termini(parse(r#"[["A", ""]]"#)), expected);
}

#[test]
fn values_of_other_shapes_are_shape_errors() {
    let not_an_array = Err(flightpath::ItineraryError::Shape(flightpath::ShapeProblem::NotAnArray));
    let invalid = Err(flightpath::ItineraryError::Shape(flightpath::ShapeProblem::InvalidEntries));
    assert_eq!(js_itinerary_sort(parse("null")), not_an_array);
    assert_eq!(js_itinerary_sort(parse("42")), not_an_array);
    assert_eq!(js_itinerary_sort(parse(r#""SFO""#)), not_an_array);
    assert_eq!(js_itinerary_sort(parse(r#"{"SFO": "EWR"}"#)), not_an_array);
    assert_eq!(js_itinerary_sort(parse(r#"[["SFO", "ATL"], "ATL"]"#)), invalid);
    assert_eq!(js_itinerary_sort(parse(r#"[["SFO", "ATL"], ["ATL"]]"#)), invalid);
    assert_eq!(js_itinerary_sort(parse(r#"[["SFO", "ATL", "EWR"]]"#)), invalid);
    assert_eq!(js_itinerary_sort(parse(r#"[["SFO", 7]]"#)), invalid);
    assert_eq!(js_itinerary_sort(parse(r#"[[null, "SFO"]]"#)), invalid);
}
