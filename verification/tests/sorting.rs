use flightpath::{itinerary_sort, ItineraryError};

fn segments(pairs: &[(&str, &str)]) -> Vec<(String, String)> {
    pairs.iter().map(|(from, to)| (from.to_string(), to.to_string())).collect()
}

const PATH: [(&str, &str); 5] =
    [("SFO", "ATL"), ("ATL", "GSO"), ("GSO", "IND"), ("IND", "EWR"), ("EWR", "BOS")];

#[test]
fn every_rotation_and_reversal_sorts_to_the_path() {
    let path = segments(&PATH);
    for shift in 0..PATH.len() {
        let mut shuffled = path.clone();
        shuffled.rotate_left(shift);
        assert_eq!(itinerary_sort(shuffled.clone()), Ok(path.clone()));
        shuffled.reverse();
        assert_eq!(itinerary_sort(shuffled), Ok(path.clone()));
    }
}

#[test]
fn sorted_path_stays_as_it_is() {
    let path = segments(&PATH);
    assert_eq!(itinerary_sort(path.clone()), Ok(path));
}

#[test]
fn sorting_twice_is_sorting_once() {
    let shuffled = segments(&[("GSO", "IND"), ("SFO", "ATL"), ("IND", "EWR"), ("ATL", "GSO")]);
    let once = itinerary_sort(shuffled).unwrap();
    assert_eq!(itinerary_sort(once.clone()), Ok(once));
}

#[test]
fn sorted_path_is_chained_from_start_to_end() {
    let shuffled = segments(&[("GSO", "IND"), ("SFO", "ATL"), ("IND", "EWR"), ("ATL", "GSO")]);
    let sorted = itinerary_sort(shuffled.clone()).unwrap();
    assert_eq!(sorted.len(), shuffled.len());
    for segment in &shuffled {
        assert!(sorted.contains(segment));
    }
    for i in 1..sorted.len() {
        assert_eq!(sorted[i - 1].1, sorted[i].0);
    }
    assert_eq!(sorted[0].0, "SFO");
    assert_eq!(sorted[sorted.len() - 1].1, "EWR");
}

#[test]
fn single_segment_is_its_own_itinerary() {
    let one = segments(&[("SFO", "EWR")]);
    assert_eq!(itinerary_sort(one.clone()), Ok(one));
}

#[test]
fn no_segments_have_no_start() {
    assert_eq!(itinerary_sort(vec![]), Err(ItineraryError::NoUniqueStart));
}

#[test]
fn closed_loops_have_no_start() {
    assert_eq!(itinerary_sort(segments(&[("A", "A")])), Err(ItineraryError::NoUniqueStart));
    assert_eq!(
        itinerary_sort(segments(&[("A", "B"), ("B", "A")])),
        Err(ItineraryError::NoUniqueStart)
    );
    assert_eq!(
        itinerary_sort(segments(&[("B", "C"), ("A", "B"), ("C", "A")])),
        Err(ItineraryError::NoUniqueStart)
    );
}

#[test]
fn separate_fragments_break_the_chain() {
    assert_eq!(
        itinerary_sort(segments(&[("A", "B"), ("C", "D")])),
        Err(ItineraryError::ChainBroken)
    );
    assert_eq!(
        itinerary_sort(segments(&[("C", "D"), ("A", "B")])),
        Err(ItineraryError::ChainBroken)
    );
}

#[test]
fn path_beside_a_loop_breaks_the_chain() {
    assert_eq!(
        itinerary_sort(segments(&[("X", "Y"), ("Y", "X"), ("A", "B")])),
        Err(ItineraryError::ChainBroken)
    );
}

#[test]
fn two_ways_into_one_place_break_the_chain() {
    assert_eq!(
        itinerary_sort(segments(&[("A", "C"), ("B", "C"), ("C", "D")])),
        Err(ItineraryError::ChainBroken)
    );
}

#[test]
fn later_segment_replaces_earlier_one_with_the_same_origin() {
    assert_eq!(
        itinerary_sort(segments(&[("A", "B"), ("A", "C")])),
        Ok(segments(&[("A", "C")]))
    );
    assert_eq!(
        itinerary_sort(segments(&[("A", "B"), ("B", "C"), ("A", "B")])),
        Ok(segments(&[("A", "B"), ("B", "C")]))
    );
}

#[test]
fn path_that_runs_into_itself_is_walked_to_its_end() {
    let path = segments(&[("A", "B"), ("B", "C"), ("C", "B")]);
    let shuffled = segments(&[("C", "B"), ("A", "B"), ("B", "C")]);
    assert_eq!(itinerary_sort(shuffled), Ok(path));
}

#[test]
fn first_start_in_input_order_is_taken() {
    assert_eq!(
        itinerary_sort(segments(&[("B", "C"), ("A", "C"), ("C", "D")])),
        Err(ItineraryError::ChainBroken)
    );
}
