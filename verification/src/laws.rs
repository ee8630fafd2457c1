//! What holds of sorting, of every input.

use crate::api::{sorted_value, termini_value};
use crate::decode::{decoded, encoded, pair_of};
use crate::error::{ItineraryError, ShapeProblem};
use crate::route::{
    destinations, first_start, has_start, is_start, itinerary_of, lemma_first_start,
    lemma_links_dom, lemma_links_finite, links, walk,
};
use crate::segment::{Place, Segment};
use crate::value::ValueView;
use vstd::prelude::*;

verus! {

/// Each segment arrives where the next one leaves.
pub open spec fn is_chained(path: Seq<Segment>) -> bool {
    forall|i: int, j: int|
        0 <= i && j == i + 1 && j < path.len() ==> (#[trigger] path[i]).1 == (#[trigger] path[j]).0
}

/// No two segments leave from the same place.
pub open spec fn has_distinct_origins(segments: Seq<Segment>) -> bool {
    forall|i: int, j: int|
        0 <= i < j < segments.len() ==> (#[trigger] segments[i]).0 != (#[trigger] segments[j]).0
}

/// No two segments arrive at the same place.
pub open spec fn has_distinct_destinations(segments: Seq<Segment>) -> bool {
    forall|i: int, j: int|
        0 <= i < j < segments.len() ==> (#[trigger] segments[i]).1 != (#[trigger] segments[j]).1
}

/// A journey in travel order: it has a segment, each segment arrives where the next one
/// leaves, no place is left twice, and no segment arrives at the first origin.
pub open spec fn is_ordered(path: Seq<Segment>) -> bool {
    &&& path.len() > 0
    &&& is_chained(path)
    &&& has_distinct_origins(path)
    &&& !destinations(path).contains(path[0].0)
}

/// A simple path in travel order: a journey in travel order that arrives at no place twice,
/// so that it visits no place twice.
pub open spec fn is_simple_path(path: Seq<Segment>) -> bool {
    is_ordered(path) && has_distinct_destinations(path)
}

/// Where no two segments leave from the same place, every segment is a link, and there are
/// as many links as segments.
pub proof fn lemma_links_of_distinct_origins(segments: Seq<Segment>)
    requires
        has_distinct_origins(segments),
    ensures
        links(segments).dom().finite(),
        links(segments).dom().len() == segments.len(),
        forall|i: int|
            0 <= i < segments.len() ==> links(segments).dom().contains(
                (#[trigger] segments[i]).0,
            ) && links(segments)[segments[i].0] == segments[i].1,
    decreases segments.len(),
{
    lemma_links_finite(segments);
    if segments.len() > 0 {
        let front = segments.drop_last();
        let last = segments.len() - 1;
        assert forall|i: int, j: int| 0 <= i < j < front.len() implies (#[trigger] front[i]).0 != (
        #[trigger] front[j]).0 by {
            assert(front[i] == segments[i] && front[j] == segments[j]);
        }
        lemma_links_of_distinct_origins(front);
        lemma_links_dom(front);
        lemma_links_finite(front);
        if links(front).dom().contains(segments[last].0) {
            let i = choose|i: int|
                0 <= i < front.len() && (#[trigger] front[i]).0 == segments[last].0;
            assert(front[i] == segments[i]);
            assert(false);
        }
        assert forall|i: int| 0 <= i < segments.len() implies links(segments).dom().contains(
            (#[trigger] segments[i]).0,
        ) && links(segments)[segments[i].0] == segments[i].1 by {
            if i < last {
                assert(front[i] == segments[i]);
            }
        }
    }
}

/// Following the links of a chained journey that leaves no place twice, from its first
/// origin, gives the journey back.
pub proof fn lemma_walk_of_chain(path: Seq<Segment>)
    requires
        path.len() > 0,
        is_chained(path),
        has_distinct_origins(path),
    ensures
        walk(links(path), path[0].0) == path,
    decreases path.len(),
{
    let rest = path.drop_first();
    assert forall|i: int, j: int| 0 <= i < j < rest.len() implies (#[trigger] rest[i]).0 != (
    #[trigger] rest[j]).0 by {
        assert(rest[i] == path[i + 1] && rest[j] == path[j + 1]);
    }
    assert forall|i: int, j: int| 0 <= i && j == i + 1 && j < rest.len() implies (
    #[trigger] rest[i]).1 == (#[trigger] rest[j]).0 by {
        assert(rest[i] == path[i + 1] && rest[j] == path[j + 1]);
    }
    lemma_links_of_distinct_origins(path);
    lemma_links_of_distinct_origins(rest);
    lemma_links_dom(path);
    lemma_links_dom(rest);
    let left = links(path).remove(path[0].0);
    assert forall|place: Place| left.dom().contains(place) == links(rest).dom().contains(
        place,
    ) by {
        if left.dom().contains(place) {
            let i = choose|i: int| 0 <= i < path.len() && (#[trigger] path[i]).0 == place;
            assert(rest[i - 1] == path[i]);
        }
        if links(rest).dom().contains(place) {
            let i = choose|i: int| 0 <= i < rest.len() && (#[trigger] rest[i]).0 == place;
            assert(rest[i] == path[i + 1]);
            assert(path[0].0 != path[i + 1].0);
        }
    }
    assert(left.dom() =~= links(rest).dom());
    assert forall|place: Place| #[trigger] left.dom().contains(place) implies left[place]
        == links(rest)[place] by {
        let i = choose|i: int| 0 <= i < path.len() && (#[trigger] path[i]).0 == place;
        assert(rest[i - 1] == path[i]);
    }
    assert(left =~= links(rest));
    assert(links(path).dom().contains(path[0].0) && links(path)[path[0].0] == path[0].1);
    assert(walk(links(path), path[0].0) == seq![(path[0].0, path[0].1)] + walk(
        links(rest),
        path[0].1,
    ));
    if rest.len() > 0 {
        assert(rest[0] == path[1]);
        assert(path[0].1 == path[1].0);
        lemma_walk_of_chain(rest);
    } else {
        assert(links(rest).dom() =~= Set::empty());
    }
    assert(seq![path[0]] + rest =~= path);
}

/// Two lists hold the same segments, each as often as the other, in whatever order.
pub open spec fn is_rearranged(shuffled: Seq<Segment>, path: Seq<Segment>) -> bool {
    shuffled.to_multiset() == path.to_multiset()
}

/// A rearrangement has the same segments, destinations and links as the journey it
/// rearranges, where that journey leaves no place twice.
pub proof fn lemma_rearranged(shuffled: Seq<Segment>, path: Seq<Segment>)
    requires
        is_rearranged(shuffled, path),
        has_distinct_origins(path),
    ensures
        shuffled.len() == path.len(),
        forall|segment: Segment| shuffled.contains(segment) <==> path.contains(segment),
        has_distinct_origins(shuffled),
        destinations(shuffled) == destinations(path),
        links(shuffled) == links(path),
{
    broadcast use vstd::seq_lib::group_to_multiset_ensures;

    assert(shuffled.len() == path.len()) by {
        vstd::seq_lib::to_multiset_len(shuffled);
        vstd::seq_lib::to_multiset_len(path);
    }
    assert forall|segment: Segment| shuffled.contains(segment) <==> path.contains(segment) by {
        assert(shuffled.to_multiset().count(segment) == path.to_multiset().count(segment));
    }
    assert(path.no_duplicates());
    path.lemma_multiset_has_no_duplicates();
    shuffled.lemma_multiset_has_no_duplicates_conv();
    assert forall|i: int, j: int| 0 <= i < j < shuffled.len() implies (#[trigger] shuffled[i]).0
        != (#[trigger] shuffled[j]).0 by {
        assert(shuffled[i] != shuffled[j]);
        assert(shuffled.contains(shuffled[i]) && shuffled.contains(shuffled[j]));
        let a = choose|a: int| 0 <= a < path.len() && path[a] == shuffled[i];
        let b = choose|b: int| 0 <= b < path.len() && path[b] == shuffled[j];
        assert(a != b);
        assert(path[a].0 != path[b].0);
    }
    assert forall|place: Place|
        destinations(shuffled).contains(place) == destinations(path).contains(place) by {
        if destinations(shuffled).contains(place) {
            let i = choose|i: int| 0 <= i < shuffled.len() && shuffled[i].1 == place;
            assert(shuffled.contains(shuffled[i]));
            let a = choose|a: int| 0 <= a < path.len() && path[a] == shuffled[i];
            assert(path[a].1 == place);
        }
        if destinations(path).contains(place) {
            let a = choose|a: int| 0 <= a < path.len() && path[a].1 == place;
            assert(path.contains(path[a]));
            let i = choose|i: int| 0 <= i < shuffled.len() && shuffled[i] == path[a];
            assert(shuffled[i].1 == place);
        }
    }
    assert(destinations(shuffled) =~= destinations(path));
    lemma_links_of_distinct_origins(path);
    lemma_links_of_distinct_origins(shuffled);
    lemma_links_dom(path);
    lemma_links_dom(shuffled);
    assert forall|place: Place|
        links(shuffled).dom().contains(place) == links(path).dom().contains(place) by {
        if links(shuffled).dom().contains(place) {
            let i = choose|i: int| 0 <= i < shuffled.len() && (#[trigger] shuffled[i]).0 == place;
            assert(shuffled.contains(shuffled[i]));
            let a = choose|a: int| 0 <= a < path.len() && path[a] == shuffled[i];
            assert(path[a].0 == place);
        }
        if links(path).dom().contains(place) {
            let a = choose|a: int| 0 <= a < path.len() && (#[trigger] path[a]).0 == place;
            assert(path.contains(path[a]));
            let i = choose|i: int| 0 <= i < shuffled.len() && shuffled[i] == path[a];
            assert(shuffled[i].0 == place);
        }
    }
    assert(links(shuffled).dom() =~= links(path).dom());
    assert forall|place: Place| #[trigger]
        links(shuffled).dom().contains(place) implies links(shuffled)[place] == links(
        path,
    )[place] by {
        let i = choose|i: int| 0 <= i < shuffled.len() && (#[trigger] shuffled[i]).0 == place;
        assert(shuffled.contains(shuffled[i]));
        let a = choose|a: int| 0 <= a < path.len() && path[a] == shuffled[i];
        assert(path[a].0 == place);
    }
    assert(links(shuffled) =~= links(path));
}

/// Sorting restores the order: the segments of a journey in travel order, handed over in
/// any order, sort to that journey.
pub proof fn lemma_sort_restores_order(shuffled: Seq<Segment>, path: Seq<Segment>)
    requires
        is_ordered(path),
        is_rearranged(shuffled, path),
    ensures
        itinerary_of(shuffled) == Ok::<Seq<Segment>, ItineraryError>(path),
{
    lemma_rearranged(shuffled, path);
    assert(path.contains(path[0]));
    let at = choose|i: int| 0 <= i < shuffled.len() && shuffled[i] == path[0];
    assert(is_start(shuffled, at));
    lemma_first_start(shuffled);
    let first = first_start(shuffled);
    assert(shuffled.contains(shuffled[first]));
    let a = choose|a: int| 0 <= a < path.len() && path[a] == shuffled[first];
    if a > 0 {
        assert(path[a - 1].1 == path[a].0);
        assert(destinations(path).contains(path[a].0));
    }
    assert(shuffled[first].0 == path[0].0);
    lemma_walk_of_chain(path);
    lemma_links_of_distinct_origins(path);
}

/// Sorting a simple path that was split into its segments and shuffled gives the same
/// segments back, each arriving where the next one leaves, from the start of the path to
/// its end.
pub proof fn lemma_sort_restores_simple_path(shuffled: Seq<Segment>, path: Seq<Segment>)
    requires
        is_simple_path(path),
        is_rearranged(shuffled, path),
    ensures
        itinerary_of(shuffled) is Ok,
        itinerary_of(shuffled)->Ok_0 == path,
        is_rearranged(itinerary_of(shuffled)->Ok_0, shuffled),
        is_chained(itinerary_of(shuffled)->Ok_0),
        itinerary_of(shuffled)->Ok_0.first().0 == path.first().0,
        itinerary_of(shuffled)->Ok_0.last().1 == path.last().1,
{
    lemma_sort_restores_order(shuffled, path);
}

/// Sorting what is in travel order already changes nothing.
pub proof fn lemma_sort_keeps_order(path: Seq<Segment>)
    requires
        is_ordered(path),
    ensures
        itinerary_of(path) == Ok::<Seq<Segment>, ItineraryError>(path),
{
    lemma_sort_restores_order(path, path);
}

/// Where every origin is also a destination, as in a closed loop, sorting fails: there is
/// no place to start from.
pub proof fn lemma_closed_loop_rejected(segments: Seq<Segment>)
    requires
        forall|i: int|
            0 <= i < segments.len() ==> destinations(segments).contains(
                (#[trigger] segments[i]).0,
            ),
    ensures
        itinerary_of(segments) == Err::<Seq<Segment>, ItineraryError>(
            ItineraryError::NoUniqueStart,
        ),
{
    if has_start(segments) {
        let i = choose|i: int| is_start(segments, i);
        assert(destinations(segments).contains(segments[i].0));
    }
}

/// A walk sets out from where it was told to, takes links only, takes none twice, and each
/// of its flights arrives where the next one leaves.
pub proof fn lemma_walk_is_chain(table: Map<Place, Place>, at: Place)
    requires
        table.dom().finite(),
    ensures
        walk(table, at).len() > 0 ==> walk(table, at)[0].0 == at,
        forall|i: int|
            0 <= i < walk(table, at).len() ==> table.dom().contains(
                (#[trigger] walk(table, at)[i]).0,
            ) && table[walk(table, at)[i].0] == walk(table, at)[i].1,
        has_distinct_origins(walk(table, at)),
        is_chained(walk(table, at)),
    decreases table.dom().len(),
{
    let path = walk(table, at);
    if table.dom().contains(at) {
        let next = table[at];
        let rest = walk(table.remove(at), next);
        lemma_walk_is_chain(table.remove(at), next);
        assert(path == seq![(at, next)] + rest);
        assert forall|i: int| 0 <= i < path.len() implies table.dom().contains(
            (#[trigger] path[i]).0,
        ) && table[path[i].0] == path[i].1 by {
            if i > 0 {
                assert(path[i] == rest[i - 1]);
            }
        }
        assert forall|i: int, j: int| 0 <= i < j < path.len() implies (#[trigger] path[i]).0 != (
        #[trigger] path[j]).0 by {
            assert(path[j] == rest[j - 1]);
            if i > 0 {
                assert(path[i] == rest[i - 1]);
            }
        }
        assert forall|i: int, j: int| 0 <= i && j == i + 1 && j < path.len() implies (
        #[trigger] path[i]).1 == (#[trigger] path[j]).0 by {
            assert(path[j] == rest[j - 1]);
            if i > 0 {
                assert(path[i] == rest[i - 1]);
            }
        }
    }
}

/// Every link leads to a destination of some segment with that origin.
pub proof fn lemma_links_values(segments: Seq<Segment>)
    ensures
        forall|place: Place| #[trigger]
            links(segments).dom().contains(place) ==> exists|i: int|
                0 <= i < segments.len() && (#[trigger] segments[i]) == (
                    place,
                    links(segments)[place],
                ),
    decreases segments.len(),
{
    if segments.len() > 0 {
        let front = segments.drop_last();
        let last = segments.len() - 1;
        lemma_links_values(front);
        assert forall|place: Place| #[trigger]
            links(segments).dom().contains(place) implies exists|i: int|
            0 <= i < segments.len() && (#[trigger] segments[i]) == (
                place,
                links(segments)[place],
            ) by {
            if place == segments[last].0 {
                assert(segments[last] == (place, links(segments)[place]));
            } else {
                assert(links(front).dom().contains(place));
                let i = choose|i: int|
                    0 <= i < front.len() && (#[trigger] front[i]) == (place, links(front)[place]);
                assert(segments[i] == front[i]);
            }
        }
    }
}

/// An itinerary is in travel order and is made of segments of the input.
pub proof fn lemma_itinerary_is_ordered(segments: Seq<Segment>)
    requires
        itinerary_of(segments) is Ok,
    ensures
        is_ordered(itinerary_of(segments)->Ok_0),
        forall|i: int|
            0 <= i < itinerary_of(segments)->Ok_0.len() ==> segments.contains(
                #[trigger] itinerary_of(segments)->Ok_0[i],
            ),
{
    let path = itinerary_of(segments)->Ok_0;
    let first = first_start(segments);
    lemma_first_start(segments);
    lemma_links_finite(segments);
    lemma_links_dom(segments);
    lemma_links_values(segments);
    lemma_walk_is_chain(links(segments), segments[first].0);
    assert(links(segments).dom().contains(segments[first].0));
    assert forall|i: int| 0 <= i < path.len() implies segments.contains(#[trigger] path[i]) by {
        let place = path[i].0;
        assert(links(segments).dom().contains(place));
        let k = choose|k: int|
            0 <= k < segments.len() && (#[trigger] segments[k]) == (place, links(segments)[place]);
        assert(segments[k] == path[i]);
    }
    if destinations(path).contains(path[0].0) {
        let i = choose|i: int| 0 <= i < path.len() && path[i].1 == path[0].0;
        assert(segments.contains(path[i]));
        let k = choose|k: int| 0 <= k < segments.len() && segments[k] == path[i];
        assert(destinations(segments).contains(segments[k].1));
    }
}

/// Sorting twice gives what sorting once gives.
pub proof fn lemma_sort_idempotent(segments: Seq<Segment>)
    requires
        itinerary_of(segments) is Ok,
    ensures
        itinerary_of(itinerary_of(segments)->Ok_0) == itinerary_of(segments),
{
    lemma_itinerary_is_ordered(segments);
    lemma_sort_keeps_order(itinerary_of(segments)->Ok_0);
}

/// Where no two segments of the input leave from the same place, an itinerary takes every
/// segment of the input, and each once.
pub proof fn lemma_itinerary_uses_every_segment(segments: Seq<Segment>)
    requires
        itinerary_of(segments) is Ok,
        has_distinct_origins(segments),
    ensures
        is_rearranged(itinerary_of(segments)->Ok_0, segments),
{
    broadcast use vstd::seq_lib::group_to_multiset_ensures;

    let path = itinerary_of(segments)->Ok_0;
    lemma_itinerary_is_ordered(segments);
    lemma_links_of_distinct_origins(segments);
    assert(path.len() == segments.len());
    assert(path.no_duplicates());
    assert(segments.no_duplicates());
    path.unique_seq_to_set();
    segments.unique_seq_to_set();
    vstd::seq_lib::seq_to_set_is_finite(path);
    vstd::seq_lib::seq_to_set_is_finite(segments);
    assert(path.to_set().subset_of(segments.to_set()));
    vstd::set_lib::lemma_subset_equality(path.to_set(), segments.to_set());
    path.lemma_multiset_has_no_duplicates();
    segments.lemma_multiset_has_no_duplicates();
    assert forall|segment: Segment|
        path.to_multiset().count(segment) == segments.to_multiset().count(segment) by {
        assert(path.to_set().contains(segment) == segments.to_set().contains(segment));
        assert(path.contains(segment) == segments.contains(segment));
    }
    assert(path.to_multiset() =~= segments.to_multiset());
}

/// A value that is not a non-empty string.
pub open spec fn is_not_a_place(value: ValueView) -> bool {
    !(value is Text) || value->Text_0.len() == 0
}

/// A value that is not an array of exactly two non-empty strings.
pub open spec fn is_not_a_pair(value: ValueView) -> bool {
    ||| !(value is Array)
    ||| value->Array_0.len() != 2
    ||| is_not_a_place(value->Array_0[0])
    ||| is_not_a_place(value->Array_0[1])
}

/// A value that is no array, an empty array, or an array with an element that is not an
/// array of exactly two non-empty strings.
pub open spec fn is_malformed(value: ValueView) -> bool {
    ||| !(value is Array)
    ||| value->Array_0.len() == 0
    ||| exists|i: int| 0 <= i < value->Array_0.len() && is_not_a_pair(#[trigger] value->Array_0[i])
}

/// Malformed values, and no others, are refused for their shape, whether the itinerary or
/// its termini are asked for.
pub proof fn lemma_malformed_rejected(value: ValueView)
    ensures
        is_malformed(value) <==> decoded(value) is Err,
        decoded(value) matches Err(error) ==> error is Shape && sorted_value(value) == Err::<
            ValueView,
            ItineraryError,
        >(error) && termini_value(value) == Err::<ValueView, ItineraryError>(error),
        !(value is Array) || value->Array_0.len() == 0 ==> decoded(value) == Err::<
            Seq<Segment>,
            ItineraryError,
        >(ItineraryError::Shape(ShapeProblem::NotAnArray)),
        value is Array && value->Array_0.len() > 0 && is_malformed(value) ==> decoded(value)
            == Err::<Seq<Segment>, ItineraryError>(
            ItineraryError::Shape(ShapeProblem::InvalidEntries),
        ),
{
    if value is Array && value->Array_0.len() > 0 {
        let items = value->Array_0;
        if is_malformed(value) {
            let i = choose|i: int| 0 <= i < items.len() && is_not_a_pair(#[trigger] items[i]);
            assert(!(pair_of(items[i]) is Some));
        } else {
            assert forall|i: int| 0 <= i < items.len() implies (#[trigger] pair_of(
                items[i],
            )) is Some by {
                assert(!is_not_a_pair(items[i]));
            }
        }
    }
}

/// The termini of a journey in travel order, handed over in any order, are its first origin
/// and its last destination, as one segment.
pub proof fn lemma_termini_of_rearranged(
    value: ValueView,
    shuffled: Seq<Segment>,
    path: Seq<Segment>,
)
    requires
        decoded(value) == Ok::<Seq<Segment>, ItineraryError>(shuffled),
        is_ordered(path),
        is_rearranged(shuffled, path),
    ensures
        sorted_value(value) == Ok::<ValueView, ItineraryError>(encoded(path)),
        termini_value(value) == Ok::<ValueView, ItineraryError>(
            encoded(seq![(path[0].0, path[path.len() - 1].1)]),
        ),
{
    lemma_sort_restores_order(shuffled, path);
}

/// The termini are there exactly when the itinerary is, and are then its first origin and
/// its last destination; otherwise both fail alike.
pub proof fn lemma_termini_follow_itinerary(value: ValueView, segments: Seq<Segment>)
    requires
        decoded(value) == Ok::<Seq<Segment>, ItineraryError>(segments),
    ensures
        match itinerary_of(segments) {
            Ok(path) => sorted_value(value) == Ok::<ValueView, ItineraryError>(encoded(path))
                && termini_value(value) == Ok::<ValueView, ItineraryError>(
                encoded(seq![(path[0].0, path[path.len() - 1].1)]),
            ),
            Err(error) => sorted_value(value) == Err::<ValueView, ItineraryError>(error)
                && termini_value(value) == Err::<ValueView, ItineraryError>(error),
        },
{
}

} // verus!
