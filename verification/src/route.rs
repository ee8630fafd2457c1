//! Putting the segments of a journey back in travel order.

use crate::error::ItineraryError;
use crate::segment::{Place, Segment};
use vstd::hash_map::StringHashMap;
use vstd::hash_set::StringHashSet;
use vstd::prelude::*;

verus! {

/// The places that some segment arrives at.
pub open spec fn destinations(segments: Seq<Segment>) -> Set<Place> {
    Set::new(|place: Place| exists|i: int| 0 <= i < segments.len() && segments[i].1 == place)
}

/// Where one flies to from each origin. Of two segments with the same origin the later one
/// counts.
pub open spec fn links(segments: Seq<Segment>) -> Map<Place, Place>
    decreases segments.len(),
{
    if segments.len() == 0 {
        Map::empty()
    } else {
        links(segments.drop_last()).insert(segments.last().0, segments.last().1)
    }
}

/// Whether segment `i` leaves from a place that no segment arrives at.
pub open spec fn is_start(segments: Seq<Segment>, i: int) -> bool {
    0 <= i < segments.len() && !destinations(segments).contains(segments[i].0)
}

/// Whether some segment leaves from a place that no segment arrives at.
pub open spec fn has_start(segments: Seq<Segment>) -> bool {
    exists|i: int| is_start(segments, i)
}

/// The index of the first segment that leaves from a place that no segment arrives at.
pub open spec fn first_start(segments: Seq<Segment>) -> int {
    choose|i: int| is_start(segments, i) && forall|j: int| 0 <= j < i ==> !is_start(segments, j)
}

/// The flights taken when one sets out from `at` and follows the links, each link at most
/// once, until the place reached has none left.
pub open spec fn walk(links: Map<Place, Place>, at: Place) -> Seq<Segment>
    decreases links.dom().len(),
    when links.dom().finite()
{
    if links.dom().contains(at) {
        seq![(at, links[at])] + walk(links.remove(at), links[at])
    } else {
        Seq::empty()
    }
}

/// The itinerary of a set of segments: the walk from the first start, provided that it uses
/// every link.
pub open spec fn itinerary_of(segments: Seq<Segment>) -> Result<Seq<Segment>, ItineraryError> {
    if !has_start(segments) {
        Err(ItineraryError::NoUniqueStart)
    } else {
        let path = walk(links(segments), segments[first_start(segments)].0);
        if path.len() == links(segments).dom().len() {
            Ok(path)
        } else {
            Err(ItineraryError::ChainBroken)
        }
    }
}

/// The links that a table of strings holds, each place taken by its characters.
pub open spec fn places(table: Map<Place, String>) -> Map<Place, Place> {
    table.map_values(|place: String| place@)
}

/// The origins are exactly the places that have a link.
pub proof fn lemma_links_dom(segments: Seq<Segment>)
    ensures
        forall|place: Place|
            links(segments).dom().contains(place) <==> exists|i: int|
                0 <= i < segments.len() && (#[trigger] segments[i]).0 == place,
    decreases segments.len(),
{
    if segments.len() > 0 {
        let front = segments.drop_last();
        let last = segments.len() - 1;
        lemma_links_dom(front);
        assert forall|place: Place|
            links(segments).dom().contains(place) <==> exists|i: int|
                0 <= i < segments.len() && (#[trigger] segments[i]).0 == place by {
            if links(segments).dom().contains(place) {
                if place == segments[last].0 {
                } else {
                    assert(links(front).dom().contains(place));
                    let i = choose|i: int| 0 <= i < front.len() && (#[trigger] front[i]).0 == place;
                    assert(segments[i] == front[i]);
                }
            }
            if exists|i: int| 0 <= i < segments.len() && (#[trigger] segments[i]).0 == place {
                let i = choose|i: int|
                    0 <= i < segments.len() && (#[trigger] segments[i]).0 == place;
                if i < last {
                    assert(front[i] == segments[i]);
                    assert(links(front).dom().contains(place));
                }
            }
        }
    }
}

/// Below a segment that leaves from a start there is a first one that does.
proof fn lemma_least_start(segments: Seq<Segment>, i: int)
    requires
        is_start(segments, i),
    ensures
        exists|first: int|
            is_start(segments, first) && forall|j: int|
                0 <= j < first ==> !is_start(segments, j),
    decreases i,
{
    if exists|j: int| 0 <= j < i && is_start(segments, j) {
        let j = choose|j: int| 0 <= j < i && is_start(segments, j);
        lemma_least_start(segments, j);
    } else {
        assert(is_start(segments, i) && forall|j: int| 0 <= j < i ==> !is_start(segments, j));
    }
}

/// Where there is a start, the first start is one, and the first.
pub proof fn lemma_first_start(segments: Seq<Segment>)
    requires
        has_start(segments),
    ensures
        is_start(segments, first_start(segments)),
        forall|j: int| 0 <= j < first_start(segments) ==> !is_start(segments, j),
{
    let i = choose|i: int| is_start(segments, i);
    lemma_least_start(segments, i);
}

/// An itinerary is never empty.
pub proof fn lemma_itinerary_nonempty(segments: Seq<Segment>)
    requires
        itinerary_of(segments) is Ok,
    ensures
        itinerary_of(segments)->Ok_0.len() > 0,
{
    let first = first_start(segments);
    lemma_first_start(segments);
    lemma_links_dom(segments);
    lemma_links_finite(segments);
    assert(links(segments).dom().contains(segments[first].0));
}

/// The links of finitely many segments are finitely many.
pub proof fn lemma_links_finite(segments: Seq<Segment>)
    ensures
        links(segments).dom().finite(),
    decreases segments.len(),
{
    if segments.len() > 0 {
        lemma_links_finite(segments.drop_last());
    }
}

/// Gathers the places that some segment arrives at.
fn collect_destinations(vec: &Vec<(String, String)>) -> (to_locs: StringHashSet)
    ensures
        to_locs@ == destinations(vec.deep_view()),
{
    let ghost segments = vec.deep_view();
    let mut to_locs = StringHashSet::new();
    let mut i: usize = 0;
    while i < vec.len()
        invariant
            i <= vec.len(),
            segments == vec.deep_view(),
            forall|place: Place|
                to_locs@.contains(place) <==> exists|k: int|
                    0 <= k < i && (#[trigger] segments[k]).1 == place,
        decreases vec.len() - i,
    {
        let ghost before = to_locs@;
        to_locs.insert(vec[i].1.clone());
        proof {
            assert(segments[i as int].1 == vec@[i as int].1@);
            assert forall|place: Place|
                to_locs@.contains(place) <==> exists|k: int|
                    0 <= k < i + 1 && (#[trigger] segments[k]).1 == place by {
                if before.contains(place) {
                    let k = choose|k: int| 0 <= k < i && (#[trigger] segments[k]).1 == place;
                    assert(0 <= k < i + 1 && segments[k].1 == place);
                }
            }
        }
        i = i + 1;
    }
    assert(to_locs@ =~= destinations(segments));
    to_locs
}

/// Builds the table of links, later segments replacing earlier ones with the same origin.
fn collect_links(vec: &Vec<(String, String)>) -> (unordered: StringHashMap<String>)
    ensures
        unordered@.dom().finite(),
        places(unordered@) == links(vec.deep_view()),
{
    let ghost segments = vec.deep_view();
    let mut unordered: StringHashMap<String> = StringHashMap::new();
    let mut i: usize = 0;
    assert(places(unordered@) =~= links(segments.take(0)));
    while i < vec.len()
        invariant
            i <= vec.len(),
            segments == vec.deep_view(),
            unordered@.dom().finite(),
            places(unordered@) == links(segments.take(i as int)),
        decreases vec.len() - i,
    {
        let ghost before = unordered@;
        unordered.insert(vec[i].0.clone(), vec[i].1.clone());
        proof {
            let next = segments.take(i + 1);
            assert(next.drop_last() =~= segments.take(i as int));
            assert(next.last() == segments[i as int]);
            assert(segments[i as int] == (vec@[i as int].0@, vec@[i as int].1@));
            assert(places(unordered@) =~= places(before).insert(
                segments[i as int].0,
                segments[i as int].1,
            ));
        }
        i = i + 1;
    }
    assert(segments.take(vec.len() as int) =~= segments);
    unordered
}

/// Looks for the first segment that leaves from a place that no segment arrives at.
fn find_start(vec: &Vec<(String, String)>, to_locs: &StringHashSet) -> (first_loc: Option<String>)
    requires
        to_locs@ == destinations(vec.deep_view()),
    ensures
        first_loc is Some == has_start(vec.deep_view()),
        first_loc matches Some(place) ==> place@ == vec.deep_view()[first_start(
            vec.deep_view(),
        )].0,
{
    let ghost segments = vec.deep_view();
    let mut i: usize = 0;
    while i < vec.len()
        invariant
            i <= vec.len(),
            segments == vec.deep_view(),
            to_locs@ == destinations(segments),
            forall|k: int| 0 <= k < i ==> !is_start(segments, k),
        decreases vec.len() - i,
    {
        assert(segments[i as int].0 == vec@[i as int].0@);
        if !to_locs.contains(vec[i].0.as_str()) {
            proof {
                assert(is_start(segments, i as int));
                let first = first_start(segments);
                assert(is_start(segments, first) && forall|j: int|
                    0 <= j < first ==> !is_start(segments, j));
                assert(first == i);
            }
            return Some(vec[i].0.clone());
        }
        i = i + 1;
    }
    None
}

/// Puts the segments in travel order.
///
/// The journey starts at the first origin that is no destination and follows the links from
/// there. It is an itinerary if it uses every link; of two segments with the same origin
/// only the later one is a link.
pub fn itinerary_sort(vec: Vec<(String, String)>) -> (sorted: Result<
    Vec<(String, String)>,
    ItineraryError,
>)
    ensures
        match itinerary_of(vec.deep_view()) {
            Ok(path) => sorted is Ok && sorted->Ok_0.deep_view() == path,
            Err(error) => sorted == Err::<Vec<(String, String)>, ItineraryError>(error),
        },
{
    let ghost segments = vec.deep_view();
    let to_locs = collect_destinations(&vec);
    let mut unordered = collect_links(&vec);
    let mut start = match find_start(&vec, &to_locs) {
        Some(place) => place,
        None => {
            return Err(ItineraryError::NoUniqueStart);
        },
    };
    let ghost path = walk(links(segments), start@);
    let mut res: Vec<(String, String)> = Vec::new();
    proof {
        lemma_links_finite(segments);
        assert(places(unordered@).dom() =~= unordered@.dom());
        assert(res.deep_view() + path =~= path);
    }
    while !unordered.is_empty()
        invariant
            segments == vec.deep_view(),
            has_start(segments),
            path == walk(links(segments), segments[first_start(segments)].0),
            unordered@.dom().finite(),
            links(segments).dom().finite(),
            path == res.deep_view() + walk(places(unordered@), start@),
            res.len() + unordered@.dom().len() == links(segments).dom().len(),
        decreases unordered@.dom().len(),
    {
        let ghost table = unordered@;
        let ghost done = res.deep_view();
        assert(places(table).dom() =~= table.dom());
        let next = match unordered.get(start.as_str()) {
            Some(place) => place.clone(),
            None => {
                proof {
                    assert(path =~= done);
                    if table.dom().len() == 0 {
                        table.dom().lemma_len0_is_empty();
                    }
                }
                return Err(ItineraryError::ChainBroken);
            },
        };
        unordered.remove(start.as_str());
        proof {
            assert(places(unordered@) =~= places(table).remove(start@));
            assert(walk(places(table), start@) == seq![(start@, next@)] + walk(
                places(unordered@),
                next@,
            ));
            assert(done.push((start@, next@)) + walk(places(unordered@), next@) =~= done + (
                seq![(start@, next@)] + walk(places(unordered@), next@)));
        }
        res.push((start, next.clone()));
        assert(res.deep_view() =~= done.push((start@, next@)));
        start = next;
    }
    proof {
        assert(places(unordered@).dom() =~= unordered@.dom());
        assert(path =~= res.deep_view());
    }
    Ok(res)
}

} // verus!
