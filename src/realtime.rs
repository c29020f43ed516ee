//! The live delay feed and the matching of delays to scheduled departures.
use vstd::prelude::*;
use crate::departure::{BoardError, Departure, DepartureView, departures_view, lemma_view_push};
use crate::schedule::{contains_id, ids_of};

verus! {

/// A reported change at one stop of a trip; `departure_delay` is in seconds.
#[derive(Clone, Debug)]
pub struct StopTimeUpdate {
    pub stop_id: Option<String>,
    pub departure_delay: Option<i32>,
}

/// The updates reported for one trip, in feed order.
#[derive(Clone, Debug)]
pub struct TripUpdate {
    pub trip_id: Option<String>,
    pub stop_time_updates: Vec<StopTimeUpdate>,
}

/// One entity of the feed; only trip updates matter here.
#[derive(Clone, Debug)]
pub struct FeedEntity {
    pub trip_update: Option<TripUpdate>,
}

/// A snapshot of the real-time feed.
#[derive(Clone, Debug)]
pub struct Feed {
    pub entities: Vec<FeedEntity>,
}

/// Entity `e` carries an update for trip `trip`.
pub open spec fn updates_trip(e: FeedEntity, trip: Seq<char>) -> bool {
    match e.trip_update {
        Some(u) => match u.trip_id {
            Some(id) => id@ == trip,
            None => false,
        },
        None => false,
    }
}

/// The update of the first of the first `n` entities that updates `trip`.
pub open spec fn first_update(ents: Seq<FeedEntity>, trip: Seq<char>, n: int) -> Option<TripUpdate>
    decreases n,
{
    if n <= 0 {
        None
    } else {
        match first_update(ents, trip, n - 1) {
            Some(u) => Some(u),
            None => if updates_trip(ents[n - 1], trip) { ents[n - 1].trip_update } else { None },
        }
    }
}

/// The delay that update `u` reports at one of the stops `stops`, if any.
pub open spec fn stop_delay(u: StopTimeUpdate, stops: Seq<Seq<char>>) -> Option<i32> {
    match u.stop_id {
        Some(id) => if stops.contains(id@) { u.departure_delay } else { None },
        None => None,
    }
}

/// The first delay that the first `n` updates report at one of `stops`.
pub open spec fn first_delay(ups: Seq<StopTimeUpdate>, stops: Seq<Seq<char>>, n: int) -> Option<i32>
    decreases n,
{
    if n <= 0 {
        None
    } else {
        match first_delay(ups, stops, n - 1) {
            Some(d) => Some(d),
            None => stop_delay(ups[n - 1], stops),
        }
    }
}

/// The delay of trip `trip` at the station `stops`: from the first entity
/// that updates the trip, the first stop update at the station that carries
/// a departure delay.
pub open spec fn matched_delay(feed: Feed, trip: Seq<char>, stops: Seq<Seq<char>>) -> Option<i32> {
    match first_update(feed.entities@, trip, feed.entities@.len() as int) {
        Some(u) => first_delay(u.stop_time_updates@, stops, u.stop_time_updates@.len() as int),
        None => None,
    }
}

/// The seconds that a delay adds, none being zero.
pub open spec fn delay_seconds(d: Option<i32>) -> int {
    match d {
        Some(x) => x as int,
        None => 0,
    }
}

/// Departure `d` moved by the delay that the feed reports for it.
pub open spec fn resolve_view(feed: Feed, stops: Seq<Seq<char>>, d: DepartureView) -> DepartureView {
    (d.0, d.1 + delay_seconds(matched_delay(feed, d.0, stops)), d.2)
}

/// The delayed time of `d` fits a timestamp.
pub open spec fn resolvable(feed: Feed, stops: Seq<Seq<char>>, d: DepartureView) -> bool {
    i64::MIN <= resolve_view(feed, stops, d).1 <= i64::MAX
}

proof fn lemma_first_update_stays(ents: Seq<FeedEntity>, trip: Seq<char>, n: int, m: int)
    requires
        n <= m,
        first_update(ents, trip, n).is_some(),
    ensures
        first_update(ents, trip, m) == first_update(ents, trip, n),
    decreases m - n,
{
    if n < m {
        lemma_first_update_stays(ents, trip, n, m - 1);
    }
}

proof fn lemma_first_delay_stays(ups: Seq<StopTimeUpdate>, stops: Seq<Seq<char>>, n: int, m: int)
    requires
        n <= m,
        first_delay(ups, stops, n).is_some(),
    ensures
        first_delay(ups, stops, m) == first_delay(ups, stops, n),
    decreases m - n,
{
    if n < m {
        lemma_first_delay_stays(ups, stops, n, m - 1);
    }
}

/// The first delay that `ups` reports at one of the stops `stop_ids`.
fn delay_in_update(ups: &Vec<StopTimeUpdate>, stop_ids: &Vec<String>) -> (r: Option<i32>)
    ensures
        r == first_delay(ups@, ids_of(stop_ids@), ups@.len() as int),
{
    let ghost stops = ids_of(stop_ids@);
    let mut i: usize = 0;
    while i < ups.len()
        invariant
            i <= ups.len(),
            stops == ids_of(stop_ids@),
            first_delay(ups@, stops, i as int).is_none(),
        decreases ups.len() - i,
    {
        let u = &ups[i];
        let found = match &u.stop_id {
            Some(id) => if contains_id(stop_ids, id) { u.departure_delay } else { None },
            None => None,
        };
        if let Some(d) = found {
            proof {
                lemma_first_delay_stays(ups@, stops, i + 1, ups@.len() as int);
            }
            return Some(d);
        }
        i += 1;
    }
    None
}

/// The delay that `feed` reports for trip `trip_id` at the station
/// `stop_ids`: from the first entity that updates the trip, the first stop
/// update at the station that carries a departure delay; `None` where there
/// is no such update.
pub fn match_delay(feed: &Feed, trip_id: &String, stop_ids: &Vec<String>) -> (r: Option<i32>)
    ensures
        r == matched_delay(*feed, trip_id@, ids_of(stop_ids@)),
{
    let ghost ents = feed.entities@;
    let mut i: usize = 0;
    while i < feed.entities.len()
        invariant
            i <= feed.entities.len(),
            ents == feed.entities@,
            first_update(ents, trip_id@, i as int).is_none(),
        decreases feed.entities.len() - i,
    {
        if let Some(u) = &feed.entities[i].trip_update {
            if let Some(id) = &u.trip_id {
                if *id == *trip_id {
                    proof {
                        lemma_first_update_stays(ents, trip_id@, i + 1, ents.len() as int);
                    }
                    return delay_in_update(&u.stop_time_updates, stop_ids);
                }
            }
        }
        i += 1;
    }
    None
}

/// `time` moved by `delay` seconds; `None` where the result is no
/// timestamp. No delay leaves the time as it is.
pub fn apply_delay(time: i64, delay: Option<i32>) -> (r: Option<i64>)
    ensures
        r == (if i64::MIN <= time + delay_seconds(delay) <= i64::MAX {
            Some((time + delay_seconds(delay)) as i64)
        } else {
            None
        }),
{
    match delay {
        Some(d) => time.checked_add(d as i64),
        None => Some(time),
    }
}

/// Each departure moved by the delay that `feed` reports for its trip at
/// the station `stop_ids`, in the same order. Fails where a moved time is
/// no timestamp, naming that departure's trip.
pub fn resolve_delays(deps: &Vec<Departure>, feed: &Feed, stop_ids: &Vec<String>) -> (r: Result<Vec<Departure>, BoardError>)
    ensures
        r.is_ok() == (forall|k: int| 0 <= k < deps@.len() ==> resolvable(*feed, ids_of(stop_ids@), #[trigger] deps@[k]@)),
        r matches Ok(v) ==> departures_view(v@) == departures_view(deps@).map_values(
            |d: DepartureView| resolve_view(*feed, ids_of(stop_ids@), d),
        ),
        r matches Err(e) ==> exists|k: int| 0 <= k < deps@.len() && !resolvable(*feed, ids_of(stop_ids@), #[trigger] deps@[k]@)
            && e == (BoardError::TimeOutOfRange { trip_id: deps@[k].trip_id }),
{
    let ghost stops = ids_of(stop_ids@);
    let mut out: Vec<Departure> = Vec::new();
    let mut i: usize = 0;
    while i < deps.len()
        invariant
            i <= deps.len(),
            stops == ids_of(stop_ids@),
            departures_view(out@) == departures_view(deps@.take(i as int)).map_values(
                |d: DepartureView| resolve_view(*feed, stops, d),
            ),
            forall|k: int| 0 <= k < i ==> resolvable(*feed, stops, #[trigger] deps@[k]@),
        decreases deps.len() - i,
    {
        let d = &deps[i];
        let delay = match_delay(feed, &d.trip_id, stop_ids);
        match apply_delay(d.time, delay) {
            Some(t) => {
                let nd = Departure::new(&d.trip_id, t, &d.headsign);
                let ghost prev = out@;
                out.push(nd);
                proof {
                    lemma_view_push(prev, nd);
                }
                assert(departures_view(deps@.take(i + 1)).map_values(|d: DepartureView| resolve_view(*feed, stops, d))
                    =~= departures_view(deps@.take(i as int)).map_values(|d: DepartureView| resolve_view(*feed, stops, d))
                        .push(resolve_view(*feed, stops, deps@[i as int]@)));
            },
            None => {
                return Err(BoardError::TimeOutOfRange { trip_id: d.trip_id.clone() });
            },
        }
        i += 1;
    }
    assert(deps@.take(i as int) =~= deps@);
    Ok(out)
}

} // verus!
