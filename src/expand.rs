//! Station lookup and expansion of the timetable into concrete departures
//! over yesterday, today and tomorrow.
use vstd::prelude::*;
use crate::date::{Date, midnight_of};
use crate::departure::{BoardError, Departure, DepartureView, departures_view, lemma_view_push};
use crate::schedule::{
    contains_id, ids_of, is_active, lemma_push_contains, PickupType, Schedule, Stop, StopTime, Trip,
};

verus! {

/// Ids of the stops, in order, whose name is exactly `name`.
pub open spec fn station_stop_ids(stops: Seq<Stop>, name: Seq<char>) -> Seq<Seq<char>>
    decreases stops.len(),
{
    if stops.len() == 0 {
        seq![]
    } else {
        let rest = station_stop_ids(stops.drop_last(), name);
        match stops.last().name {
            Some(n) => if n@ == name { rest.push(stops.last().id@) } else { rest },
            None => rest,
        }
    }
}

/// The ids of the stops named `name`, in the order of the stop table.
pub fn stop_ids_for_station(stops: &Vec<Stop>, name: &String) -> (r: Vec<String>)
    ensures
        ids_of(r@) == station_stop_ids(stops@, name@),
{
    let mut r: Vec<String> = Vec::new();
    let mut i: usize = 0;
    while i < stops.len()
        invariant
            i <= stops.len(),
            ids_of(r@) == station_stop_ids(stops@.take(i as int), name@),
        decreases stops.len() - i,
    {
        assert(stops@.take(i + 1).drop_last() =~= stops@.take(i as int));
        let ghost prev = r@;
        match &stops[i].name {
            Some(n) => {
                if *n == *name {
                    r.push(stops[i].id.clone());
                    assert(ids_of(r@) =~= ids_of(prev).push(stops@[i as int].id@));
                }
            },
            None => {},
        }
        i += 1;
    }
    assert(stops@.take(i as int) =~= stops@);
    r
}

/// Passengers can board at `st`, which is one of the station's stops.
pub open spec fn boards_at(st: StopTime, stops: Seq<Seq<char>>) -> bool {
    stops.contains(st.stop_id@) && st.pickup_type != PickupType::NotAvailable
}

/// The departure of trip `t` at `st` for service day `day`, if `t` runs then.
pub open spec fn day_departures(s: Schedule, t: Trip, st: StopTime, day: int) -> Seq<DepartureView> {
    if is_active(s, t.service_id@, day) {
        seq![(t.trip_id@, midnight_of(day) + st.departure_time.unwrap() as int, t.headsign.unwrap()@)]
    } else {
        seq![]
    }
}

/// Trip `t` runs on one of the three service days around `today`.
pub open spec fn runs_near(s: Schedule, t: Trip, today: int) -> bool {
    is_active(s, t.service_id@, today - 1) || is_active(s, t.service_id@, today)
        || is_active(s, t.service_id@, today + 1)
}

/// The departures of trip `t` at stop-visit `st` over the service days
/// yesterday, today and tomorrow.
pub open spec fn visit_departures(s: Schedule, t: Trip, st: StopTime, stops: Seq<Seq<char>>, today: int) -> Seq<DepartureView> {
    if boards_at(st, stops) {
        day_departures(s, t, st, today - 1) + day_departures(s, t, st, today) + day_departures(s, t, st, today + 1)
    } else {
        seq![]
    }
}

/// A stop-visit that would give a departure has what the departure needs.
/// A stop-visit that gives departures has what the departures need.
pub open spec fn visit_complete(s: Schedule, t: Trip, st: StopTime, stops: Seq<Seq<char>>, today: int) -> bool {
    boards_at(st, stops) && runs_near(s, t, today) ==> st.departure_time.is_some() && t.headsign.is_some()
}

/// The index of the first of the first `n` stop-visits of trip `t` at which
/// passengers can board at the station `stops`.
pub open spec fn first_boarding(t: Trip, stops: Seq<Seq<char>>, n: int) -> Option<int>
    decreases n,
{
    if n <= 0 {
        None
    } else {
        match first_boarding(t, stops, n - 1) {
            Some(j) => Some(j),
            None => if boards_at(t.stop_times@[n - 1], stops) { Some(n - 1) } else { None },
        }
    }
}

/// The stop-visit at which trip `t` is shown for the station `stops`: its
/// first boarding stop-visit there. A trip that stops at several platforms
/// of the station is listed once per service day, at the first of them.
pub open spec fn station_visit(t: Trip, stops: Seq<Seq<char>>) -> Option<int> {
    first_boarding(t, stops, t.stop_times@.len() as int)
}

/// The departures of trip `t` at the station: those of its first boarding
/// stop-visit there, over the service days yesterday, today and tomorrow.
pub open spec fn trip_departures(s: Schedule, t: Trip, stops: Seq<Seq<char>>, today: int) -> Seq<DepartureView> {
    match station_visit(t, stops) {
        Some(j) => visit_departures(s, t, t.stop_times@[j], stops, today),
        None => seq![],
    }
}

/// The departures of the first `n` trips of the timetable.
pub open spec fn schedule_departures(s: Schedule, stops: Seq<Seq<char>>, today: int, n: int) -> Seq<DepartureView>
    decreases n,
{
    if n <= 0 {
        seq![]
    } else {
        schedule_departures(s, stops, today, n - 1) + trip_departures(s, s.trips@[n - 1], stops, today)
    }
}

/// Every departure that the timetable gives at the station around `today`.
pub open spec fn expansion(s: Schedule, stops: Seq<Seq<char>>, today: int) -> Seq<DepartureView> {
    schedule_departures(s, stops, today, s.trips@.len() as int)
}

/// Trip `t`'s stop-visit at the station has what its departures need.
pub open spec fn trip_complete(s: Schedule, t: Trip, stops: Seq<Seq<char>>, today: int) -> bool {
    match station_visit(t, stops) {
        Some(j) => visit_complete(s, t, t.stop_times@[j], stops, today),
        None => true,
    }
}

/// Trip `i` would give departures at the station but lacks what they need.
pub open spec fn trip_incomplete_at(s: Schedule, stops: Seq<Seq<char>>, today: int, i: int) -> bool {
    0 <= i < s.trips@.len() && !trip_complete(s, s.trips@[i], stops, today)
}

/// No trip that gives departures at the station lacks what they need.
pub open spec fn expansion_complete(s: Schedule, stops: Seq<Seq<char>>, today: int) -> bool {
    forall|i: int| !trip_incomplete_at(s, stops, today, i)
}

/// `e` names trip `t`, whose stop-visit at the station lacks what `e` says.
pub open spec fn trip_error(s: Schedule, t: Trip, stops: Seq<Seq<char>>, today: int, e: BoardError) -> bool {
    &&& !trip_complete(s, t, stops, today)
    &&& match e {
        BoardError::MissingDepartureTime { trip_id } => trip_id@ == t.trip_id@
            && t.stop_times@[station_visit(t, stops).unwrap()].departure_time.is_none(),
        BoardError::MissingHeadsign { trip_id } => trip_id@ == t.trip_id@ && t.headsign.is_none(),
        _ => false,
    }
}

/// `e` names a trip that would give departures but lacks what they need.
pub open spec fn names_incomplete_visit(s: Schedule, stops: Seq<Seq<char>>, today: int, e: BoardError) -> bool {
    exists|i: int| 0 <= i < s.trips@.len() && trip_error(s, #[trigger] s.trips@[i], stops, today, e)
}

/// Whether the days before and after `today` are representable.
pub open spec fn neighbours_exist(today: int) -> bool {
    i32::MIN < today < i32::MAX
}

proof fn lemma_first_boarding_stays(t: Trip, stops: Seq<Seq<char>>, n: int, m: int)
    requires
        n <= m,
        first_boarding(t, stops, n).is_some(),
    ensures
        first_boarding(t, stops, m) == first_boarding(t, stops, n),
    decreases m - n,
{
    if n < m {
        lemma_first_boarding_stays(t, stops, n, m - 1);
    }
}

proof fn lemma_first_boarding_in_range(t: Trip, stops: Seq<Seq<char>>, n: int)
    requires
        n <= t.stop_times@.len(),
    ensures
        first_boarding(t, stops, n) matches Some(j) ==> 0 <= j < n && boards_at(t.stop_times@[j], stops),
    decreases n,
{
    if n > 0 {
        lemma_first_boarding_in_range(t, stops, n - 1);
    }
}

proof fn lemma_first_boarding_same_station(t: Trip, a: Seq<Seq<char>>, b: Seq<Seq<char>>, n: int)
    requires
        forall|q: Seq<char>| a.contains(q) == b.contains(q),
    ensures
        first_boarding(t, a, n) == first_boarding(t, b, n),
    decreases n,
{
    if n > 0 {
        lemma_first_boarding_same_station(t, a, b, n - 1);
    }
}

proof fn lemma_schedule_same_station(s: Schedule, a: Seq<Seq<char>>, b: Seq<Seq<char>>, today: int, n: int)
    requires
        forall|q: Seq<char>| a.contains(q) == b.contains(q),
    ensures
        schedule_departures(s, a, today, n) == schedule_departures(s, b, today, n),
    decreases n,
{
    if n > 0 {
        lemma_schedule_same_station(s, a, b, today, n - 1);
        let t = s.trips@[n - 1];
        lemma_first_boarding_same_station(t, a, b, t.stop_times@.len() as int);
    }
}

/// A station is the set of its stop ids: two lists of stop ids that hold
/// the same ids, in any order and with any repetition, give the same
/// departures and the same verdict on missing data.
pub proof fn lemma_expansion_depends_on_stop_set(s: Schedule, a: Seq<Seq<char>>, b: Seq<Seq<char>>, today: int)
    requires
        a.to_set() == b.to_set(),
    ensures
        expansion(s, a, today) == expansion(s, b, today),
        expansion_complete(s, a, today) == expansion_complete(s, b, today),
{
    assert forall|q: Seq<char>| a.contains(q) == b.contains(q) by {
        assert(a.to_set().contains(q) == a.contains(q));
        assert(b.to_set().contains(q) == b.contains(q));
    }
    lemma_schedule_same_station(s, a, b, today, s.trips@.len() as int);
    assert forall|i: int| trip_incomplete_at(s, a, today, i) == trip_incomplete_at(s, b, today, i) by {
        if 0 <= i < s.trips@.len() {
            let t = s.trips@[i];
            lemma_first_boarding_same_station(t, a, b, t.stop_times@.len() as int);
        }
    }
}

/// A trip is listed at most once per service day, however many platforms
/// of the station it stops at: its departures there are at most three, all
/// of that trip, each a whole number of days after the one before.
pub proof fn lemma_trip_listed_once_per_day(s: Schedule, t: Trip, stops: Seq<Seq<char>>, today: int)
    ensures
        trip_departures(s, t, stops, today).len() <= 3,
        forall|k: int| 0 <= k < trip_departures(s, t, stops, today).len()
            ==> (#[trigger] trip_departures(s, t, stops, today)[k]).0 == t.trip_id@,
        forall|k: int, m: int| 0 <= k < m < trip_departures(s, t, stops, today).len() ==> {
            let gap = (#[trigger] trip_departures(s, t, stops, today)[m]).1
                - (#[trigger] trip_departures(s, t, stops, today)[k]).1;
            gap > 0 && gap % 86400 == 0
        },
{
    match station_visit(t, stops) {
        Some(j) => {
            let st = t.stop_times@[j];
            let d = today;
            let v0 = day_departures(s, t, st, d - 1);
            let v1 = day_departures(s, t, st, d);
            let v2 = day_departures(s, t, st, d + 1);
            let r = trip_departures(s, t, stops, today);
            if boards_at(st, stops) {
                assert(r == v0 + v1 + v2);
                assert(midnight_of(d) == midnight_of(d - 1) + 86400);
                assert(midnight_of(d + 1) == midnight_of(d) + 86400);
            }
        },
        None => {},
    }
}

/// Appends the departures of trip `t` at the station, or names what the
/// trip lacks.
fn expand_trip(
    s: &Schedule,
    t: &Trip,
    stop_ids: &Vec<String>,
    yesterday: Date,
    today: Date,
    tomorrow: Date,
    out: &mut Vec<Departure>,
) -> (r: Result<(), BoardError>)
    requires
        yesterday.day == today.day - 1,
        tomorrow.day == today.day + 1,
    ensures
        r.is_ok() == trip_complete(*s, *t, ids_of(stop_ids@), today.day as int),
        r.is_ok() ==> departures_view(final(out)@) == departures_view(old(out)@)
            + trip_departures(*s, *t, ids_of(stop_ids@), today.day as int),
        r matches Err(e) ==> trip_error(*s, *t, ids_of(stop_ids@), today.day as int, e),
{
    let ghost stops = ids_of(stop_ids@);
    let ghost d = today.day as int;
    let ghost start = departures_view(out@);
    let ghost len = t.stop_times@.len() as int;
    let mut j: usize = 0;
    while j < t.stop_times.len()
        invariant
            j <= t.stop_times.len(),
            stops == ids_of(stop_ids@),
            d == today.day as int,
            len == t.stop_times@.len(),
            start == departures_view(out@),
            start == departures_view(old(out)@),
            yesterday.day == today.day - 1,
            tomorrow.day == today.day + 1,
            first_boarding(*t, stops, j as int).is_none(),
        decreases t.stop_times.len() - j,
    {
        let st = &t.stop_times[j];
        if contains_id(stop_ids, &st.stop_id) && !matches!(st.pickup_type, PickupType::NotAvailable) {
            proof {
                lemma_first_boarding_stays(*t, stops, j + 1, len);
            }
            assert(station_visit(*t, stops) == Some(j as int));
            assert(boards_at(t.stop_times@[j as int], stops));
            let a0 = s.is_active(&t.service_id, yesterday);
            let a1 = s.is_active(&t.service_id, today);
            let a2 = s.is_active(&t.service_id, tomorrow);
            let ghost v0 = day_departures(*s, *t, *st, d - 1);
            let ghost v1 = day_departures(*s, *t, *st, d);
            let ghost v2 = day_departures(*s, *t, *st, d + 1);
            assert(trip_departures(*s, *t, stops, d) == v0 + v1 + v2);
            if a0 || a1 || a2 {
                let secs = match st.departure_time {
                    Some(x) => x,
                    None => {
                        assert(!visit_complete(*s, *t, t.stop_times@[j as int], stops, d));
                        return Err(BoardError::MissingDepartureTime { trip_id: t.trip_id.clone() });
                    },
                };
                let head = match &t.headsign {
                    Some(h) => h,
                    None => {
                        assert(!visit_complete(*s, *t, t.stop_times@[j as int], stops, d));
                        return Err(BoardError::MissingHeadsign { trip_id: t.trip_id.clone() });
                    },
                };
                if a0 {
                    let dep = Departure::new(&t.trip_id, yesterday.at_seconds(secs), head);
                    let ghost prev = out@;
                    out.push(dep);
                    proof { lemma_view_push(prev, dep); }
                }
                assert(departures_view(out@) =~= start + v0);
                if a1 {
                    let dep = Departure::new(&t.trip_id, today.at_seconds(secs), head);
                    let ghost prev = out@;
                    out.push(dep);
                    proof { lemma_view_push(prev, dep); }
                }
                assert(departures_view(out@) =~= start + v0 + v1);
                if a2 {
                    let dep = Departure::new(&t.trip_id, tomorrow.at_seconds(secs), head);
                    let ghost prev = out@;
                    out.push(dep);
                    proof { lemma_view_push(prev, dep); }
                }
                assert(departures_view(out@) =~= start + v0 + v1 + v2);
            } else {
                assert(departures_view(out@) =~= start + v0 + v1 + v2);
            }
            assert(departures_view(out@) =~= start + trip_departures(*s, *t, stops, d));
            return Ok(());
        }
        j += 1;
    }
    assert(departures_view(out@) =~= start + trip_departures(*s, *t, stops, d));
    Ok(())
}

/// Every departure at the station `stop_ids` from the timetable, for the
/// service days yesterday, today and tomorrow, in timetable order: trip by
/// trip, day by day, each trip at its first boarding stop-visit at the
/// station. Fails where the neighbouring days are not representable, or
/// where a departure would lack its time or headsign.
pub fn expand(s: &Schedule, stop_ids: &Vec<String>, today: Date) -> (r: Result<Vec<Departure>, BoardError>)
    ensures
        r.is_ok() == (neighbours_exist(today.day as int) && expansion_complete(*s, ids_of(stop_ids@), today.day as int)),
        r matches Ok(v) ==> departures_view(v@) == expansion(*s, ids_of(stop_ids@), today.day as int),
        r matches Err(e) ==> if neighbours_exist(today.day as int) {
            names_incomplete_visit(*s, ids_of(stop_ids@), today.day as int, e)
        } else {
            e == BoardError::DateOutOfRange
        },
{
    let ghost stops = ids_of(stop_ids@);
    let ghost d = today.day as int;
    let yesterday = match today.pred() {
        Some(y) => y,
        None => {
            return Err(BoardError::DateOutOfRange);
        },
    };
    let tomorrow = match today.succ() {
        Some(t) => t,
        None => {
            return Err(BoardError::DateOutOfRange);
        },
    };
    let mut out: Vec<Departure> = Vec::new();
    let mut i: usize = 0;
    while i < s.trips.len()
        invariant
            i <= s.trips.len(),
            yesterday.day == today.day - 1,
            tomorrow.day == today.day + 1,
            stops == ids_of(stop_ids@),
            d == today.day as int,
            departures_view(out@) == schedule_departures(*s, stops, d, i as int),
            forall|k: int| 0 <= k < i ==> !trip_incomplete_at(*s, stops, d, k),
        decreases s.trips.len() - i,
    {
        let t = &s.trips[i];
        let res = expand_trip(s, t, stop_ids, yesterday, today, tomorrow, &mut out);
        match res {
            Ok(()) => {},
            Err(e) => {
                assert(trip_incomplete_at(*s, stops, d, i as int));
                assert(trip_error(*s, s.trips@[i as int], stops, d, e));
                return Err(e);
            },
        }
        i += 1;
    }
    assert(expansion_complete(*s, stops, d));
    Ok(out)
}

} // verus!
