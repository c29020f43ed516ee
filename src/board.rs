//! The display window and the time order of the board.
use vstd::prelude::*;
use crate::date::{Date, midnight_of};
use crate::departure::{BoardError, Departure, DepartureView, departures_view, lemma_view_push};
use crate::expand::{
    expand, expansion, expansion_complete, names_incomplete_visit, neighbours_exist, station_stop_ids,
    stop_ids_for_station,
};
use crate::realtime::{Feed, resolvable, resolve_delays, resolve_view};
use crate::schedule::{ids_of, Schedule};

verus! {

/// The last instant the board shows: the cutoff on the day after `today`
/// once the time of day `now_secs` has passed the cutoff, else the cutoff on
/// `today` itself.
pub open spec fn window_end(today: int, now_secs: int, cutoff_secs: int) -> int {
    if now_secs > cutoff_secs {
        midnight_of(today + 1) + cutoff_secs
    } else {
        midnight_of(today) + cutoff_secs
    }
}

/// Departure `d` lies in the window from `now` to `end`, both included.
pub open spec fn in_window(now: int, end: int) -> spec_fn(DepartureView) -> bool {
    |d: DepartureView| now <= d.1 <= end
}

/// Departure `d` leaves at `t`.
pub open spec fn leaves_at(t: int) -> spec_fn(DepartureView) -> bool {
    |d: DepartureView| d.1 == t
}

/// The departures of `s` leave in ascending time.
pub open spec fn sorted_by_time(s: Seq<DepartureView>) -> bool {
    forall|i: int, j: int| 0 <= i < j < s.len() ==> s[i].1 <= s[j].1
}

/// `r` is `s` ordered by time, departures of equal time kept in the order
/// of `s`: `r` is sorted, and at each instant it lists what `s` lists then,
/// in the same order.
pub open spec fn stable_time_sort_of(r: Seq<DepartureView>, s: Seq<DepartureView>) -> bool {
    &&& sorted_by_time(r)
    &&& forall|t: int| #[trigger] r.filter(leaves_at(t)) == s.filter(leaves_at(t))
}

/// The end of the display window for local day `today`, time of day
/// `now_secs` and daily cutoff `cutoff_secs`, both in seconds after midnight.
pub fn window_upper_bound(today: Date, now_secs: u32, cutoff_secs: u32) -> (r: i64)
    ensures
        r as int == window_end(today.day as int, now_secs as int, cutoff_secs as int),
{
    if now_secs > cutoff_secs {
        (today.day as i64 + 1) * 86400 + cutoff_secs as i64
    } else {
        today.midnight() + cutoff_secs as i64
    }
}

proof fn lemma_filter_push(s: Seq<DepartureView>, x: DepartureView, p: spec_fn(DepartureView) -> bool)
    ensures
        s.push(x).filter(p) == (if p(x) { s.filter(p).push(x) } else { s.filter(p) }),
{
    reveal(Seq::filter);
    assert(s.push(x).drop_last() =~= s);
}

/// The departures that lie in the window from `now` to `end`, both
/// included, in their order.
pub fn filter_window(deps: &Vec<Departure>, now: i64, end: i64) -> (r: Vec<Departure>)
    ensures
        departures_view(r@) == departures_view(deps@).filter(in_window(now as int, end as int)),
{
    let ghost p = in_window(now as int, end as int);
    let mut out: Vec<Departure> = Vec::new();
    let mut i: usize = 0;
    while i < deps.len()
        invariant
            i <= deps.len(),
            p == in_window(now as int, end as int),
            departures_view(out@) == departures_view(deps@.take(i as int)).filter(p),
        decreases deps.len() - i,
    {
        let d = &deps[i];
        assert(departures_view(deps@.take(i + 1)) =~= departures_view(deps@.take(i as int)).push(d@));
        proof {
            lemma_filter_push(departures_view(deps@.take(i as int)), d@, p);
        }
        if now <= d.time && d.time <= end {
            let nd = Departure::new(&d.trip_id, d.time, &d.headsign);
            let ghost prev = out@;
            out.push(nd);
            proof {
                lemma_view_push(prev, nd);
            }
        }
        i += 1;
    }
    assert(deps@.take(i as int) =~= deps@);
    out
}

proof fn lemma_filter_none(s: Seq<DepartureView>, p: spec_fn(DepartureView) -> bool)
    requires
        forall|k: int| 0 <= k < s.len() ==> !p(#[trigger] s[k]),
    ensures
        s.filter(p) == Seq::<DepartureView>::empty(),
    decreases s.len(),
{
    reveal(Seq::filter);
    if s.len() > 0 {
        assert forall|k: int| 0 <= k < s.drop_last().len() implies !p(#[trigger] s.drop_last()[k]) by {
            assert(s.drop_last()[k] == s[k]);
        }
        lemma_filter_none(s.drop_last(), p);
        assert(!p(s[s.len() - 1]));
    }
    assert(s.filter(p) =~= Seq::<DepartureView>::empty());
}

proof fn lemma_insert_sorted(s: Seq<DepartureView>, pos: int, x: DepartureView)
    requires
        sorted_by_time(s),
        0 <= pos <= s.len(),
        forall|k: int| 0 <= k < pos ==> (#[trigger] s[k]).1 <= x.1,
        forall|k: int| pos <= k < s.len() ==> (#[trigger] s[k]).1 > x.1,
    ensures
        sorted_by_time(s.insert(pos, x)),
        forall|t: int| #[trigger] s.insert(pos, x).filter(leaves_at(t)) == s.push(x).filter(leaves_at(t)),
{
    let r = s.insert(pos, x);
    assert forall|k: int| 0 <= k < r.len() implies #[trigger] r[k] == (if k < pos { s[k] } else if k == pos { x } else { s[k - 1] }) by {}
    let a = s.subrange(0, pos);
    let b = s.subrange(pos, s.len() as int);
    assert(s =~= a + b);
    assert(r =~= a + (seq![x] + b));
    assert forall|t: int| #[trigger] r.filter(leaves_at(t)) == s.push(x).filter(leaves_at(t)) by {
        let p = leaves_at(t);
        Seq::filter_distributes_over_add(a, seq![x] + b, p);
        Seq::filter_distributes_over_add(seq![x], b, p);
        Seq::filter_distributes_over_add(a, b, p);
        lemma_filter_push(s, x, p);
        lemma_filter_push(Seq::<DepartureView>::empty(), x, p);
        assert(Seq::<DepartureView>::empty().push(x) =~= seq![x]);
        assert(Seq::<DepartureView>::empty().filter(p) =~= Seq::<DepartureView>::empty()) by {
            reveal(Seq::filter);
        }
        if t == x.1 {
            assert forall|k: int| 0 <= k < b.len() implies !p(#[trigger] b[k]) by {
                assert(b[k] == s[pos + k]);
            }
            lemma_filter_none(b, p);
            assert(r.filter(p) =~= a.filter(p).push(x));
            assert(s.filter(p) =~= a.filter(p));
        } else {
            assert(r.filter(p) =~= a.filter(p) + b.filter(p));
        }
    }
}

/// The departures ordered by time; departures of equal time keep their
/// relative order.
pub fn sort_by_time(deps: Vec<Departure>) -> (r: Vec<Departure>)
    ensures
        stable_time_sort_of(departures_view(r@), departures_view(deps@)),
{
    let mut out: Vec<Departure> = Vec::new();
    let mut i: usize = 0;
    assert(departures_view(out@) =~= departures_view(deps@.take(0)));
    while i < deps.len()
        invariant
            i <= deps.len(),
            stable_time_sort_of(departures_view(out@), departures_view(deps@.take(i as int))),
        decreases deps.len() - i,
    {
        let d = &deps[i];
        let mut pos: usize = 0;
        while pos < out.len() && out[pos].time <= d.time
            invariant
                pos <= out.len(),
                forall|k: int| 0 <= k < pos ==> (#[trigger] out@[k]).time <= d.time,
            decreases out.len() - pos,
        {
            pos += 1;
        }
        let ghost before = departures_view(out@);
        assert forall|k: int| pos <= k < before.len() implies (#[trigger] before[k]).1 > d.time by {
            assert(before[pos as int].1 > d.time);
        }
        proof {
            lemma_insert_sorted(before, pos as int, d@);
        }
        let ghost prev = out@;
        out.insert(pos, Departure::new(&d.trip_id, d.time, &d.headsign));
        assert(departures_view(out@) =~= before.insert(pos as int, d@));
        assert(departures_view(deps@.take(i + 1)) =~= departures_view(deps@.take(i as int)).push(d@));
        assert forall|t: int| #[trigger] departures_view(out@).filter(leaves_at(t))
            == departures_view(deps@.take(i + 1)).filter(leaves_at(t)) by {
            lemma_filter_push(before, d@, leaves_at(t));
            lemma_filter_push(departures_view(deps@.take(i as int)), d@, leaves_at(t));
        }
        i += 1;
    }
    assert(deps@.take(i as int) =~= deps@);
    out
}

/// Both ends of the window are included: a departure that leaves exactly
/// now, or exactly at the end of the window, stays on the board, and one
/// outside the window does not.
pub proof fn lemma_window_inclusive(s: Seq<DepartureView>, now: int, end: int, k: int)
    requires
        0 <= k < s.len(),
    ensures
        s.filter(in_window(now, end)).contains(s[k]) <== (s[k].1 == now || s[k].1 == end) && now <= end,
        !(now <= s[k].1 <= end) ==> !s.filter(in_window(now, end)).contains(s[k]),
{
    broadcast use vstd::seq_lib::group_filter_ensures;
    let f = s.filter(in_window(now, end));
    if f.contains(s[k]) {
        let m = choose|m: int| 0 <= m < f.len() && f[m] == s[k];
        assert(in_window(now, end)(f[m]));
    }
}

/// Every departure of the timetable at the station `stops`, moved by its
/// real-time delay, that lies in the display window of local day `today`
/// at time of day `now_secs` with daily cutoff `cutoff_secs`; in timetable
/// order.
pub open spec fn board_departures(
    s: Schedule,
    feed: Feed,
    stops: Seq<Seq<char>>,
    today: int,
    now_secs: int,
    cutoff_secs: int,
) -> Seq<DepartureView> {
    expansion(s, stops, today).map_values(|d: DepartureView| resolve_view(feed, stops, d)).filter(
        in_window(midnight_of(today) + now_secs, window_end(today, now_secs, cutoff_secs)),
    )
}

/// Every delayed departure of the station fits a timestamp.
pub open spec fn delays_resolvable(s: Schedule, feed: Feed, stops: Seq<Seq<char>>, today: int) -> bool {
    forall|k: int| 0 <= k < expansion(s, stops, today).len()
        ==> resolvable(feed, stops, #[trigger] expansion(s, stops, today)[k])
}

/// The board for station `station` can be computed.
pub open spec fn board_ok(s: Schedule, feed: Feed, station: Seq<char>, today: int) -> bool {
    let stops = station_stop_ids(s.stops@, station);
    &&& stops.len() > 0
    &&& neighbours_exist(today)
    &&& expansion_complete(s, stops, today)
    &&& delays_resolvable(s, feed, stops, today)
}

/// `e` is the reason why the board for `station` cannot be computed: the
/// first failing step decides.
pub open spec fn board_error(s: Schedule, feed: Feed, station: Seq<char>, today: int, e: BoardError) -> bool {
    let stops = station_stop_ids(s.stops@, station);
    if stops.len() == 0 {
        e == BoardError::StationNotFound
    } else if !neighbours_exist(today) {
        e == BoardError::DateOutOfRange
    } else if !expansion_complete(s, stops, today) {
        names_incomplete_visit(s, stops, today, e)
    } else {
        exists|k: int| 0 <= k < expansion(s, stops, today).len()
            && !resolvable(feed, stops, #[trigger] expansion(s, stops, today)[k])
            && (e matches BoardError::TimeOutOfRange { trip_id } && trip_id@ == expansion(s, stops, today)[k].0)
    }
}

/// The departure board of station `station` (exact stop name) on local day
/// `today` at time of day `now_secs`, with daily cutoff `cutoff_secs`:
/// the station's departures from the timetable, moved by their real-time
/// delays, from now to the end of the display window, ordered by time.
/// Any failure aborts the whole board.
pub fn departure_board(
    s: &Schedule,
    feed: &Feed,
    station: &String,
    today: Date,
    now_secs: u32,
    cutoff_secs: u32,
) -> (r: Result<Vec<Departure>, BoardError>)
    ensures
        r.is_ok() == board_ok(*s, *feed, station@, today.day as int),
        r matches Ok(v) ==> stable_time_sort_of(
            departures_view(v@),
            board_departures(
                *s,
                *feed,
                station_stop_ids(s.stops@, station@),
                today.day as int,
                now_secs as int,
                cutoff_secs as int,
            ),
        ),
        r matches Err(e) ==> board_error(*s, *feed, station@, today.day as int, e),
{
    let ghost d = today.day as int;
    let stop_ids = stop_ids_for_station(&s.stops, station);
    let ghost stops = ids_of(stop_ids@);
    if stop_ids.len() == 0 {
        return Err(BoardError::StationNotFound);
    }
    let expanded = match expand(s, &stop_ids, today) {
        Ok(v) => v,
        Err(e) => {
            return Err(e);
        },
    };
    let resolved = match resolve_delays(&expanded, feed, &stop_ids) {
        Ok(v) => v,
        Err(e) => {
            assert(departures_view(expanded@) == expansion(*s, stops, d));
            let ghost k = choose|k: int| 0 <= k < expanded@.len() && !resolvable(*feed, stops, #[trigger] expanded@[k]@)
                && e == (BoardError::TimeOutOfRange { trip_id: expanded@[k].trip_id });
            assert(expansion(*s, stops, d)[k] == expanded@[k]@);
            return Err(e);
        },
    };
    assert forall|k: int| 0 <= k < expansion(*s, stops, d).len()
        implies resolvable(*feed, stops, #[trigger] expansion(*s, stops, d)[k]) by {
        assert(expansion(*s, stops, d)[k] == departures_view(expanded@)[k]);
        assert(resolvable(*feed, stops, expanded@[k]@));
    }
    let now = today.at_seconds(now_secs);
    let end = window_upper_bound(today, now_secs, cutoff_secs);
    let shown = filter_window(&resolved, now, end);
    Ok(sort_by_time(shown))
}

} // verus!
