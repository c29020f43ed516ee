//! Resolved departures and the errors that abort a board refresh.
use vstd::prelude::*;

verus! {

/// One departure as shown on the board: trip, local timestamp in seconds,
/// destination label.
#[derive(Clone, Debug)]
pub struct Departure {
    pub trip_id: String,
    pub time: i64,
    pub headsign: String,
}

/// What a departure means: trip id, timestamp and headsign.
pub type DepartureView = (Seq<char>, int, Seq<char>);

impl View for Departure {
    type V = DepartureView;

    open spec fn view(&self) -> DepartureView {
        (self.trip_id@, self.time as int, self.headsign@)
    }
}

/// The meaning of each departure of a sequence.
pub open spec fn departures_view(v: Seq<Departure>) -> Seq<DepartureView> {
    v.map_values(|d: Departure| d@)
}

/// The meaning of a sequence grows by one with a push.
pub proof fn lemma_view_push(v: Seq<Departure>, x: Departure)
    ensures
        departures_view(v.push(x)) == departures_view(v).push(x@),
{
    assert(departures_view(v.push(x)) =~= departures_view(v).push(x@));
}

/// Why a board could not be computed. Every one of them aborts the refresh.
#[derive(Clone, Debug)]
pub enum BoardError {
    /// No stop carries the requested station name.
    StationNotFound,
    /// The day before or after today is not representable.
    DateOutOfRange,
    /// A boarding stop-visit of a running trip has no departure time.
    MissingDepartureTime { trip_id: String },
    /// A running trip that boards at the station has no headsign.
    MissingHeadsign { trip_id: String },
    /// A delay moves a departure past the representable timestamps.
    TimeOutOfRange { trip_id: String },
}

impl Departure {
    /// A departure whose parts are copies of the given ones.
    pub fn new(trip_id: &String, time: i64, headsign: &String) -> (r: Departure)
        ensures
            r@ == (trip_id@, time as int, headsign@),
    {
        Departure { trip_id: trip_id.clone(), time, headsign: headsign.clone() }
    }
}

} // verus!
