use train_display::board::{departure_board, filter_window, sort_by_time, window_upper_bound};
use train_display::date::Date;
use train_display::departure::{BoardError, Departure};
use train_display::expand::{expand, stop_ids_for_station};
use train_display::realtime::{
    apply_delay, match_delay, resolve_delays, Feed, FeedEntity, StopTimeUpdate, TripUpdate,
};
use train_display::schedule::{
    service_ids_for, CalendarException, ExceptionKind, PickupType, Schedule, ServiceCalendar, Stop,
    StopTime, Trip,
};

fn ymd(y: i32, m: u32, d: u32) -> Date {
    Date::from_ymd(y, m, d).unwrap()
}

fn s(x: &str) -> String {
    x.to_string()
}

fn calendar(id: &str, days: [bool; 7], start: Date, end: Date) -> ServiceCalendar {
    ServiceCalendar {
        service_id: s(id),
        monday: days[0],
        tuesday: days[1],
        wednesday: days[2],
        thursday: days[3],
        friday: days[4],
        saturday: days[5],
        sunday: days[6],
        start_date: start,
        end_date: end,
    }
}

fn mon_wed_fri() -> ServiceCalendar {
    calendar(
        "MWF",
        [true, false, true, false, true, false, false],
        ymd(2024, 1, 1),
        ymd(2024, 1, 31),
    )
}

fn exception(id: &str, date: Date, kind: ExceptionKind) -> CalendarException {
    CalendarException { service_id: s(id), date, kind }
}

fn visit(stop: &str, secs: u32) -> StopTime {
    StopTime { stop_id: s(stop), pickup_type: PickupType::Regular, departure_time: Some(secs) }
}

fn trip(id: &str, service: &str, headsign: &str, stop_times: Vec<StopTime>) -> Trip {
    Trip {
        trip_id: s(id),
        service_id: s(service),
        headsign: Some(s(headsign)),
        stop_times,
    }
}

fn schedule(calendars: Vec<ServiceCalendar>, exceptions: Vec<CalendarException>, trips: Vec<Trip>) -> Schedule {
    Schedule {
        calendars,
        exceptions,
        stops: vec![
            Stop { id: s("NORTH"), name: Some(s("Central")) },
            Stop { id: s("SOUTH"), name: Some(s("Central")) },
            Stop { id: s("X"), name: Some(s("Elsewhere")) },
            Stop { id: s("Q"), name: None },
        ],
        trips,
    }
}

fn dep(id: &str, time: i64) -> Departure {
    Departure { trip_id: s(id), time, headsign: s("Downtown") }
}

fn empty_feed() -> Feed {
    Feed { entities: vec![] }
}

fn delay_feed(trip_id: &str, stop: &str, delay: i32) -> Feed {
    Feed {
        entities: vec![FeedEntity {
            trip_update: Some(TripUpdate {
                trip_id: Some(s(trip_id)),
                stop_time_updates: vec![StopTimeUpdate { stop_id: Some(s(stop)), departure_delay: Some(delay) }],
            }),
        }],
    }
}

fn times(v: &[Departure]) -> Vec<i64> {
    v.iter().map(|d| d.time).collect()
}

#[test]
fn day_numbers_follow_the_calendar() {
    assert_eq!(Date::from_ymd(1, 1, 1), Some(Date { day: 1 }));
    assert_eq!(Date::from_ymd(0, 1, 1), Some(Date { day: -365 }));
    assert_eq!(Date::from_ymd(2024, 1, 3), Some(Date { day: 738888 }));
    assert_eq!(Date::from_ymd(2024, 2, 29), Some(Date { day: 738945 }));
    assert_eq!(Date::from_ymd(2024, 1, 0), None);
    assert_eq!(Date::from_ymd(262143, 1, 1), None);
    assert_eq!(ymd(2024, 1, 2).day - ymd(2023, 12, 31).day, 2);
    assert_eq!(ymd(2024, 3, 1).day - ymd(2024, 2, 28).day, 2);
    assert_eq!(Date::from_ymd(2023, 2, 29), None);
    assert_eq!(Date::from_ymd(2024, 13, 1), None);
}

#[test]
fn weekdays_start_on_monday() {
    assert_eq!(ymd(2024, 1, 1).weekday(), 0);
    assert_eq!(ymd(2024, 1, 3).weekday(), 2);
    assert_eq!(ymd(2024, 1, 4).weekday(), 3);
    assert_eq!(ymd(2024, 1, 7).weekday(), 6);
    assert_eq!(Date { day: -6 }.weekday(), 0);
    assert_eq!(Date { day: 0 }.weekday(), 6);
}

#[test]
fn neighbouring_days() {
    let d = ymd(2024, 1, 1);
    assert_eq!(d.pred(), Some(ymd(2023, 12, 31)));
    assert_eq!(d.succ(), Some(ymd(2024, 1, 2)));
    assert_eq!(Date { day: i32::MIN }.pred(), None);
    assert_eq!(Date { day: i32::MAX }.succ(), None);
    assert_eq!(Date { day: 2 }.at_seconds(3600), 2 * 86400 + 3600);
}

#[test]
fn calendar_weekday_rule() {
    let sch = schedule(vec![mon_wed_fri()], vec![], vec![]);
    assert!(sch.is_active(&s("MWF"), ymd(2024, 1, 3)));
    assert!(!sch.is_active(&s("MWF"), ymd(2024, 1, 4)));
    assert!(!sch.is_active(&s("MWF"), ymd(2024, 2, 2)));
    assert!(!sch.is_active(&s("MWF"), ymd(2023, 12, 29)));
    assert!(!sch.is_active(&s("OTHER"), ymd(2024, 1, 3)));
    assert_eq!(service_ids_for(&sch, ymd(2024, 1, 3)), vec![s("MWF")]);
    assert!(service_ids_for(&sch, ymd(2024, 1, 4)).is_empty());
}

#[test]
fn calendar_added_exception_wins() {
    let sch = schedule(vec![mon_wed_fri()], vec![exception("MWF", ymd(2024, 1, 4), ExceptionKind::Added)], vec![]);
    assert!(sch.is_active(&s("MWF"), ymd(2024, 1, 4)));
    assert_eq!(service_ids_for(&sch, ymd(2024, 1, 4)), vec![s("MWF")]);
    assert!(sch.is_active(&s("MWF"), ymd(2024, 1, 3)));
}

#[test]
fn calendar_removed_exception_wins() {
    let sch = schedule(vec![mon_wed_fri()], vec![exception("MWF", ymd(2024, 1, 3), ExceptionKind::Removed)], vec![]);
    assert!(!sch.is_active(&s("MWF"), ymd(2024, 1, 3)));
    assert!(service_ids_for(&sch, ymd(2024, 1, 3)).is_empty());
    assert!(sch.is_active(&s("MWF"), ymd(2024, 1, 5)));
}

#[test]
fn calendar_last_exception_decides() {
    let day = ymd(2024, 1, 4);
    let sch = schedule(
        vec![mon_wed_fri()],
        vec![
            exception("MWF", day, ExceptionKind::Added),
            exception("MWF", day, ExceptionKind::Removed),
        ],
        vec![],
    );
    assert!(!sch.is_active(&s("MWF"), day));
    let sch = schedule(
        vec![],
        vec![
            exception("EXTRA", day, ExceptionKind::Removed),
            exception("EXTRA", day, ExceptionKind::Added),
            exception("EXTRA", day, ExceptionKind::Added),
        ],
        vec![],
    );
    assert!(sch.is_active(&s("EXTRA"), day));
    assert_eq!(service_ids_for(&sch, day), vec![s("EXTRA")]);
}

#[test]
fn overnight_trip_lands_on_the_right_day() {
    let today = ymd(2024, 1, 6);
    let yesterday = ymd(2024, 1, 5);
    let sch = schedule(
        vec![mon_wed_fri()],
        vec![],
        vec![trip("NIGHT", "MWF", "Downtown", vec![visit("NORTH", 90000)])],
    );
    let out = expand(&sch, &vec![s("NORTH")], today).unwrap();
    assert_eq!(out.len(), 1);
    assert_eq!(out[0].trip_id, "NIGHT");
    assert_eq!(out[0].time, yesterday.midnight() + 90000);
    assert_eq!(out[0].time, today.at_seconds(3600));
    // On a Thursday the Wednesday run lands at 01:00 and Friday's is its own.
    let thursday = ymd(2024, 1, 4);
    let out = expand(&sch, &vec![s("NORTH")], thursday).unwrap();
    assert_eq!(times(&out), vec![thursday.at_seconds(3600), thursday.at_seconds(3600) + 2 * 86400]);
}

#[test]
fn expansion_covers_three_days_in_order() {
    let every_day = calendar("ALL", [true; 7], ymd(2024, 1, 1), ymd(2024, 1, 31));
    let today = ymd(2024, 1, 10);
    let sch = schedule(
        vec![every_day],
        vec![],
        vec![trip("T", "ALL", "Downtown", vec![visit("NORTH", 28800), visit("X", 29000)])],
    );
    let out = expand(&sch, &vec![s("NORTH")], today).unwrap();
    assert_eq!(
        times(&out),
        vec![today.at_seconds(28800) - 86400, today.at_seconds(28800), today.at_seconds(28800) + 86400]
    );
}

#[test]
fn drop_off_only_visits_are_skipped() {
    let every_day = calendar("ALL", [true; 7], ymd(2024, 1, 1), ymd(2024, 1, 31));
    let mut v = visit("NORTH", 28800);
    v.pickup_type = PickupType::NotAvailable;
    v.departure_time = None;
    let sch = schedule(vec![every_day], vec![], vec![trip("T", "ALL", "Downtown", vec![v])]);
    assert!(expand(&sch, &vec![s("NORTH")], ymd(2024, 1, 10)).unwrap().is_empty());
}

#[test]
fn missing_departure_time_is_an_error() {
    let every_day = calendar("ALL", [true; 7], ymd(2024, 1, 1), ymd(2024, 1, 31));
    let mut v = visit("NORTH", 0);
    v.departure_time = None;
    let sch = schedule(vec![every_day], vec![], vec![trip("T", "ALL", "Downtown", vec![v])]);
    match expand(&sch, &vec![s("NORTH")], ymd(2024, 1, 10)) {
        Err(BoardError::MissingDepartureTime { trip_id }) => assert_eq!(trip_id, "T"),
        other => panic!("unexpected {:?}", other),
    }
}

#[test]
fn missing_headsign_is_an_error() {
    let every_day = calendar("ALL", [true; 7], ymd(2024, 1, 1), ymd(2024, 1, 31));
    let mut t = trip("T", "ALL", "Downtown", vec![visit("NORTH", 100)]);
    t.headsign = None;
    let sch = schedule(vec![every_day], vec![], vec![t]);
    match expand(&sch, &vec![s("NORTH")], ymd(2024, 1, 10)) {
        Err(BoardError::MissingHeadsign { trip_id }) => assert_eq!(trip_id, "T"),
        other => panic!("unexpected {:?}", other),
    }
    // A trip that does not run near today is never expanded.
    assert!(expand(&sch, &vec![s("NORTH")], ymd(2024, 3, 10)).unwrap().is_empty());
}

#[test]
fn date_out_of_range_is_an_error() {
    let sch = schedule(vec![], vec![], vec![]);
    assert!(matches!(expand(&sch, &vec![s("NORTH")], Date { day: i32::MAX }), Err(BoardError::DateOutOfRange)));
    assert!(matches!(expand(&sch, &vec![s("NORTH")], Date { day: i32::MIN }), Err(BoardError::DateOutOfRange)));
}

#[test]
fn station_has_two_platforms() {
    let sch = schedule(vec![], vec![], vec![]);
    assert_eq!(stop_ids_for_station(&sch.stops, &s("Central")), vec![s("NORTH"), s("SOUTH")]);
    assert!(stop_ids_for_station(&sch.stops, &s("central")).is_empty());
}

#[test]
fn multi_stop_station_unions_platforms() {
    let every_day = calendar("ALL", [true; 7], ymd(2024, 1, 1), ymd(2024, 1, 31));
    let today = ymd(2024, 1, 10);
    let sch = schedule(
        vec![every_day],
        vec![],
        vec![
            trip("A", "ALL", "Downtown", vec![visit("NORTH", 28800)]),
            trip("B", "ALL", "Uptown", vec![visit("SOUTH", 29000)]),
        ],
    );
    let stops = stop_ids_for_station(&sch.stops, &s("Central"));
    let out = expand(&sch, &stops, today).unwrap();
    assert_eq!(out.len(), 6);
    let doubled = vec![s("NORTH"), s("SOUTH"), s("NORTH"), s("SOUTH")];
    let again = expand(&sch, &doubled, today).unwrap();
    assert_eq!(times(&out), times(&again));
}

#[test]
fn delay_is_applied() {
    let eight = ymd(2024, 1, 10).at_seconds(8 * 3600);
    assert_eq!(apply_delay(eight, Some(120)), Some(eight + 120));
    assert_eq!(apply_delay(eight, Some(-60)), Some(eight - 60));
    assert_eq!(apply_delay(eight, None), Some(eight));
    assert_eq!(apply_delay(i64::MAX, Some(1)), None);
    let stops = vec![s("NORTH")];
    let late = resolve_delays(&vec![dep("T", eight)], &delay_feed("T", "NORTH", 120), &stops).unwrap();
    assert_eq!(late[0].time, ymd(2024, 1, 10).at_seconds(8 * 3600 + 120));
    let early = resolve_delays(&vec![dep("T", eight)], &delay_feed("T", "NORTH", -60), &stops).unwrap();
    assert_eq!(early[0].time, ymd(2024, 1, 10).at_seconds(7 * 3600 + 59 * 60));
    let same = resolve_delays(&vec![dep("T", eight)], &delay_feed("U", "NORTH", 300), &stops).unwrap();
    assert_eq!(same[0].time, eight);
}

#[test]
fn delay_out_of_range_is_an_error() {
    let r = resolve_delays(&vec![dep("T", i64::MAX - 10)], &delay_feed("T", "NORTH", 60), &vec![s("NORTH")]);
    match r {
        Err(BoardError::TimeOutOfRange { trip_id }) => assert_eq!(trip_id, "T"),
        other => panic!("unexpected {:?}", other),
    }
}

#[test]
fn delay_matching_takes_first_update_with_delay() {
    let feed = Feed {
        entities: vec![
            FeedEntity { trip_update: None },
            FeedEntity {
                trip_update: Some(TripUpdate {
                    trip_id: Some(s("T")),
                    stop_time_updates: vec![
                        StopTimeUpdate { stop_id: Some(s("X")), departure_delay: Some(999) },
                        StopTimeUpdate { stop_id: Some(s("SOUTH")), departure_delay: None },
                        StopTimeUpdate { stop_id: None, departure_delay: Some(5) },
                        StopTimeUpdate { stop_id: Some(s("SOUTH")), departure_delay: Some(42) },
                        StopTimeUpdate { stop_id: Some(s("NORTH")), departure_delay: Some(7) },
                    ],
                }),
            },
            FeedEntity {
                trip_update: Some(TripUpdate {
                    trip_id: Some(s("T")),
                    stop_time_updates: vec![StopTimeUpdate { stop_id: Some(s("NORTH")), departure_delay: Some(1) }],
                }),
            },
        ],
    };
    let stops = vec![s("NORTH"), s("SOUTH")];
    assert_eq!(match_delay(&feed, &s("T"), &stops), Some(42));
    assert_eq!(match_delay(&feed, &s("U"), &stops), None);
    assert_eq!(match_delay(&empty_feed(), &s("T"), &stops), None);
}

#[test]
fn window_upper_bound_follows_cutoff() {
    let today = ymd(2024, 1, 10);
    let cutoff = 2 * 3600;
    assert_eq!(window_upper_bound(today, 3600 + 1800, cutoff), today.at_seconds(cutoff));
    assert_eq!(window_upper_bound(today, 2 * 3600 + 1800, cutoff), today.at_seconds(cutoff) + 86400);
    assert_eq!(window_upper_bound(today, cutoff, cutoff), today.at_seconds(cutoff));
}

#[test]
fn window_bounds_are_inclusive() {
    let deps = vec![dep("A", 99), dep("B", 100), dep("C", 150), dep("D", 200), dep("E", 201)];
    let kept = filter_window(&deps, 100, 200);
    let ids: Vec<String> = kept.iter().map(|d| d.trip_id.clone()).collect();
    assert_eq!(ids, vec![s("B"), s("C"), s("D")]);
}

#[test]
fn output_is_ordered_by_time() {
    let base = ymd(2024, 1, 10).midnight();
    let deps = vec![
        dep("A", base + 8 * 3600 + 300),
        dep("B", base + 8 * 3600),
        dep("C", base + 8 * 3600 + 600),
    ];
    let sorted = sort_by_time(deps);
    let ids: Vec<String> = sorted.iter().map(|d| d.trip_id.clone()).collect();
    assert_eq!(ids, vec![s("B"), s("A"), s("C")]);
}

#[test]
fn equal_times_keep_their_order() {
    let sorted = sort_by_time(vec![dep("A", 5), dep("B", 3), dep("C", 5), dep("D", 3), dep("E", 1)]);
    let ids: Vec<String> = sorted.iter().map(|d| d.trip_id.clone()).collect();
    assert_eq!(ids, vec![s("E"), s("B"), s("D"), s("A"), s("C")]);
    assert!(sort_by_time(vec![]).is_empty());
}

#[test]
fn board_end_to_end() {
    let every_day = calendar("ALL", [true; 7], ymd(2024, 1, 1), ymd(2024, 1, 31));
    let today = ymd(2024, 1, 10);
    let sch = schedule(
        vec![every_day],
        vec![],
        vec![
            trip("LATE", "ALL", "Downtown", vec![visit("NORTH", 8 * 3600 + 300)]),
            trip("EARLY", "ALL", "Uptown", vec![visit("SOUTH", 8 * 3600)]),
            trip("GONE", "ALL", "Uptown", vec![visit("NORTH", 6 * 3600)]),
            trip("NIGHT", "ALL", "Downtown", vec![visit("NORTH", 25 * 3600)]),
        ],
    );
    let feed = delay_feed("EARLY", "SOUTH", 120);
    let board = departure_board(&sch, &feed, &s("Central"), today, 7 * 3600, 2 * 3600).unwrap();
    let got: Vec<(String, i64)> = board.iter().map(|d| (d.trip_id.clone(), d.time)).collect();
    assert_eq!(
        got,
        vec![
            (s("EARLY"), today.at_seconds(8 * 3600 + 120)),
            (s("LATE"), today.at_seconds(8 * 3600 + 300)),
            (s("NIGHT"), today.at_seconds(25 * 3600)),
        ]
    );
    // Before the cutoff, the window ends at today's cutoff.
    let early = departure_board(&sch, &empty_feed(), &s("Central"), today, 1800, 2 * 3600).unwrap();
    let got: Vec<String> = early.iter().map(|d| d.trip_id.clone()).collect();
    assert_eq!(got, vec![s("NIGHT")]);
    assert_eq!(early[0].time, today.at_seconds(3600));
}

#[test]
fn unknown_station_is_an_error() {
    let sch = schedule(vec![], vec![], vec![]);
    let r = departure_board(&sch, &empty_feed(), &s("Nowhere"), ymd(2024, 1, 10), 0, 7200);
    assert!(matches!(r, Err(BoardError::StationNotFound)));
}

fn two_platform_station() -> Schedule {
    let wednesdays = calendar(
        "P",
        [false, false, true, false, false, false, false],
        ymd(2024, 1, 1),
        ymd(2024, 1, 31),
    );
    Schedule {
        calendars: vec![wednesdays],
        exceptions: vec![],
        stops: vec![
            Stop { id: s("A"), name: Some(s("X")) },
            Stop { id: s("B"), name: Some(s("X")) },
            Stop { id: s("C"), name: Some(s("Y")) },
        ],
        trips: vec![
            trip("T1", "P", "H", vec![visit("A", 28800)]),
            trip("T2", "P", "H", vec![visit("B", 29400)]),
            trip("T3", "P", "H", vec![visit("A", 29100), visit("B", 29160)]),
            trip("T4", "P", "H", vec![visit("C", 28900)]),
        ],
    }
}

#[test]
fn trip_at_both_platforms_is_listed_once() {
    let today = ymd(2024, 1, 3);
    let sch = two_platform_station();
    let board = departure_board(&sch, &empty_feed(), &s("X"), today, 7 * 3600, 2 * 3600).unwrap();
    let got: Vec<(String, i64, String)> =
        board.iter().map(|d| (d.trip_id.clone(), d.time, d.headsign.clone())).collect();
    assert_eq!(
        got,
        vec![
            (s("T1"), today.at_seconds(28800), s("H")),
            (s("T3"), today.at_seconds(29100), s("H")),
            (s("T2"), today.at_seconds(29400), s("H")),
        ]
    );
}

#[test]
fn trip_is_shown_at_its_first_boarding_platform() {
    let today = ymd(2024, 1, 3);
    let mut sch = two_platform_station();
    sch.trips[2].stop_times[0].pickup_type = PickupType::NotAvailable;
    sch.trips[2].stop_times[0].departure_time = None;
    let out = expand(&sch, &vec![s("A"), s("B")], today).unwrap();
    let t3: Vec<i64> = out.iter().filter(|d| d.trip_id == "T3").map(|d| d.time).collect();
    assert_eq!(t3, vec![today.at_seconds(29160)]);
    // Only the visit that is shown needs a departure time.
    sch.trips[2].stop_times[0].pickup_type = PickupType::Regular;
    sch.trips[2].stop_times[0].departure_time = Some(29100);
    sch.trips[2].stop_times[1].departure_time = None;
    let out = expand(&sch, &vec![s("A"), s("B")], today).unwrap();
    let t3: Vec<i64> = out.iter().filter(|d| d.trip_id == "T3").map(|d| d.time).collect();
    assert_eq!(t3, vec![today.at_seconds(29100)]);
}
