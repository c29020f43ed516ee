//! The static timetable and the calendar rules that decide which service
//! patterns run on a given day.
use vstd::prelude::*;
use crate::date::{Date, weekday_of};

verus! {

/// Weekly recurrence of one service pattern, valid from `start_date` to
/// `end_date` inclusive.
#[derive(Clone, Debug)]
pub struct ServiceCalendar {
    pub service_id: String,
    pub monday: bool,
    pub tuesday: bool,
    pub wednesday: bool,
    pub thursday: bool,
    pub friday: bool,
    pub saturday: bool,
    pub sunday: bool,
    pub start_date: Date,
    pub end_date: Date,
}

/// Whether a dated exception adds or removes a service pattern.
#[derive(Clone, Copy, Debug, PartialEq, Eq, Structural)]
pub enum ExceptionKind {
    Added,
    Removed,
}

/// A dated override of one service pattern's weekly recurrence.
#[derive(Clone, Debug)]
pub struct CalendarException {
    pub service_id: String,
    pub date: Date,
    pub kind: ExceptionKind,
}

/// Whether passengers may board at a stop-visit.
#[derive(Clone, Copy, Debug, PartialEq, Eq, Structural)]
pub enum PickupType {
    Regular,
    NotAvailable,
    ArrangeByPhone,
    CoordinateWithDriver,
    Unknown(i16),
}

/// A stop with its (not necessarily unique) name.
#[derive(Clone, Debug)]
pub struct Stop {
    pub id: String,
    pub name: Option<String>,
}

/// A trip's scheduled presence at one stop. `departure_time` counts seconds
/// from midnight of the service day and may pass 24:00:00.
#[derive(Clone, Debug)]
pub struct StopTime {
    pub stop_id: String,
    pub pickup_type: PickupType,
    pub departure_time: Option<u32>,
}

/// One scheduled run of a train.
#[derive(Clone, Debug)]
pub struct Trip {
    pub trip_id: String,
    pub service_id: String,
    pub headsign: Option<String>,
    pub stop_times: Vec<StopTime>,
}

/// The static timetable.
#[derive(Clone, Debug)]
pub struct Schedule {
    pub calendars: Vec<ServiceCalendar>,
    pub exceptions: Vec<CalendarException>,
    pub stops: Vec<Stop>,
    pub trips: Vec<Trip>,
}

/// The recurrence flag of `c` for weekday `w` (0 is Monday).
pub open spec fn runs_on_weekday(c: ServiceCalendar, w: int) -> bool {
    if w == 0 {
        c.monday
    } else if w == 1 {
        c.tuesday
    } else if w == 2 {
        c.wednesday
    } else if w == 3 {
        c.thursday
    } else if w == 4 {
        c.friday
    } else if w == 5 {
        c.saturday
    } else {
        c.sunday
    }
}

/// `c` runs on `day` by its weekly rule and validity range.
pub open spec fn runs_by_rule(c: ServiceCalendar, day: int) -> bool {
    &&& runs_on_weekday(c, weekday_of(day))
    &&& c.start_date.day <= day <= c.end_date.day
}

/// Some calendar of pattern `sid` runs on `day` by its weekly rule.
pub open spec fn active_by_rule(cals: Seq<ServiceCalendar>, sid: Seq<char>, day: int) -> bool {
    exists|i: int| 0 <= i < cals.len() && (#[trigger] cals[i]).service_id@ == sid && runs_by_rule(cals[i], day)
}

/// `e` is an exception for pattern `sid` on `day`.
pub open spec fn exception_applies(e: CalendarException, sid: Seq<char>, day: int) -> bool {
    e.service_id@ == sid && e.date.day == day
}

/// Membership of `sid` on `day` after applying the exceptions in list order
/// to `base`: the last exception that applies decides.
pub open spec fn after_exceptions(base: bool, ex: Seq<CalendarException>, sid: Seq<char>, day: int) -> bool
    decreases ex.len(),
{
    if ex.len() == 0 {
        base
    } else if exception_applies(ex.last(), sid, day) {
        ex.last().kind == ExceptionKind::Added
    } else {
        after_exceptions(base, ex.drop_last(), sid, day)
    }
}

/// Service pattern `sid` is active on `day`.
pub open spec fn is_active(s: Schedule, sid: Seq<char>, day: int) -> bool {
    after_exceptions(active_by_rule(s.calendars@, sid, day), s.exceptions@, sid, day)
}

/// The ids held in a vector of strings.
pub open spec fn ids_of(v: Seq<String>) -> Seq<Seq<char>> {
    v.map_values(|s: String| s@)
}

/// Membership in a sequence after a push.
pub proof fn lemma_push_contains<A>(v: Seq<A>, x: A)
    ensures
        forall|q: A| #[trigger] v.push(x).contains(q) <==> v.contains(q) || q == x,
{
    assert forall|q: A| v.contains(q) implies #[trigger] v.push(x).contains(q) by {
        let k = choose|k: int| 0 <= k < v.len() && v[k] == q;
        assert(v.push(x)[k] == q);
    }
    assert(v.push(x)[v.len() as int] == x);
    assert forall|q: A| #[trigger] v.push(x).contains(q) implies v.contains(q) || q == x by {
        let k = choose|k: int| 0 <= k < v.push(x).len() && v.push(x)[k] == q;
        if k < v.len() {
            assert(v[k] == q);
        }
    }
}

/// Whether `v` holds a string equal to `s`.
pub fn contains_id(v: &Vec<String>, s: &String) -> (r: bool)
    ensures
        r == ids_of(v@).contains(s@),
{
    let mut i: usize = 0;
    while i < v.len()
        invariant
            i <= v.len(),
            forall|k: int| 0 <= k < i ==> v@[k]@ != s@,
        decreases v.len() - i,
    {
        if v[i] == *s {
            assert(ids_of(v@)[i as int] == s@);
            return true;
        }
        i += 1;
    }
    assert(!ids_of(v@).contains(s@)) by {
        if ids_of(v@).contains(s@) {
            let k = choose|k: int| 0 <= k < ids_of(v@).len() && ids_of(v@)[k] == s@;
            assert(v@[k]@ == s@);
        }
    }
    false
}

/// An active pattern is named by a calendar or by an exception.
proof fn lemma_active_is_named(base: bool, ex: Seq<CalendarException>, sid: Seq<char>, day: int)
    requires
        after_exceptions(base, ex, sid, day),
    ensures
        base || exists|k: int| 0 <= k < ex.len() && (#[trigger] ex[k]).service_id@ == sid,
    decreases ex.len(),
{
    if ex.len() > 0 && !exception_applies(ex.last(), sid, day) {
        lemma_active_is_named(base, ex.drop_last(), sid, day);
        if !base {
            let k = choose|k: int| 0 <= k < ex.drop_last().len() && (#[trigger] ex.drop_last()[k]).service_id@ == sid;
            assert(ex[k] == ex.drop_last()[k]);
        }
    } else if ex.len() > 0 {
        assert(ex[ex.len() - 1] == ex.last());
    }
}

/// The last exception decides: where the last exception in `ex` for pattern
/// `sid` on `day` is `kind`, the pattern is active that day exactly when
/// `kind` is `Added`, whatever the weekly rule says.
pub proof fn lemma_last_exception_wins(s: Schedule, sid: Seq<char>, day: int, k: int)
    requires
        0 <= k < s.exceptions@.len(),
        exception_applies(s.exceptions@[k], sid, day),
        forall|m: int| k < m < s.exceptions@.len() ==> !exception_applies(#[trigger] s.exceptions@[m], sid, day),
    ensures
        is_active(s, sid, day) == (s.exceptions@[k].kind == ExceptionKind::Added),
{
    lemma_last_exception_wins_rec(active_by_rule(s.calendars@, sid, day), s.exceptions@, sid, day, k);
}

proof fn lemma_last_exception_wins_rec(base: bool, ex: Seq<CalendarException>, sid: Seq<char>, day: int, k: int)
    requires
        0 <= k < ex.len(),
        exception_applies(ex[k], sid, day),
        forall|m: int| k < m < ex.len() ==> !exception_applies(#[trigger] ex[m], sid, day),
    ensures
        after_exceptions(base, ex, sid, day) == (ex[k].kind == ExceptionKind::Added),
    decreases ex.len(),
{
    if k < ex.len() - 1 {
        assert(!exception_applies(ex[ex.len() - 1], sid, day));
        assert forall|m: int| k < m < ex.drop_last().len() implies !exception_applies(#[trigger] ex.drop_last()[m], sid, day) by {
            assert(ex.drop_last()[m] == ex[m]);
        }
        lemma_last_exception_wins_rec(base, ex.drop_last(), sid, day, k);
    }
}

/// Without an exception for pattern `sid` on `day`, the weekly rule alone
/// decides whether it is active.
pub proof fn lemma_rule_without_exception(s: Schedule, sid: Seq<char>, day: int)
    requires
        forall|m: int| 0 <= m < s.exceptions@.len() ==> !exception_applies(#[trigger] s.exceptions@[m], sid, day),
    ensures
        is_active(s, sid, day) == active_by_rule(s.calendars@, sid, day),
{
    lemma_rule_without_exception_rec(active_by_rule(s.calendars@, sid, day), s.exceptions@, sid, day);
}

proof fn lemma_rule_without_exception_rec(base: bool, ex: Seq<CalendarException>, sid: Seq<char>, day: int)
    requires
        forall|m: int| 0 <= m < ex.len() ==> !exception_applies(#[trigger] ex[m], sid, day),
    ensures
        after_exceptions(base, ex, sid, day) == base,
    decreases ex.len(),
{
    if ex.len() > 0 {
        assert(!exception_applies(ex[ex.len() - 1], sid, day));
        assert forall|m: int| 0 <= m < ex.drop_last().len() implies !exception_applies(#[trigger] ex.drop_last()[m], sid, day) by {
            assert(ex.drop_last()[m] == ex[m]);
        }
        lemma_rule_without_exception_rec(base, ex.drop_last(), sid, day);
    }
}

/// The ids of the service patterns active on `date`, each once.
pub fn service_ids_for(s: &Schedule, date: Date) -> (r: Vec<String>)
    ensures
        forall|sid: Seq<char>| ids_of(r@).contains(sid) <==> is_active(*s, sid, date.day as int),
        ids_of(r@).no_duplicates(),
{
    let mut r: Vec<String> = Vec::new();
    let mut i: usize = 0;
    while i < s.calendars.len()
        invariant
            i <= s.calendars.len(),
            ids_of(r@).no_duplicates(),
            forall|sid: Seq<char>| ids_of(r@).contains(sid) ==> is_active(*s, sid, date.day as int),
            forall|k: int| 0 <= k < i && is_active(*s, (#[trigger] s.calendars@[k]).service_id@, date.day as int)
                ==> ids_of(r@).contains(s.calendars@[k].service_id@),
        decreases s.calendars.len() - i,
    {
        let sid = &s.calendars[i];
        if s.is_active(&sid.service_id, date) && !contains_id(&r, &sid.service_id) {
            let ghost prev = r@;
            r.push(sid.service_id.clone());
            assert(ids_of(r@) =~= ids_of(prev).push(sid.service_id@));
            proof { lemma_push_contains(ids_of(prev), sid.service_id@); }
        }
        i += 1;
    }
    let mut j: usize = 0;
    while j < s.exceptions.len()
        invariant
            j <= s.exceptions.len(),
            ids_of(r@).no_duplicates(),
            forall|sid: Seq<char>| ids_of(r@).contains(sid) ==> is_active(*s, sid, date.day as int),
            forall|k: int| 0 <= k < s.calendars@.len() && is_active(*s, (#[trigger] s.calendars@[k]).service_id@, date.day as int)
                ==> ids_of(r@).contains(s.calendars@[k].service_id@),
            forall|k: int| 0 <= k < j && is_active(*s, (#[trigger] s.exceptions@[k]).service_id@, date.day as int)
                ==> ids_of(r@).contains(s.exceptions@[k].service_id@),
        decreases s.exceptions.len() - j,
    {
        let e = &s.exceptions[j];
        if s.is_active(&e.service_id, date) && !contains_id(&r, &e.service_id) {
            let ghost prev = r@;
            r.push(e.service_id.clone());
            assert(ids_of(r@) =~= ids_of(prev).push(e.service_id@));
            proof { lemma_push_contains(ids_of(prev), e.service_id@); }
        }
        j += 1;
    }
    assert forall|sid: Seq<char>| is_active(*s, sid, date.day as int) implies ids_of(r@).contains(sid) by {
        lemma_active_is_named(active_by_rule(s.calendars@, sid, date.day as int), s.exceptions@, sid, date.day as int);
        if active_by_rule(s.calendars@, sid, date.day as int) {
            let k = choose|k: int| 0 <= k < s.calendars@.len() && (#[trigger] s.calendars@[k]).service_id@ == sid
                && runs_by_rule(s.calendars@[k], date.day as int);
        } else {
            let k = choose|k: int| 0 <= k < s.exceptions@.len() && (#[trigger] s.exceptions@[k]).service_id@ == sid;
        }
    }
    r
}

impl ServiceCalendar {
    /// The recurrence flag for weekday `w` (0 is Monday).
    pub fn runs_on_weekday(&self, w: u8) -> (r: bool)
        requires
            w < 7,
        ensures
            r == runs_on_weekday(*self, w as int),
    {
        match w {
            0 => self.monday,
            1 => self.tuesday,
            2 => self.wednesday,
            3 => self.thursday,
            4 => self.friday,
            5 => self.saturday,
            _ => self.sunday,
        }
    }

    /// Whether this calendar runs on `date` by its weekly rule and range.
    pub fn runs_by_rule(&self, date: Date) -> (r: bool)
        ensures
            r == runs_by_rule(*self, date.day as int),
    {
        self.runs_on_weekday(date.weekday()) && self.start_date.day <= date.day
            && date.day <= self.end_date.day
    }
}

impl Schedule {
    /// Whether service pattern `sid` is active on `date`: the weekly rule,
    /// overridden by the last exception for that pattern and date.
    pub fn is_active(&self, sid: &String, date: Date) -> (r: bool)
        ensures
            r == is_active(*self, sid@, date.day as int),
    {
        let mut base = false;
        let mut i: usize = 0;
        while i < self.calendars.len()
            invariant
                i <= self.calendars.len(),
                base == exists|k: int| 0 <= k < i && (#[trigger] self.calendars@[k]).service_id@ == sid@
                    && runs_by_rule(self.calendars@[k], date.day as int),
            decreases self.calendars.len() - i,
        {
            let c = &self.calendars[i];
            if c.service_id == *sid && c.runs_by_rule(date) {
                base = true;
            }
            i += 1;
        }
        let ghost cals = self.calendars@;
        assert(base == active_by_rule(cals, sid@, date.day as int));
        let mut active = base;
        let mut j: usize = 0;
        while j < self.exceptions.len()
            invariant
                j <= self.exceptions.len(),
                active == after_exceptions(base, self.exceptions@.take(j as int), sid@, date.day as int),
            decreases self.exceptions.len() - j,
        {
            let e = &self.exceptions[j];
            assert(self.exceptions@.take(j + 1).drop_last() =~= self.exceptions@.take(j as int));
            if e.service_id == *sid && e.date.day == date.day {
                active = match e.kind {
                    ExceptionKind::Added => true,
                    ExceptionKind::Removed => false,
                };
            }
            j += 1;
        }
        assert(self.exceptions@.take(j as int) =~= self.exceptions@);
        active
    }
}

} // verus!
