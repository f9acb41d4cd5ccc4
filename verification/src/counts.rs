//! Topics, their events, and how many events fall in today, the last seven
//! days and the current month. Times are milliseconds since the Unix epoch;
//! the period bounds come as the tuple
//! `(now_ms, today_start, today_end, month_start, week_start)`.
use vstd::prelude::*;
use vstd::string::*;

verus! {

/// The lightweight header kept for each topic: its identity and its four
/// denormalised event counts.
#[derive(Debug, PartialEq)]
pub struct TopicHeader {
    pub id: String,
    pub name: String,
    pub count_total: u32,
    pub count_today: u32,
    pub count_week: u32,
    pub count_month: u32,
}

/// One recorded event of a topic.
#[derive(Debug, PartialEq)]
pub struct EventRow {
    pub id: String,
    pub topic_id: String,
    /// The ISO-8601 UTC timestamp.
    pub timestamp: String,
    /// The same instant in milliseconds since the Unix epoch.
    pub timestamp_ms: i64,
}

/// The three counted periods.
pub enum Period {
    Today,
    Week,
    Month,
}

/// Whether an event at `ms` falls in `period`: today is the half-open day
/// `[today_start, today_end)`, the week the closed span `[week_start, now]`,
/// the month everything from `month_start` on.
pub open spec fn in_period(ms: i64, bounds: (i64, i64, i64, i64, i64), period: Period) -> bool {
    let (now_ms, today_start, today_end, month_start, week_start) = bounds;
    match period {
        Period::Today => today_start <= ms < today_end,
        Period::Week => week_start <= ms <= now_ms,
        Period::Month => month_start <= ms,
    }
}

/// The number of events in `events` that fall in `period`.
pub open spec fn period_count(
    events: Seq<EventRow>,
    bounds: (i64, i64, i64, i64, i64),
    period: Period,
) -> nat
    decreases events.len(),
{
    if events.len() == 0 {
        0
    } else {
        period_count(events.drop_last(), bounds, period) + if in_period(
            events.last().timestamp_ms,
            bounds,
            period,
        ) {
            1nat
        } else {
            0nat
        }
    }
}

/// The four counts `(today, week, month, total)` of an event list.
pub open spec fn counts_of(events: Seq<EventRow>, bounds: (i64, i64, i64, i64, i64)) -> (
    nat,
    nat,
    nat,
    nat,
) {
    (
        period_count(events, bounds, Period::Today),
        period_count(events, bounds, Period::Week),
        period_count(events, bounds, Period::Month),
        events.len(),
    )
}

/// The header's counts agree with the counts of `events`.
pub open spec fn header_matches(
    h: TopicHeader,
    events: Seq<EventRow>,
    bounds: (i64, i64, i64, i64, i64),
) -> bool {
    let c = counts_of(events, bounds);
    &&& h.count_today == c.0
    &&& h.count_week == c.1
    &&& h.count_month == c.2
    &&& h.count_total == c.3
}

/// A period never counts more events than the list holds.
pub proof fn law_period_count_within_total(
    events: Seq<EventRow>,
    bounds: (i64, i64, i64, i64, i64),
    period: Period,
)
    ensures
        period_count(events, bounds, period) <= events.len(),
    decreases events.len(),
{
    if events.len() > 0 {
        law_period_count_within_total(events.drop_last(), bounds, period);
    }
}

/// A single event counts in a period exactly when its time lies in that
/// period's span: today is `[today_start, today_end)`, the week
/// `[week_start, now]` and the month everything from `month_start` on.
pub proof fn law_one_event_counts_in_its_spans(e: EventRow, bounds: (i64, i64, i64, i64, i64))
    ensures
        period_count(seq![e], bounds, Period::Today) == (if bounds.1 <= e.timestamp_ms
            < bounds.2 {
            1nat
        } else {
            0nat
        }),
        period_count(seq![e], bounds, Period::Week) == (if bounds.4 <= e.timestamp_ms
            <= bounds.0 {
            1nat
        } else {
            0nat
        }),
        period_count(seq![e], bounds, Period::Month) == (if bounds.3 <= e.timestamp_ms {
            1nat
        } else {
            0nat
        }),
{
    let one = seq![e];
    assert(one.drop_last() =~= Seq::<EventRow>::empty());
    assert(one.last() == e);
    assert(period_count(one, bounds, Period::Today) == period_count(
        one.drop_last(),
        bounds,
        Period::Today,
    ) + if in_period(e.timestamp_ms, bounds, Period::Today) {
        1nat
    } else {
        0nat
    });
    assert(period_count(one, bounds, Period::Week) == period_count(
        one.drop_last(),
        bounds,
        Period::Week,
    ) + if in_period(e.timestamp_ms, bounds, Period::Week) {
        1nat
    } else {
        0nat
    });
    assert(period_count(one, bounds, Period::Month) == period_count(
        one.drop_last(),
        bounds,
        Period::Month,
    ) + if in_period(e.timestamp_ms, bounds, Period::Month) {
        1nat
    } else {
        0nat
    });
}

/// Counting two lists one after the other gives the sum of their counts.
pub proof fn law_period_count_adds_up(
    a: Seq<EventRow>,
    b: Seq<EventRow>,
    bounds: (i64, i64, i64, i64, i64),
    period: Period,
)
    ensures
        period_count(a + b, bounds, period) == period_count(a, bounds, period) + period_count(
            b,
            bounds,
            period,
        ),
    decreases b.len(),
{
    if b.len() == 0 {
        assert(a + b =~= a);
    } else {
        law_period_count_adds_up(a, b.drop_last(), bounds, period);
        assert((a + b).drop_last() =~= a + b.drop_last());
    }
}

/// Each period depends on its own bounds only: today on `today_start` and
/// `today_end`, the week on `week_start` and `now`, the month on
/// `month_start`. Changing any other bound leaves that count as it is.
pub proof fn law_each_period_uses_only_its_bounds(
    events: Seq<EventRow>,
    b1: (i64, i64, i64, i64, i64),
    b2: (i64, i64, i64, i64, i64),
)
    ensures
        b1.1 == b2.1 && b1.2 == b2.2 ==> period_count(events, b1, Period::Today) == period_count(
            events,
            b2,
            Period::Today,
        ),
        b1.4 == b2.4 && b1.0 == b2.0 ==> period_count(events, b1, Period::Week) == period_count(
            events,
            b2,
            Period::Week,
        ),
        b1.3 == b2.3 ==> period_count(events, b1, Period::Month) == period_count(
            events,
            b2,
            Period::Month,
        ),
    decreases events.len(),
{
    if events.len() > 0 {
        law_each_period_uses_only_its_bounds(events.drop_last(), b1, b2);
    }
}

/// Whether `ms` falls in `period`.
pub fn falls_in(ms: i64, bounds: (i64, i64, i64, i64, i64), period: Period) -> (res: bool)
    ensures
        res == in_period(ms, bounds, period),
{
    let (now_ms, today_start, today_end, month_start, week_start) = bounds;
    match period {
        Period::Today => today_start <= ms && ms < today_end,
        Period::Week => week_start <= ms && ms <= now_ms,
        Period::Month => month_start <= ms,
    }
}

/// Counts the events of today, of the last week, of the month, and in all,
/// in that order.
pub fn event_row_counts(events: &[EventRow], bounds: (i64, i64, i64, i64, i64)) -> (res: (
    u32,
    u32,
    u32,
    u32,
))
    requires
        events@.len() <= u32::MAX,
    ensures
        res.0 == counts_of(events@, bounds).0,
        res.1 == counts_of(events@, bounds).1,
        res.2 == counts_of(events@, bounds).2,
        res.3 == counts_of(events@, bounds).3,
{
    let mut t: u32 = 0;
    let mut w: u32 = 0;
    let mut m: u32 = 0;
    let mut i: usize = 0;
    while i < events.len()
        invariant
            i <= events@.len() <= u32::MAX,
            t == period_count(events@.take(i as int), bounds, Period::Today),
            w == period_count(events@.take(i as int), bounds, Period::Week),
            m == period_count(events@.take(i as int), bounds, Period::Month),
        decreases events.len() - i,
    {
        proof {
            let prefix = events@.take(i as int);
            assert(events@.take(i + 1).drop_last() =~= prefix);
            law_period_count_within_total(prefix, bounds, Period::Today);
            law_period_count_within_total(prefix, bounds, Period::Week);
            law_period_count_within_total(prefix, bounds, Period::Month);
        }
        let ms = events[i].timestamp_ms;
        if falls_in(ms, bounds, Period::Today) {
            t = t + 1;
        }
        if falls_in(ms, bounds, Period::Week) {
            w = w + 1;
        }
        if falls_in(ms, bounds, Period::Month) {
            m = m + 1;
        }
        i = i + 1;
    }
    assert(events@.take(i as int) =~= events@);
    (t, w, m, events.len() as u32)
}

/// The header after one more event at `ms`: the total goes up by one and each
/// period count by one where the event falls in that period.
pub open spec fn with_event(h: TopicHeader, ms: i64, bounds: (i64, i64, i64, i64, i64)) -> TopicHeader {
    TopicHeader {
        id: h.id,
        name: h.name,
        count_total: (h.count_total + 1) as u32,
        count_today: (h.count_today + if in_period(ms, bounds, Period::Today) {
            1int
        } else {
            0int
        }) as u32,
        count_week: (h.count_week + if in_period(ms, bounds, Period::Week) {
            1int
        } else {
            0int
        }) as u32,
        count_month: (h.count_month + if in_period(ms, bounds, Period::Month) {
            1int
        } else {
            0int
        }) as u32,
    }
}

impl Clone for TopicHeader {
    fn clone(&self) -> (res: TopicHeader)
        ensures
            res == *self,
    {
        TopicHeader {
            id: self.id.clone(),
            name: self.name.clone(),
            count_total: self.count_total,
            count_today: self.count_today,
            count_week: self.count_week,
            count_month: self.count_month,
        }
    }
}

impl TopicHeader {
    /// A new topic with no events.
    pub fn new(id: String, name: String) -> (h: TopicHeader)
        ensures
            h.id == id,
            h.name == name,
            h.count_total == 0,
            h.count_today == 0,
            h.count_week == 0,
            h.count_month == 0,
    {
        TopicHeader { id, name, count_total: 0, count_today: 0, count_week: 0, count_month: 0 }
    }

    /// The header after recording one more event at `ms`, without recounting
    /// the stored events.
    pub fn count_new_event(&self, ms: i64, bounds: (i64, i64, i64, i64, i64)) -> (h: TopicHeader)
        requires
            self.count_total < u32::MAX,
            in_period(ms, bounds, Period::Today) ==> self.count_today < u32::MAX,
            in_period(ms, bounds, Period::Week) ==> self.count_week < u32::MAX,
            in_period(ms, bounds, Period::Month) ==> self.count_month < u32::MAX,
        ensures
            h == with_event(*self, ms, bounds),
    {
        let today: u32 = if falls_in(ms, bounds, Period::Today) {
            1
        } else {
            0
        };
        let week: u32 = if falls_in(ms, bounds, Period::Week) {
            1
        } else {
            0
        };
        let month: u32 = if falls_in(ms, bounds, Period::Month) {
            1
        } else {
            0
        };
        TopicHeader {
            id: self.id.clone(),
            name: self.name.clone(),
            count_total: self.count_total + 1,
            count_today: self.count_today + today,
            count_week: self.count_week + week,
            count_month: self.count_month + month,
        }
    }

    /// Replaces the four counts by `counts`, given as `(today, week, month, total)`.
    pub fn set_counts(&mut self, counts: (u32, u32, u32, u32))
        ensures
            final(self).id == old(self).id,
            final(self).name == old(self).name,
            final(self).count_today == counts.0,
            final(self).count_week == counts.1,
            final(self).count_month == counts.2,
            final(self).count_total == counts.3,
    {
        self.count_total = counts.3;
        self.count_today = counts.0;
        self.count_week = counts.1;
        self.count_month = counts.2;
    }
}

/// Counting one new event into a header whose counts agree with the stored
/// events gives the counts of the events with the new one added: the
/// incremental update and a full recount agree.
pub proof fn law_incremental_count_matches_recount(
    h: TopicHeader,
    events: Seq<EventRow>,
    e: EventRow,
    bounds: (i64, i64, i64, i64, i64),
)
    requires
        header_matches(h, events, bounds),
        h.count_total < u32::MAX,
    ensures
        header_matches(with_event(h, e.timestamp_ms, bounds), events.push(e), bounds),
{
    assert(events.push(e).drop_last() =~= events);
    law_period_count_within_total(events, bounds, Period::Today);
    law_period_count_within_total(events, bounds, Period::Week);
    law_period_count_within_total(events, bounds, Period::Month);
}

/// A new topic's header agrees with an empty event list.
pub proof fn law_new_header_matches_no_events(h: TopicHeader, bounds: (i64, i64, i64, i64, i64))
    requires
        h.count_total == 0,
        h.count_today == 0,
        h.count_week == 0,
        h.count_month == 0,
    ensures
        header_matches(h, Seq::empty(), bounds),
{
}

/// The position of the first topic named `name`, or `None` when no topic has
/// that name.
pub fn topic_index_by_name(headers: &[TopicHeader], name: &str) -> (res: Option<usize>)
    ensures
        res matches Some(i) ==> i < headers@.len() && headers@[i as int].name@ == name@ && forall|
            j: int,
        | 0 <= j < i ==> (#[trigger] headers@[j]).name@ != name@,
        res is None ==> forall|j: int| 0 <= j < headers@.len() ==> (#[trigger] headers@[j]).name@ != name@,
{
    let key = String::from_str(name);
    let mut i: usize = 0;
    while i < headers.len()
        invariant
            i <= headers@.len(),
            key@ == name@,
            forall|j: int| 0 <= j < i ==> (#[trigger] headers@[j]).name@ != name@,
        decreases headers.len() - i,
    {
        if headers[i].name == key {
            return Some(i);
        }
        i = i + 1;
    }
    None
}

} // verus!
