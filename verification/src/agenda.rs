//! The agenda printed each morning: calendar events sorted by start, grouped
//! by day under a heading such as `Monday 3:`, one line per event.
use vstd::prelude::*;
use chrono::{Datelike, Timelike};
use itertools::Itertools;
use crate::calendar::{
    weekday_at, weekday_from_index, weekday_name, weekday_name_spec, Time, Weekday, NANOS_PER_SEC,
};
use crate::game::add_weeks;
use crate::streak::{chrono_range, chrono_secs, local_offset_secs};

verus! {

/// When a calendar event starts: a whole day (`YYYY-MM-DD`) or an RFC 3339
/// date and time.
pub struct EventStart {
    pub date: Option<String>,
    pub date_time: Option<String>,
}

/// A calendar event as the calendar service lists it.
pub struct CalendarItem {
    pub start: Option<EventStart>,
    pub summary: Option<String>,
}

/// One event of the agenda.
pub struct AgendaEntry {
    /// Start as seconds since the Unix epoch, and nanoseconds past that second.
    pub secs: i64,
    pub nanos: u32,
    /// The local date of the start, counted in days from 0001-01-01 (day 1).
    pub day_key: i32,
    pub weekday: Weekday,
    /// Day of the month, 1 to 31.
    pub day: u32,
    pub hour: u32,
    pub minute: u32,
    pub summary: String,
}

pub struct EntryView {
    pub secs: int,
    pub nanos: int,
    pub day_key: int,
    pub weekday: Weekday,
    pub day: int,
    pub hour: int,
    pub minute: int,
    pub summary: Seq<char>,
}

impl View for AgendaEntry {
    type V = EntryView;

    open spec fn view(&self) -> EntryView {
        EntryView {
            secs: self.secs as int,
            nanos: self.nanos as int,
            day_key: self.day_key as int,
            weekday: self.weekday,
            day: self.day as int,
            hour: self.hour as int,
            minute: self.minute as int,
            summary: self.summary@,
        }
    }
}

pub open spec fn entries_view(es: Seq<AgendaEntry>) -> Seq<EntryView> {
    es.map_values(|e: AgendaEntry| e@)
}

/// What `chrono::NaiveDate::parse_from_str(s, "%Y-%m-%d")` yields for `s`, as
/// (days from 0001-01-01 counting it as day 1, day of month, weekday number
/// from Monday = 0).
pub uninterp spec fn ymd_date_parse(s: Seq<char>) -> Option<(i32, u32, u32)>;

/// What `chrono::DateTime::parse_from_rfc3339(s)` yields for `s`, as (seconds
/// since the Unix epoch, nanoseconds past that second, and then in the
/// string's own offset: days from 0001-01-01 counting it as day 1, day of
/// month, weekday number from Monday = 0, hour, minute).
pub uninterp spec fn rfc3339_parse(s: Seq<char>) -> Option<(i64, u32, i32, u32, u32, u32, u32)>;

/// Calls `chrono::NaiveDate::parse_from_str` with the format `%Y-%m-%d` and
/// gives the parsed date's `num_days_from_ce`, `day` and
/// `weekday().num_days_from_monday()`. Claimed: the result is the name
/// `ymd_date_parse` of the text, and chrono's documented ranges of the day
/// (1 to 31) and of the weekday number (0 to 6).
#[verifier::external_body]
fn parse_calendar_date(s: &str) -> (parsed: Option<(i32, u32, u32)>)
    ensures
        parsed == ymd_date_parse(s@),
        parsed matches Some((_, d, w)) ==> 1 <= d <= 31 && w < 7,
{
    match chrono::NaiveDate::parse_from_str(s, "%Y-%m-%d") {
        Ok(date) => Some((date.num_days_from_ce(), date.day(), date.weekday().num_days_from_monday())),
        Err(_) => None,
    }
}

/// Calls `chrono::DateTime::parse_from_rfc3339` and gives the parsed value's
/// `timestamp`, `timestamp_subsec_nanos`, `num_days_from_ce`, `day`,
/// `weekday().num_days_from_monday()`, `hour` and `minute`. Claimed: the
/// result is the name `rfc3339_parse` of the text, and chrono's documented
/// ranges (nanoseconds below 2 * 10^9, counting a leap second; day 1 to 31;
/// weekday 0 to 6; hour 0 to 23; minute 0 to 59).
#[verifier::external_body]
fn parse_calendar_date_time(s: &str) -> (parsed: Option<(i64, u32, i32, u32, u32, u32, u32)>)
    ensures
        parsed == rfc3339_parse(s@),
        parsed matches Some((_, n, _, d, w, h, m)) ==> n < 2_000_000_000 && 1 <= d <= 31 && w < 7
            && h < 24 && m < 60,
{
    match chrono::DateTime::parse_from_rfc3339(s) {
        Ok(t) => {
            let (secs, nanos) = (t.timestamp(), t.timestamp_subsec_nanos());
            let weekday = t.weekday().num_days_from_monday();
            Some((secs, nanos, t.num_days_from_ce(), t.day(), weekday, t.hour(), t.minute()))
        },
        Err(_) => None,
    }
}

/// `a` starts no later than `b`.
pub open spec fn starts_no_later(a: EntryView, b: EntryView) -> bool {
    a.secs < b.secs || (a.secs == b.secs && a.nanos <= b.nanos)
}

/// `a` and `b` start at the same instant.
pub open spec fn same_start(a: EntryView, b: EntryView) -> bool {
    a.secs == b.secs && a.nanos == b.nanos
}

/// `p` lists each of `0 .. n` once.
pub open spec fn is_permutation(p: Seq<int>, n: int) -> bool {
    &&& p.len() == n
    &&& forall|i: int| 0 <= i < n ==> 0 <= #[trigger] p[i] < n
    &&& forall|i: int, j: int| 0 <= i < j < n ==> p[i] != p[j]
    &&& forall|k: int| 0 <= k < n ==> #[trigger] lists(p, k)
}

/// `k` occurs in `p`.
pub open spec fn lists(p: Seq<int>, k: int) -> bool {
    exists|i: int| 0 <= i < p.len() && p[i] == k
}

/// `r` is `v` sorted by start, with entries that start together kept in
/// their order in `v`.
pub open spec fn is_stable_sort(r: Seq<EntryView>, v: Seq<EntryView>) -> bool {
    &&& r.len() == v.len()
    &&& forall|i: int, j: int| 0 <= i < j < r.len() ==> starts_no_later(r[i], r[j])
    &&& exists|p: Seq<int>|
        {
            &&& is_permutation(p, v.len() as int)
            &&& forall|i: int| 0 <= i < r.len() ==> #[trigger] r[i] == v[p[i]]
            &&& forall|i: int, j: int|
                0 <= i < j < r.len() && same_start(r[i], r[j]) ==> p[i] < p[j]
        }
}

/// Entry `a` of `v` comes before entry `b` in a stable sort: it starts
/// earlier, or at the same time and comes first in `v`.
pub open spec fn sorts_before(v: Seq<EntryView>, a: int, b: int) -> bool {
    ||| starts_no_later(v[a], v[b]) && !same_start(v[a], v[b])
    ||| same_start(v[a], v[b]) && a < b
}

proof fn lemma_sort_positions(r: Seq<EntryView>, v: Seq<EntryView>, p: Seq<int>)
    requires
        r.len() == v.len(),
        forall|i: int, j: int| 0 <= i < j < r.len() ==> starts_no_later(r[i], r[j]),
        is_permutation(p, v.len() as int),
        forall|i: int| 0 <= i < r.len() ==> #[trigger] r[i] == v[p[i]],
        forall|i: int, j: int| 0 <= i < j < r.len() && same_start(r[i], r[j]) ==> p[i] < p[j],
    ensures
        forall|i: int, j: int| 0 <= i < j < r.len() ==> sorts_before(v, #[trigger] p[i], #[trigger] p[j]),
{
    assert forall|i: int, j: int| 0 <= i < j < r.len() implies sorts_before(v, #[trigger] p[i], #[trigger] p[j]) by {
        assert(r[i] == v[p[i]]);
        assert(r[j] == v[p[j]]);
    }
}

proof fn lemma_positions_agree(v: Seq<EntryView>, p1: Seq<int>, p2: Seq<int>, i: int)
    requires
        is_permutation(p1, v.len() as int),
        is_permutation(p2, v.len() as int),
        forall|a: int, b: int| 0 <= a < b < v.len() ==> sorts_before(v, #[trigger] p1[a], #[trigger] p1[b]),
        forall|a: int, b: int| 0 <= a < b < v.len() ==> sorts_before(v, #[trigger] p2[a], #[trigger] p2[b]),
        0 <= i < v.len(),
    ensures
        forall|j: int| 0 <= j <= i ==> p1[j] == p2[j],
    decreases i,
{
    if i > 0 {
        lemma_positions_agree(v, p1, p2, i - 1);
    }
    let (a, b) = (p1[i], p2[i]);
    if a != b {
        if sorts_before(v, a, b) {
            assert(lists(p2, a));
            let k = choose|k: int| 0 <= k < p2.len() && p2[k] == a;
            if k < i {
                assert(p1[k] == p2[k]);
            } else if k > i {
                assert(sorts_before(v, p2[i], p2[k]));
            }
        } else {
            assert(lists(p1, b));
            let k = choose|k: int| 0 <= k < p1.len() && p1[k] == b;
            if k < i {
                assert(p1[k] == p2[k]);
            } else if k > i {
                assert(sorts_before(v, p1[i], p1[k]));
            }
        }
    }
}

/// A list has only one stable sort by start: the sort that the agenda uses is
/// fully determined by the entries.
pub proof fn law_stable_sort_is_unique(r1: Seq<EntryView>, r2: Seq<EntryView>, v: Seq<EntryView>)
    requires
        is_stable_sort(r1, v),
        is_stable_sort(r2, v),
    ensures
        r1 == r2,
{
    let p1 = choose|p: Seq<int>|
        {
            &&& is_permutation(p, v.len() as int)
            &&& forall|i: int| 0 <= i < r1.len() ==> #[trigger] r1[i] == v[p[i]]
            &&& forall|i: int, j: int| 0 <= i < j < r1.len() && same_start(r1[i], r1[j]) ==> p[i] < p[j]
        };
    let p2 = choose|p: Seq<int>|
        {
            &&& is_permutation(p, v.len() as int)
            &&& forall|i: int| 0 <= i < r2.len() ==> #[trigger] r2[i] == v[p[i]]
            &&& forall|i: int, j: int| 0 <= i < j < r2.len() && same_start(r2[i], r2[j]) ==> p[i] < p[j]
        };
    lemma_sort_positions(r1, v, p1);
    lemma_sort_positions(r2, v, p2);
    if v.len() > 0 {
        lemma_positions_agree(v, p1, p2, v.len() - 1);
    }
    assert forall|i: int| 0 <= i < r1.len() implies r1[i] == r2[i] by {
        assert(r1[i] == v[p1[i]]);
        assert(r2[i] == v[p2[i]]);
    }
    assert(r1 =~= r2);
}

/// Calls `Itertools::sorted_by_key` with the start as key and collects the
/// result. Claimed: the documented stable sort (std's `sort_by_key`).
#[verifier::external_body]
fn sort_by_start(entries: Vec<AgendaEntry>) -> (sorted: Vec<AgendaEntry>)
    ensures
        is_stable_sort(entries_view(sorted@), entries_view(entries@)),
{
    entries.into_iter().sorted_by_key(|e| (e.secs, e.nanos)).collect()
}

/// The runs, one after the other.
pub open spec fn concat_runs(gs: Seq<Seq<EntryView>>) -> Seq<EntryView>
    decreases gs.len(),
{
    if gs.len() == 0 {
        Seq::empty()
    } else {
        concat_runs(gs.drop_last()) + gs.last()
    }
}

/// `gs` cuts `v` into the maximal runs of entries on the same local date.
pub open spec fn is_day_runs(gs: Seq<Seq<EntryView>>, v: Seq<EntryView>) -> bool {
    &&& concat_runs(gs) == v
    &&& forall|i: int| 0 <= i < gs.len() ==> #[trigger] gs[i].len() > 0
    &&& forall|i: int, j: int|
        0 <= i < gs.len() && 0 <= j < gs[i].len() ==> #[trigger] gs[i][j].day_key == gs[i][0].day_key
    &&& forall|i: int| 0 < i < gs.len() ==> #[trigger] gs[i][0].day_key != gs[i - 1][0].day_key
}

pub open spec fn runs_view(gs: Seq<Vec<AgendaEntry>>) -> Seq<Seq<EntryView>> {
    gs.map_values(|g: Vec<AgendaEntry>| entries_view(g@))
}

/// Calls `Itertools::group_by` with the local date as key and collects each
/// group. Claimed: the documented grouping of consecutive elements with equal
/// keys ("runs").
#[verifier::external_body]
fn group_by_day(entries: Vec<AgendaEntry>) -> (groups: Vec<Vec<AgendaEntry>>)
    ensures
        is_day_runs(runs_view(groups@), entries_view(entries@)),
{
    let grouped = entries.into_iter().group_by(|e| e.day_key);
    let groups: Vec<Vec<AgendaEntry>> = grouped.into_iter().map(|(_, g)| g.collect()).collect();
    groups
}

/// The ASCII digit of `n`, for `0 <= n < 10`.
pub open spec fn digit(n: int) -> char {
    (n + 48) as char
}

/// `n` (below 100) on two digits.
pub open spec fn two_digits(n: int) -> Seq<char> {
    seq![digit(n / 10), digit(n % 10)]
}

/// `n` (below 100) right-aligned on two characters.
pub open spec fn padded_day(n: int) -> Seq<char> {
    if n < 10 {
        seq![' ', digit(n)]
    } else {
        two_digits(n)
    }
}

/// The heading of a day: weekday name, day of month, colon, line break.
pub open spec fn day_heading(e: EntryView) -> Seq<char> {
    weekday_name_spec(e.weekday) + padded_day(e.day) + seq![':', '\n']
}

/// The line of an event: indented `HH:MM`, a space, the title.
pub open spec fn event_line(e: EntryView) -> Seq<char> {
    seq![' ', ' '] + two_digits(e.hour) + seq![':'] + two_digits(e.minute) + seq![' '] + e.summary + seq!['\n']
}

/// The agenda of sorted entries: a heading before the first entry of each
/// day, then a line per entry.
pub open spec fn agenda_text(es: Seq<EntryView>) -> Seq<char>
    decreases es.len(),
{
    if es.len() == 0 {
        Seq::empty()
    } else {
        let init = es.drop_last();
        let e = es.last();
        let heading = if init.len() == 0 || init.last().day_key != e.day_key {
            day_heading(e)
        } else {
            Seq::empty()
        };
        agenda_text(init) + heading + event_line(e)
    }
}

fn digit_text(n: u32) -> (s: &'static str)
    requires
        n < 10,
    ensures
        s@ == seq![digit(n as int)],
{
    proof {
        reveal_strlit("0");
        reveal_strlit("1");
        reveal_strlit("2");
        reveal_strlit("3");
        reveal_strlit("4");
        reveal_strlit("5");
        reveal_strlit("6");
        reveal_strlit("7");
        reveal_strlit("8");
        reveal_strlit("9");
    }
    if n == 0 {
        "0"
    } else if n == 1 {
        "1"
    } else if n == 2 {
        "2"
    } else if n == 3 {
        "3"
    } else if n == 4 {
        "4"
    } else if n == 5 {
        "5"
    } else if n == 6 {
        "6"
    } else if n == 7 {
        "7"
    } else if n == 8 {
        "8"
    } else {
        "9"
    }
}

fn push_two_digits(out: &mut String, n: u32)
    requires
        n < 100,
    ensures
        final(out)@ == old(out)@ + two_digits(n as int),
{
    out.append(digit_text(n / 10));
    out.append(digit_text(n % 10));
    assert(final(out)@ =~= old(out)@ + two_digits(n as int));
}

fn push_heading(out: &mut String, e: &AgendaEntry)
    requires
        1 <= e.day <= 31,
    ensures
        final(out)@ == old(out)@ + day_heading(e@),
{
    proof {
        reveal_strlit(" ");
        reveal_strlit(":\n");
    }
    let name = weekday_name(e.weekday);
    out.append(name.as_str());
    if e.day < 10 {
        out.append(" ");
        out.append(digit_text(e.day));
    } else {
        push_two_digits(out, e.day);
    }
    out.append(":\n");
    assert(final(out)@ =~= old(out)@ + day_heading(e@));
}

fn push_line(out: &mut String, e: &AgendaEntry)
    requires
        e.hour < 24,
        e.minute < 60,
    ensures
        final(out)@ == old(out)@ + event_line(e@),
{
    proof {
        reveal_strlit("  ");
        reveal_strlit(":");
        reveal_strlit(" ");
        reveal_strlit("\n");
    }
    out.append("  ");
    push_two_digits(out, e.hour);
    out.append(":");
    push_two_digits(out, e.minute);
    out.append(" ");
    out.append(e.summary.as_str());
    out.append("\n");
    assert(final(out)@ =~= old(out)@ + event_line(e@));
}

/// The fields of an entry stay in the ranges of a calendar date and time.
pub open spec fn entry_wf(e: EntryView) -> bool {
    &&& 1 <= e.day <= 31
    &&& 0 <= e.hour < 24
    &&& 0 <= e.minute < 60
}

pub open spec fn entries_wf(es: Seq<EntryView>) -> bool {
    forall|i: int| 0 <= i < es.len() ==> entry_wf(#[trigger] es[i])
}

/// Day number (from 0001-01-01 as day 1) of 1970-01-01.
pub const UNIX_EPOCH_DAY: i64 = 719_163;

/// Whole-day events start at midnight in UTC-7, that is 07:00 UTC.
pub const WHOLE_DAY_START_SECS: i64 = 25_200;

/// The agenda entry of an event with the given start and title, from the
/// parsed start; none where the start does not parse.
pub open spec fn start_entry(start: EventStart, summary: Seq<char>) -> Option<EntryView> {
    match start.date {
        Some(d) => match ymd_date_parse(d@) {
            Some((dce, day, w)) => Some(
                EntryView {
                    secs: (dce - UNIX_EPOCH_DAY) * 86400 + WHOLE_DAY_START_SECS,
                    nanos: 0,
                    day_key: dce as int,
                    weekday: weekday_at(w as int),
                    day: day as int,
                    hour: 0,
                    minute: 0,
                    summary,
                },
            ),
            None => None,
        },
        None => match start.date_time {
            Some(t) => match rfc3339_parse(t@) {
                Some((secs, nanos, dce, day, w, h, m)) => Some(
                    EntryView {
                        secs: secs as int,
                        nanos: nanos as int,
                        day_key: dce as int,
                        weekday: weekday_at(w as int),
                        day: day as int,
                        hour: h as int,
                        minute: m as int,
                        summary,
                    },
                ),
                None => None,
            },
            None => None,
        },
    }
}

/// The item has both a start and a title, so it goes on the agenda.
pub open spec fn on_agenda(it: CalendarItem) -> bool {
    it.start is Some && it.summary is Some
}

pub open spec fn item_entry(it: CalendarItem) -> Option<EntryView> {
    start_entry(it.start.unwrap(), it.summary.unwrap()@)
}

/// Every item that goes on the agenda has a start that parses.
pub open spec fn items_parse(items: Seq<CalendarItem>) -> bool {
    forall|i: int| 0 <= i < items.len() && on_agenda(#[trigger] items[i]) ==> item_entry(items[i]) is Some
}

/// The entries of the items that go on the agenda, in order.
pub open spec fn agenda_entries(items: Seq<CalendarItem>) -> Seq<EntryView>
    decreases items.len(),
{
    if items.len() == 0 {
        Seq::empty()
    } else {
        let rest = agenda_entries(items.drop_last());
        if on_agenda(items.last()) {
            rest.push(item_entry(items.last()).unwrap())
        } else {
            rest
        }
    }
}

pub open spec fn opt_entry_view(o: Option<AgendaEntry>) -> Option<EntryView> {
    match o {
        Some(e) => Some(e@),
        None => None,
    }
}

/// The agenda entry of an event with the given start and title; none where
/// the start has neither a date nor a date and time, or where it does not
/// parse.
pub fn event_entry(start: &EventStart, summary: &String) -> (entry: Option<AgendaEntry>)
    ensures
        opt_entry_view(entry) == start_entry(*start, summary@),
        entry matches Some(e) ==> entry_wf(e@),
{
    match &start.date {
        Some(d) => match parse_calendar_date(d.as_str()) {
            Some((dce, day, w)) => {
                let secs = (dce as i64 - UNIX_EPOCH_DAY) * 86400 + WHOLE_DAY_START_SECS;
                Some(
                    AgendaEntry {
                        secs,
                        nanos: 0,
                        day_key: dce,
                        weekday: weekday_from_index(w),
                        day,
                        hour: 0,
                        minute: 0,
                        summary: summary.clone(),
                    },
                )
            },
            None => None,
        },
        None => match &start.date_time {
            Some(t) => match parse_calendar_date_time(t.as_str()) {
                Some((secs, nanos, dce, day, w, h, m)) => Some(
                    AgendaEntry {
                        secs,
                        nanos,
                        day_key: dce,
                        weekday: weekday_from_index(w),
                        day,
                        hour: h,
                        minute: m,
                        summary: summary.clone(),
                    },
                ),
                None => None,
            },
            None => None,
        },
    }
}

/// The entries of the items that go on the agenda; none when one of them
/// does not parse.
pub fn collect_entries(items: &Vec<CalendarItem>) -> (entries: Option<Vec<AgendaEntry>>)
    ensures
        entries is Some <==> items_parse(items@),
        entries matches Some(es) ==> entries_view(es@) == agenda_entries(items@) && entries_wf(
            entries_view(es@),
        ),
{
    let mut es: Vec<AgendaEntry> = Vec::new();
    let mut i: usize = 0;
    while i < items.len()
        invariant
            i <= items.len(),
            entries_view(es@) == agenda_entries(items@.take(i as int)),
            entries_wf(entries_view(es@)),
            forall|j: int| 0 <= j < i && on_agenda(#[trigger] items@[j]) ==> item_entry(items@[j]) is Some,
        decreases items.len() - i,
    {
        let item = &items[i];
        assert(items@.take(i + 1).drop_last() =~= items@.take(i as int));
        assert(items@.take(i + 1).last() == items@[i as int]);
        match (&item.start, &item.summary) {
            (Some(start), Some(summary)) => {
                match event_entry(start, summary) {
                    Some(e) => {
                        let ghost before = es@;
                        es.push(e);
                        assert(entries_view(es@) =~= entries_view(before).push(e@));
                    },
                    None => {
                        assert(on_agenda(items@[i as int]) && item_entry(items@[i as int]) is None);
                        return None;
                    },
                }
            },
            _ => {},
        }
        i = i + 1;
    }
    assert(items@.take(items.len() as int) =~= items@);
    Some(es)
}

proof fn lemma_concat_runs_push(gs: Seq<Seq<EntryView>>, i: int)
    requires
        0 <= i < gs.len(),
    ensures
        concat_runs(gs.take(i + 1)) == concat_runs(gs.take(i)) + gs[i],
{
    assert(gs.take(i + 1).drop_last() =~= gs.take(i));
}

proof fn lemma_agenda_push(es: Seq<EntryView>, e: EntryView)
    ensures
        agenda_text(es.push(e)) == agenda_text(es) + (if es.len() == 0 || es.last().day_key != e.day_key {
            day_heading(e)
        } else {
            Seq::empty()
        }) + event_line(e),
{
    assert(es.push(e).drop_last() =~= es);
}

/// Every entry's full title stands in the agenda, after a space and before a
/// line break, whatever its length.
pub proof fn law_agenda_shows_every_title(es: Seq<EntryView>)
    ensures
        forall|i: int|
            #![trigger es[i]]
            0 <= i < es.len() ==> exists|p: int|
                #![trigger agenda_text(es).skip(p)]
                0 <= p && p + es[i].summary.len() + 2 <= agenda_text(es).len() && agenda_text(es).skip(p).take(
                    es[i].summary.len() + 2 as int,
                ) == seq![' '] + es[i].summary + seq!['\n'],
    decreases es.len(),
{
    if es.len() > 0 {
        let init = es.drop_last();
        let e = es.last();
        law_agenda_shows_every_title(init);
        let before = agenda_text(init);
        let heading = if init.len() == 0 || init.last().day_key != e.day_key {
            day_heading(e)
        } else {
            Seq::empty()
        };
        let line = event_line(e);
        let t = agenda_text(es);
        assert(t == before + heading + line);
        assert forall|i: int| #![trigger es[i]] 0 <= i < es.len() implies exists|p: int|
            #![trigger t.skip(p)]
            0 <= p && p + es[i].summary.len() + 2 <= t.len() && t.skip(p).take(es[i].summary.len() + 2 as int) == seq![' ']
                + es[i].summary + seq!['\n'] by {
            let n: int = es[i].summary.len() + 2 as int;
            if i < init.len() {
                assert(init[i] == es[i]);
                let p = choose|p: int|
                    #![trigger before.skip(p)]
                    0 <= p && p + init[i].summary.len() + 2 <= before.len() && before.skip(p).take(
                        init[i].summary.len() + 2 as int,
                    ) == seq![' '] + init[i].summary + seq!['\n'];
                assert(t.skip(p).take(n) =~= before.skip(p).take(n));
            } else {
                assert(es[i] == e);
                let tail = seq![' '] + e.summary + seq!['\n'];
                assert(line.subrange(7, line.len() as int) =~= tail);
                let p = t.len() - n;
                assert(t.skip(p).take(n) =~= line.subrange(7, line.len() as int));
            }
        }
    }
}

/// The agenda of the given entries: sorted by start (entries that start
/// together keep their order), a heading for each day, a line per entry.
pub fn agenda_from_entries(entries: Vec<AgendaEntry>) -> (text: String)
    requires
        entries_wf(entries_view(entries@)),
    ensures
        exists|r: Seq<EntryView>| is_stable_sort(r, entries_view(entries@)) && text@ == agenda_text(r),
{
    let ghost input = entries_view(entries@);
    let sorted = sort_by_start(entries);
    let ghost r = entries_view(sorted@);
    assert(entries_wf(r)) by {
        let p = choose|p: Seq<int>|
            {
                &&& is_permutation(p, input.len() as int)
                &&& forall|i: int| 0 <= i < r.len() ==> #[trigger] r[i] == input[p[i]]
                &&& forall|i: int, j: int|
                    0 <= i < j < r.len() && same_start(r[i], r[j]) ==> p[i] < p[j]
            };
        assert forall|i: int| 0 <= i < r.len() implies entry_wf(#[trigger] r[i]) by {
            assert(r[i] == input[p[i]]);
        }
    }
    let groups = group_by_day(sorted);
    let ghost gs = runs_view(groups@);
    let mut text = String::new();
    let mut i: usize = 0;
    assert(gs.take(0) =~= Seq::<Seq<EntryView>>::empty());
    while i < groups.len()
        invariant
            i <= groups.len(),
            gs == runs_view(groups@),
            is_day_runs(gs, r),
            entries_wf(r),
            text@ == agenda_text(concat_runs(gs.take(i as int))),
            i > 0 ==> concat_runs(gs.take(i as int)).len() > 0 && concat_runs(gs.take(i as int)).last().day_key
                == gs[i - 1][0].day_key,
        decreases groups.len() - i,
    {
        let group = &groups[i];
        assert(gs[i as int] == entries_view(group@));
        let ghost prefix = concat_runs(gs.take(i as int));
        proof {
            lemma_concat_runs_push(gs, i as int);
            lemma_concat_runs_take_wf(gs, r, i as int);
        }
        let mut j: usize = 0;
        while j < group.len()
            invariant
                j <= group.len(),
                i < groups.len(),
                group == groups@[i as int],
                gs == runs_view(groups@),
                is_day_runs(gs, r),
                gs[i as int] == entries_view(group@),
                entries_wf(gs[i as int]),
                prefix == concat_runs(gs.take(i as int)),
                i > 0 ==> prefix.len() > 0 && prefix.last().day_key == gs[i - 1][0].day_key,
                text@ == agenda_text(prefix + gs[i as int].take(j as int)),
            decreases group.len() - j,
        {
            let e = &group[j];
            let ghost ev = gs[i as int][j as int];
            assert(ev == e@);
            let ghost pre = prefix + gs[i as int].take(j as int);
            proof {
                lemma_agenda_push(pre, ev);
                assert(pre.push(ev) =~= prefix + gs[i as int].take(j + 1));
                assert(gs[i as int][j as int].day_key == gs[i as int][0].day_key);
                if j > 0 {
                    assert(pre.last() == gs[i as int][j - 1]);
                    assert(gs[i as int][j - 1].day_key == gs[i as int][0].day_key);
                } else if i > 0 {
                    assert(pre =~= prefix);
                    assert(gs[i as int][0].day_key != gs[i - 1][0].day_key);
                } else {
                    assert(pre.len() == 0);
                }
            }
            if j == 0 {
                push_heading(&mut text, e);
            }
            push_line(&mut text, e);
            j = j + 1;
        }
        assert(gs[i as int].take(group.len() as int) =~= gs[i as int]);
        proof {
            let g = gs[i as int];
            assert(g.len() > 0);
            assert(g[g.len() - 1].day_key == g[0].day_key);
        }
        i = i + 1;
    }
    assert(gs.take(groups.len() as int) =~= gs);
    text
}

proof fn lemma_concat_runs_take_wf(gs: Seq<Seq<EntryView>>, r: Seq<EntryView>, i: int)
    requires
        is_day_runs(gs, r),
        entries_wf(r),
        0 <= i < gs.len(),
    ensures
        entries_wf(gs[i]),
{
    assert forall|j: int| 0 <= j < gs[i].len() implies entry_wf(#[trigger] gs[i][j]) by {
        let k = lemma_concat_runs_elem(gs, i, j);
        assert(r[k] == gs[i][j]);
    }
}

proof fn lemma_concat_runs_elem(gs: Seq<Seq<EntryView>>, i: int, j: int) -> (k: int)
    requires
        0 <= i < gs.len(),
        0 <= j < gs[i].len(),
    ensures
        0 <= k < concat_runs(gs).len(),
        concat_runs(gs)[k] == gs[i][j],
    decreases gs.len(),
{
    let init = gs.drop_last();
    if i == gs.len() - 1 {
        concat_runs(init).len() + j
    } else {
        assert(init[i] == gs[i]);
        lemma_concat_runs_elem(init, i, j)
    }
}

/// The agenda of calendar items: the items with a start and a title, sorted
/// by start (items that start together keep their order), a heading for each
/// day, a line per item.
pub fn view_from_items(items: Vec<CalendarItem>) -> (view: String)
    requires
        items_parse(items@),
    ensures
        exists|r: Seq<EntryView>| is_stable_sort(r, agenda_entries(items@)) && view@ == agenda_text(r),
{
    match collect_entries(&items) {
        Some(es) => agenda_from_entries(es),
        None => {
            assert(false);
            String::new()
        },
    }
}

/// The agenda of calendar items (see `view_from_items`); none when an item
/// with a start and a title has a start that does not parse.
pub fn try_view_from_items(items: Vec<CalendarItem>) -> (view: Option<String>)
    ensures
        view is Some <==> items_parse(items@),
        view matches Some(v) ==> exists|r: Seq<EntryView>|
            is_stable_sort(r, agenda_entries(items@)) && v@ == agenda_text(r),
{
    match collect_entries(&items) {
        Some(_) => Some(view_from_items(items)),
        None => None,
    }
}

proof fn lemma_agenda_entries_concat(s: Seq<CalendarItem>, t: Seq<CalendarItem>)
    ensures
        agenda_entries(s + t) == agenda_entries(s) + agenda_entries(t),
    decreases t.len(),
{
    if t.len() == 0 {
        assert(s + t =~= s);
        assert(agenda_entries(s) + agenda_entries(t) =~= agenda_entries(s));
    } else {
        lemma_agenda_entries_concat(s, t.drop_last());
        assert((s + t).drop_last() =~= s + t.drop_last());
        assert((s + t).last() == t.last());
        if on_agenda(t.last()) {
            let e = item_entry(t.last()).unwrap();
            assert(agenda_entries(s) + agenda_entries(t.drop_last()).push(e) =~= (agenda_entries(s)
                + agenda_entries(t.drop_last())).push(e));
        }
    }
}

/// Items without a start or without a title leave the agenda as it was:
/// adding one anywhere gives the same entries, the same need for parsable
/// starts, and the same agenda.
pub proof fn law_untitled_items_change_nothing(before: Seq<CalendarItem>, x: CalendarItem, after: Seq<CalendarItem>)
    requires
        !on_agenda(x),
    ensures
        agenda_entries(before + seq![x] + after) == agenda_entries(before + after),
        items_parse(before + seq![x] + after) <==> items_parse(before + after),
        forall|r1: Seq<EntryView>, r2: Seq<EntryView>|
            is_stable_sort(r1, agenda_entries(before + seq![x] + after)) && is_stable_sort(
                r2,
                agenda_entries(before + after),
            ) ==> agenda_text(r1) == agenda_text(r2),
{
    let with = before + seq![x] + after;
    let without = before + after;
    lemma_agenda_entries_concat(before + seq![x], after);
    lemma_agenda_entries_concat(before, seq![x]);
    lemma_agenda_entries_concat(before, after);
    assert(seq![x].drop_last() =~= Seq::<CalendarItem>::empty());
    assert(agenda_entries(seq![x]) == agenda_entries(Seq::<CalendarItem>::empty()));
    assert(agenda_entries(before) + Seq::<EntryView>::empty() =~= agenda_entries(before));
    let n = before.len();
    assert forall|i: int| 0 <= i < without.len() implies #[trigger] without[i] == with[if i < n {
        i
    } else {
        i + 1
    }] by {}
    if items_parse(without) {
        assert forall|i: int| 0 <= i < with.len() && on_agenda(#[trigger] with[i]) implies item_entry(
            with[i],
        ) is Some by {
            if i < n {
                assert(with[i] == without[i]);
            } else if i > n {
                assert(with[i] == without[i - 1]);
            } else {
                assert(with[i] == x);
            }
        }
    }
    if items_parse(with) {
        assert forall|i: int| 0 <= i < without.len() && on_agenda(#[trigger] without[i]) implies item_entry(
            without[i],
        ) is Some by {
            if i < n {
                assert(without[i] == with[i]);
            } else {
                assert(without[i] == with[i + 1]);
            }
        }
    }
    assert forall|r1: Seq<EntryView>, r2: Seq<EntryView>|
        is_stable_sort(r1, agenda_entries(with)) && is_stable_sort(r2, agenda_entries(without)) implies agenda_text(r1)
        == agenda_text(r2) by {
        law_stable_sort_is_unique(r1, r2, agenda_entries(without));
    }
}

/// `a` starts strictly before `b`.
pub open spec fn starts_before(a: EntryView, b: EntryView) -> bool {
    starts_no_later(a, b) && !same_start(a, b)
}

proof fn lemma_agenda_entries_origin(s: Seq<CalendarItem>)
    ensures
        forall|k: int|
            #![trigger agenda_entries(s)[k]]
            0 <= k < agenda_entries(s).len() ==> exists|i: int|
                0 <= i < s.len() && on_agenda(#[trigger] s[i]) && item_entry(s[i]).unwrap() == agenda_entries(
                    s,
                )[k],
        forall|i: int|
            0 <= i < s.len() && on_agenda(#[trigger] s[i]) ==> agenda_entries(s).contains(item_entry(s[i]).unwrap()),
    decreases s.len(),
{
    if s.len() > 0 {
        let init = s.drop_last();
        lemma_agenda_entries_origin(init);
        let (ei, e) = (agenda_entries(init), agenda_entries(s));
        assert forall|k: int| #![trigger e[k]] 0 <= k < e.len() implies exists|i: int|
            0 <= i < s.len() && on_agenda(#[trigger] s[i]) && item_entry(s[i]).unwrap() == e[k] by {
            if k < ei.len() {
                assert(e[k] == ei[k]);
                let i = choose|i: int| 0 <= i < init.len() && on_agenda(#[trigger] init[i]) && item_entry(init[i]).unwrap() == ei[k];
                assert(s[i] == init[i]);
            } else {
                assert(s[s.len() - 1] == s.last());
            }
        }
        assert forall|i: int| 0 <= i < s.len() && on_agenda(#[trigger] s[i]) implies e.contains(
            item_entry(s[i]).unwrap(),
        ) by {
            if i < init.len() {
                assert(s[i] == init[i]);
                let k = choose|k: int| 0 <= k < ei.len() && ei[k] == item_entry(init[i]).unwrap();
                assert(e[k] == ei[k]);
            } else {
                assert(e[e.len() - 1] == item_entry(s[i]).unwrap());
            }
        }
    }
}

/// The items on the agenda start at pairwise different instants.
pub open spec fn distinct_starts(items: Seq<CalendarItem>) -> bool {
    forall|i: int, j: int|
        0 <= i < j < items.len() && on_agenda(#[trigger] items[i]) && on_agenda(#[trigger] items[j]) ==> !same_start(
            item_entry(items[i]).unwrap(),
            item_entry(items[j]).unwrap(),
        )
}

proof fn lemma_entries_distinct(s: Seq<CalendarItem>)
    requires
        distinct_starts(s),
    ensures
        forall|a: int, b: int|
            0 <= a < b < agenda_entries(s).len() ==> !same_start(
                #[trigger] agenda_entries(s)[a],
                #[trigger] agenda_entries(s)[b],
            ),
    decreases s.len(),
{
    if s.len() > 0 {
        let init = s.drop_last();
        assert forall|i: int, j: int|
            0 <= i < j < init.len() && on_agenda(#[trigger] init[i]) && on_agenda(#[trigger] init[j]) implies !same_start(
            item_entry(init[i]).unwrap(),
            item_entry(init[j]).unwrap(),
        ) by {
            assert(init[i] == s[i] && init[j] == s[j]);
        }
        lemma_entries_distinct(init);
        lemma_agenda_entries_origin(init);
        let (ei, e) = (agenda_entries(init), agenda_entries(s));
        assert forall|a: int, b: int| 0 <= a < b < e.len() implies !same_start(#[trigger] e[a], #[trigger] e[b]) by {
            if b < ei.len() {
                assert(e[a] == ei[a] && e[b] == ei[b]);
            } else {
                assert(e[a] == ei[a]);
                let i = choose|i: int| 0 <= i < init.len() && on_agenda(#[trigger] init[i]) && item_entry(init[i]).unwrap() == ei[a];
                assert(s[i] == init[i]);
                assert(on_agenda(s[s.len() - 1]));
            }
        }
    }
}

proof fn lemma_sort_of_distinct(r: Seq<EntryView>, v: Seq<EntryView>)
    requires
        is_stable_sort(r, v),
        forall|a: int, b: int| 0 <= a < b < v.len() ==> !same_start(#[trigger] v[a], #[trigger] v[b]),
    ensures
        forall|x: EntryView| r.contains(x) <==> v.contains(x),
        forall|i: int, j: int| 0 <= i < j < r.len() ==> starts_before(#[trigger] r[i], #[trigger] r[j]),
{
    let p = choose|p: Seq<int>|
        {
            &&& is_permutation(p, v.len() as int)
            &&& forall|i: int| 0 <= i < r.len() ==> #[trigger] r[i] == v[p[i]]
            &&& forall|i: int, j: int| 0 <= i < j < r.len() && same_start(r[i], r[j]) ==> p[i] < p[j]
        };
    assert forall|x: EntryView| r.contains(x) <==> v.contains(x) by {
        if r.contains(x) {
            let i = choose|i: int| 0 <= i < r.len() && r[i] == x;
            assert(v[p[i]] == r[i]);
        }
        if v.contains(x) {
            let k = choose|k: int| 0 <= k < v.len() && v[k] == x;
            assert(lists(p, k));
            let i = choose|i: int| 0 <= i < p.len() && p[i] == k;
            assert(r[i] == v[p[i]]);
        }
    }
    assert forall|i: int, j: int| 0 <= i < j < r.len() implies starts_before(#[trigger] r[i], #[trigger] r[j]) by {
        assert(r[i] == v[p[i]] && r[j] == v[p[j]]);
        if p[i] < p[j] {
            assert(!same_start(v[p[i]], v[p[j]]));
        } else {
            assert(!same_start(v[p[j]], v[p[i]]));
        }
    }
}

proof fn lemma_increasing_agree(r1: Seq<EntryView>, r2: Seq<EntryView>, i: int)
    requires
        forall|x: EntryView| r1.contains(x) <==> r2.contains(x),
        forall|a: int, b: int| 0 <= a < b < r1.len() ==> starts_before(#[trigger] r1[a], #[trigger] r1[b]),
        forall|a: int, b: int| 0 <= a < b < r2.len() ==> starts_before(#[trigger] r2[a], #[trigger] r2[b]),
        0 <= i < r1.len(),
        i < r2.len(),
    ensures
        forall|j: int| 0 <= j <= i ==> r1[j] == r2[j],
    decreases i,
{
    if i > 0 {
        lemma_increasing_agree(r1, r2, i - 1);
    }
    if r1[i] != r2[i] {
        assert(r1.contains(r1[i]));
        let k = choose|k: int| 0 <= k < r2.len() && r2[k] == r1[i];
        assert(r2.contains(r2[i]));
        let l = choose|l: int| 0 <= l < r1.len() && r1[l] == r2[i];
        if k < i {
            assert(r1[k] == r2[k]);
            assert(starts_before(r1[k], r1[i]));
        } else if l < i {
            assert(r1[l] == r2[l]);
            assert(starts_before(r2[l], r2[i]));
        } else {
            assert(starts_before(r2[i], r2[k]));
            assert(starts_before(r1[i], r1[l]));
        }
    }
}

proof fn lemma_increasing_equal(r1: Seq<EntryView>, r2: Seq<EntryView>)
    requires
        forall|x: EntryView| r1.contains(x) <==> r2.contains(x),
        forall|a: int, b: int| 0 <= a < b < r1.len() ==> starts_before(#[trigger] r1[a], #[trigger] r1[b]),
        forall|a: int, b: int| 0 <= a < b < r2.len() ==> starts_before(#[trigger] r2[a], #[trigger] r2[b]),
    ensures
        r1 == r2,
{
    let n = if r1.len() < r2.len() {
        r1.len()
    } else {
        r2.len()
    };
    if n > 0 {
        lemma_increasing_agree(r1, r2, n - 1);
    }
    if r1.len() < r2.len() {
        assert(r2.contains(r2[n as int]));
        let k = choose|k: int| 0 <= k < r1.len() && r1[k] == r2[n as int];
        assert(r1[k] == r2[k]);
        assert(starts_before(r2[k], r2[n as int]));
    } else if r2.len() < r1.len() {
        assert(r1.contains(r1[n as int]));
        let k = choose|k: int| 0 <= k < r2.len() && r2[k] == r1[n as int];
        assert(r1[k] == r2[k]);
        assert(starts_before(r1[k], r1[n as int]));
    }
    assert(r1 =~= r2);
}

/// Reordering the calendar items does not change the agenda when the items
/// on it start at pairwise different instants.
pub proof fn law_reordered_items_give_same_agenda(items: Seq<CalendarItem>, items2: Seq<CalendarItem>, p: Seq<int>)
    requires
        is_permutation(p, items.len() as int),
        items2.len() == items.len(),
        forall|i: int| 0 <= i < items2.len() ==> #[trigger] items2[i] == items[p[i]],
        items_parse(items),
        distinct_starts(items),
    ensures
        items_parse(items2),
        forall|r1: Seq<EntryView>, r2: Seq<EntryView>|
            is_stable_sort(r1, agenda_entries(items)) && is_stable_sort(r2, agenda_entries(items2)) ==> r1 == r2,
{
    assert forall|i: int| 0 <= i < items2.len() && on_agenda(#[trigger] items2[i]) implies item_entry(items2[i]) is Some by {
        assert(items2[i] == items[p[i]]);
    }
    assert forall|i: int, j: int|
        0 <= i < j < items2.len() && on_agenda(#[trigger] items2[i]) && on_agenda(#[trigger] items2[j]) implies !same_start(
        item_entry(items2[i]).unwrap(),
        item_entry(items2[j]).unwrap(),
    ) by {
        assert(items2[i] == items[p[i]] && items2[j] == items[p[j]]);
        if p[i] < p[j] {
            assert(on_agenda(items[p[i]]) && on_agenda(items[p[j]]));
        } else {
            assert(p[i] != p[j]);
            assert(on_agenda(items[p[j]]) && on_agenda(items[p[i]]));
        }
    }
    let (e1, e2) = (agenda_entries(items), agenda_entries(items2));
    lemma_entries_distinct(items);
    lemma_entries_distinct(items2);
    lemma_agenda_entries_origin(items);
    lemma_agenda_entries_origin(items2);
    assert forall|x: EntryView| e1.contains(x) <==> e2.contains(x) by {
        if e1.contains(x) {
            let k = choose|k: int| 0 <= k < e1.len() && e1[k] == x;
            let i = choose|i: int| 0 <= i < items.len() && on_agenda(#[trigger] items[i]) && item_entry(items[i]).unwrap() == e1[k];
            assert(lists(p, i));
            let j = choose|j: int| 0 <= j < p.len() && p[j] == i;
            assert(items2[j] == items[i]);
        }
        if e2.contains(x) {
            let k = choose|k: int| 0 <= k < e2.len() && e2[k] == x;
            let i = choose|i: int| 0 <= i < items2.len() && on_agenda(#[trigger] items2[i]) && item_entry(items2[i]).unwrap() == e2[k];
            assert(items2[i] == items[p[i]]);
        }
    }
    assert forall|r1: Seq<EntryView>, r2: Seq<EntryView>|
        is_stable_sort(r1, e1) && is_stable_sort(r2, e2) implies r1 == r2 by {
        lemma_sort_of_distinct(r1, e1);
        lemma_sort_of_distinct(r2, e2);
        lemma_increasing_equal(r1, r2);
    }
}

/// What chrono's `to_rfc3339()` writes for the instant `secs` seconds and
/// `nanos` nanoseconds after the Unix epoch, shown in the zone `offset`
/// seconds ahead of UTC.
pub uninterp spec fn rfc3339_text(secs: i64, nanos: u32, offset: i32) -> Seq<char>;

/// Seconds of the instants whose date, in any zone less than a day from UTC,
/// has a year from 1 to 9999 (so `to_rfc3339` writes it on four digits).
pub open spec fn four_digit_year_secs(secs: int) -> bool {
    -62_135_510_400 <= secs <= 253_402_214_399
}

/// `parse_from_rfc3339` reads `text` as the instant `secs` seconds and `nanos`
/// nanoseconds after the Unix epoch.
pub open spec fn reads_back(text: Seq<char>, secs: int, nanos: int) -> bool {
    match rfc3339_parse(text) {
        Some((s, n, _, _, _, _, _)) => s == secs && n == nanos,
        None => false,
    }
}

/// Calls `chrono::FixedOffset::east_opt(offset)`, `chrono::DateTime::from_timestamp`,
/// `with_timezone` to that offset and `to_rfc3339()`. Claimed: the text is the
/// name `rfc3339_text` of the arguments; and for an offset of whole minutes
/// and a four-digit year, `parse_from_rfc3339` reads back the same instant
/// (chrono writes `YYYY-MM-DDTHH:MM:SS[.fraction]+HH:MM`, rounding the offset
/// to minutes, and its parser reads that form).
#[verifier::external_body]
fn format_rfc3339(secs: i64, nanos: u32, offset: i32) -> (text: String)
    requires
        chrono_secs(secs as int),
        nanos < 1_000_000_000,
        -86_400 < offset < 86_400,
    ensures
        text@ == rfc3339_text(secs, nanos, offset),
        offset % 60 == 0 && four_digit_year_secs(secs as int) ==> reads_back(text@, secs as int, nanos as int),
{
    let zone = chrono::FixedOffset::east_opt(offset).unwrap();
    chrono::DateTime::from_timestamp(secs, nanos).unwrap().with_timezone(&zone).to_rfc3339()
}

/// `text` is the RFC 3339 text of the instant `t` (in nanoseconds) in some
/// zone less than a day from UTC; when that zone's offset is whole minutes
/// and the year has four digits, the text reads back as `t`.
pub open spec fn rfc3339_of(text: Seq<char>, t: int) -> bool {
    exists|offset: i32|
        {
            &&& -86_400 < offset < 86_400
            &&& text == #[trigger] rfc3339_text((t / 1_000_000_000) as i64, (t % 1_000_000_000) as u32, offset)
            &&& offset % 60 == 0 && four_digit_year_secs(t / 1_000_000_000) ==> reads_back(
                text,
                t / 1_000_000_000,
                t % 1_000_000_000,
            )
        }
}

/// The window of the agenda: from `now` to one week later, both written in
/// RFC 3339 at the machine's local offset; none when chrono cannot represent
/// the end of the week.
pub fn agenda_window(now: Time) -> (window: Option<(String, String)>)
    requires
        chrono_range(now as int),
    ensures
        window is Some <==> chrono_range(now + 604_800 * 1_000_000_000),
        window matches Some((from, to)) ==> rfc3339_of(from@, now as int) && rfc3339_of(
            to@,
            now + 604_800 * 1_000_000_000,
        ),
{
    let secs = match now.checked_div_euclid(NANOS_PER_SEC) {
        Some(q) => q,
        None => 0,
    };
    let nanos = match now.checked_rem_euclid(NANOS_PER_SEC) {
        Some(r) => r,
        None => 0,
    };
    assert(chrono_secs(secs as int)) by (nonlinear_arith)
        requires
            secs == now as int / 1_000_000_000int,
            chrono_range(now as int),
    ;
    assert(chrono_range(now + 604_800 * 1_000_000_000) <==> chrono_secs(secs + 604_800)) by (nonlinear_arith)
        requires
            now == secs * 1_000_000_000 + nanos,
            0 <= nanos < 1_000_000_000,
    ;
    match add_weeks(secs as i64, nanos as u32, 1) {
        Some((end_secs, end_nanos)) => {
            let from_offset = local_offset_secs(secs as i64, nanos as u32);
            let from = format_rfc3339(secs as i64, nanos as u32, from_offset);
            let to_offset = local_offset_secs(end_secs, end_nanos);
            let to = format_rfc3339(end_secs, end_nanos, to_offset);
            let ghost end = now + 604_800 * 1_000_000_000;
            assert(end / 1_000_000_000 == end_secs && end % 1_000_000_000 == end_nanos) by (nonlinear_arith)
                requires
                    end == now + 604_800 * 1_000_000_000,
                    now == secs * 1_000_000_000 + nanos,
                    0 <= nanos < 1_000_000_000,
                    end_secs == secs + 604_800,
                    end_nanos == nanos,
            ;
            assert(secs == now as int / 1_000_000_000 && nanos == now as int % 1_000_000_000);
            assert((secs as i64) as int == secs as int && (nanos as u32) as int == nanos as int);
            assert(from@ == rfc3339_text((now as int / 1_000_000_000) as i64, (now as int % 1_000_000_000) as u32, from_offset));
            assert(to@ == rfc3339_text((end / 1_000_000_000) as i64, (end % 1_000_000_000) as u32, to_offset));
            assert(rfc3339_of(from@, now as int));
            assert(rfc3339_of(to@, end));
            Some((from, to))
        },
        None => None,
    }
}

} // verus!
