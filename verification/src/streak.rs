//! The longest streak of consecutive days on which a game was done.
use vstd::prelude::*;
use crate::calendar::{Time, NANOS_PER_SEC};
use crate::game::Game;

verus! {

/// `k` is the length of the streak of days in `s` that ends on day `d`: the
/// days `d, d - 1, ..., d - k + 1` are all in `s`, and `d - k` is not.
pub open spec fn streak_at(s: Seq<int>, d: int, k: int) -> bool {
    &&& forall|j: int| 0 <= j < k ==> s.contains(#[trigger] (d - j))
    &&& !s.contains(d - k)
}

/// `r` is the length of the longest streak of consecutive days in `s`
/// (zero when `s` is empty).
pub open spec fn is_longest_streak(s: Seq<int>, r: int) -> bool {
    &&& s.len() == 0 ==> r == 0
    &&& s.len() > 0 ==> exists|i: int| 0 <= i < s.len() && streak_at(s, #[trigger] s[i], r)
    &&& forall|i: int, k: int| 0 <= i < s.len() && #[trigger] streak_at(s, s[i], k) ==> k <= r
}

pub open spec fn as_ints(v: Seq<i32>) -> Seq<int> {
    v.map_values(|x: i32| x as int)
}

proof fn lemma_streak_bounded(s: Seq<int>, d: int, k: int)
    requires
        k >= 0,
        forall|j: int| 0 <= j < k ==> s.contains(#[trigger] (d - j)),
    ensures
        k <= s.len(),
{
    vstd::set_lib::lemma_int_range(d - k + 1, d + 1);
    let range = vstd::set_lib::set_int_range(d - k + 1, d + 1);
    assert(range.subset_of(s.to_set())) by {
        assert forall|x: int| range.contains(x) implies s.to_set().contains(x) by {
            assert(s.contains(d - (d - x)));
        }
    }
    vstd::set_lib::lemma_len_subset(range, s.to_set());
    s.lemma_cardinality_of_set();
}

proof fn lemma_streak_unique(s: Seq<int>, d: int, k1: int, k2: int)
    requires
        k1 >= 0,
        k2 >= 0,
        streak_at(s, d, k1),
        streak_at(s, d, k2),
    ensures
        k1 == k2,
{
    if k1 < k2 {
        assert(s.contains(d - k1));
    } else if k2 < k1 {
        assert(s.contains(d - k2));
    }
}

fn contains_day(v: &Vec<i32>, x: i64) -> (found: bool)
    ensures
        found == as_ints(v@).contains(x as int),
{
    let ghost s = as_ints(v@);
    let mut i: usize = 0;
    while i < v.len()
        invariant
            i <= v.len(),
            s == as_ints(v@),
            forall|j: int| 0 <= j < i ==> v@[j] as int != x as int,
        decreases v.len() - i,
    {
        if v[i] as i64 == x {
            assert(s[i as int] == x as int);
            return true;
        }
        i = i + 1;
    }
    assert(!s.contains(x as int)) by {
        if s.contains(x as int) {
            let k = choose|k: int| 0 <= k < s.len() && s[k] == x as int;
            assert(v@[k] as int == x as int);
        }
    }
    false
}

/// Length of the longest streak of consecutive days among `dates`.
pub fn longest_streak(dates: &Vec<i32>) -> (max: i32)
    requires
        dates.len() < i32::MAX,
    ensures
        is_longest_streak(as_ints(dates@), max as int),
{
    let ghost s = as_ints(dates@);
    let n = dates.len();
    let mut max: i32 = 0;
    let mut idx: usize = 0;
    while idx < n
        invariant
            idx <= n,
            n == dates.len(),
            n < i32::MAX,
            s == as_ints(dates@),
            0 <= max <= n,
            idx == 0 ==> max == 0,
            idx > 0 ==> exists|i: int| 0 <= i < idx && streak_at(s, #[trigger] s[i], max as int),
            forall|i: int, k: int| 0 <= i < idx && k >= 0 && #[trigger] streak_at(s, s[i], k) ==> k <= max,
        decreases n - idx,
    {
        let date = dates[idx] as i64;
        assert(s[idx as int] == date as int);
        let mut previous: i64 = date - 1;
        let mut days: i32 = 1;
        assert(s.contains(date as int - 0));
        while contains_day(dates, previous)
            invariant
                1 <= days <= n,
                n == dates.len(),
                n < i32::MAX,
                s == as_ints(dates@),
                i32::MIN <= date <= i32::MAX,
                previous == date - days,
                forall|j: int| 0 <= j < days ==> s.contains(#[trigger] (date - j)),
            decreases n - days,
        {
            proof {
                assert forall|j: int| 0 <= j < days + 1 implies s.contains(#[trigger] (date - j)) by {
                    if j == days {
                        assert(date - j == previous);
                    }
                }
                lemma_streak_bounded(s, date as int, days + 1);
            }
            previous = previous - 1;
            days = days + 1;
        }
        assert(streak_at(s, s[idx as int], days as int));
        let ghost old_max = max;
        if max < days {
            max = days;
        }
        proof {
            assert forall|i: int, k: int| 0 <= i < idx + 1 && k >= 0 && #[trigger] streak_at(s, s[i], k) implies k
                <= max by {
                if i == idx {
                    lemma_streak_unique(s, s[i], k, days as int);
                }
            }
            if max == days {
                assert(streak_at(s, s[idx as int], max as int));
            } else {
                let w = choose|i: int| 0 <= i < idx && streak_at(s, #[trigger] s[i], old_max as int);
                assert(streak_at(s, s[w], max as int));
            }
        }
        idx = idx + 1;
    }
    max
}

/// The longest streak of a non-empty list of days is at least one day and at
/// most as many days as the list holds.
pub proof fn law_longest_streak_bounds(s: Seq<int>, r: int)
    requires
        is_longest_streak(s, r),
        s.len() > 0,
    ensures
        1 <= r <= s.len(),
{
    let i = choose|i: int| 0 <= i < s.len() && #[trigger] streak_at(s, s[i], r);
    let d = s[i];
    if r <= 0 {
        assert(s.contains(d)) by {
            assert(s[i] == d);
        }
        lemma_streak_exists(s, d);
        let k = choose|k: int| k >= 1 && streak_at(s, d, k);
        assert(streak_at(s, s[i], k));
    } else {
        lemma_streak_bounded(s, d, r);
    }
}

proof fn lemma_streak_exists(s: Seq<int>, d: int)
    requires
        s.contains(d),
    ensures
        exists|k: int| k >= 1 && streak_at(s, d, k),
{
    let _ = lemma_streak_from(s, d, 1);
}

/// Walks back from a run of `k` days ending on `d` to the end of the streak.
proof fn lemma_streak_from(s: Seq<int>, d: int, k: int) -> (n: int)
    requires
        k >= 1,
        forall|j: int| 0 <= j < k ==> s.contains(#[trigger] (d - j)),
    ensures
        n >= k,
        streak_at(s, d, n),
    decreases s.len() + 1 - k,
{
    lemma_streak_bounded(s, d, k);
    if s.contains(d - k) {
        assert forall|j: int| 0 <= j < k + 1 implies s.contains(#[trigger] (d - j)) by {
            if j == k {
            }
        }
        lemma_streak_bounded(s, d, k + 1);
        lemma_streak_from(s, d, k + 1)
    } else {
        k
    }
}

/// The longest streak depends only on which days are present: lists with the
/// same days, in any order and with any repetitions, have the same longest
/// streak.
pub proof fn law_longest_streak_depends_on_days_only(s1: Seq<int>, s2: Seq<int>, r: int)
    requires
        forall|d: int| s1.contains(d) <==> s2.contains(d),
        is_longest_streak(s1, r),
    ensures
        is_longest_streak(s2, r),
{
    assert forall|d: int, k: int| streak_at(s1, d, k) <==> streak_at(s2, d, k) by {
        if streak_at(s1, d, k) {
            assert forall|j: int| 0 <= j < k implies s2.contains(#[trigger] (d - j)) by {
                assert(s1.contains(d - j));
            }
        }
        if streak_at(s2, d, k) {
            assert forall|j: int| 0 <= j < k implies s1.contains(#[trigger] (d - j)) by {
                assert(s2.contains(d - j));
            }
        }
    }
    if s2.len() == 0 {
        if s1.len() > 0 {
            assert(s1.contains(s1[0]));
        }
    }
    if s2.len() > 0 {
        assert(s2.contains(s2[0]));
        let i = choose|i: int| 0 <= i < s1.len() && #[trigger] streak_at(s1, s1[i], r);
        assert(s1.contains(s1[i]));
        let j = choose|j: int| 0 <= j < s2.len() && s2[j] == s1[i];
        assert(streak_at(s2, s2[j], r));
    }
    assert forall|i: int, k: int| 0 <= i < s2.len() && #[trigger] streak_at(s2, s2[i], k) implies k <= r by {
        assert(s2.contains(s2[i]));
        let j = choose|j: int| 0 <= j < s1.len() && s1[j] == s2[i];
        assert(streak_at(s1, s1[j], k));
    }
}

/// Seconds since the Unix epoch of the instants chrono represents: from
/// -262143-01-01T00:00:00Z to 262142-12-31T23:59:59Z, its `NaiveDate::MIN`
/// and `NaiveDate::MAX`.
pub open spec fn chrono_secs(secs: int) -> bool {
    -8_334_601_315_200 <= secs <= 8_210_266_876_799
}

/// Instants (in nanoseconds) that chrono represents: those whose whole
/// second is in `chrono_secs`.
pub open spec fn chrono_range(t: int) -> bool {
    -8_334_601_315_200_000_000_000 <= t <= 8_210_266_876_799_999_999_999
}

/// Day number, counted from 0001-01-01 as day 1, of the local date of the
/// instant `t` (in nanoseconds) in a zone `offset` seconds ahead of UTC.
pub open spec fn local_day_from_ce(t: int, offset: int) -> int {
    (t / (NANOS_PER_SEC as int) + offset) / 86400 + 719_163
}

/// `d` is the local date of instant `t` in some zone less than a day away
/// from UTC.
pub open spec fn is_local_day(t: int, d: int) -> bool {
    exists|offset: int| -86_400 < offset < 86_400 && d == local_day_from_ce(t, offset)
}

/// Calls `chrono::DateTime::from_timestamp`, moves the instant to the
/// machine's local time zone with `with_timezone(&chrono::Local)` and gives
/// `offset().local_minus_utc()`, the local offset in seconds. It depends on the
/// machine's time zone, so only chrono's `FixedOffset` bound is claimed: less
/// than one day either way.
#[verifier::external_body]
pub(crate) fn local_offset_secs(secs: i64, nanos: u32) -> (offset: i32)
    requires
        chrono_secs(secs as int),
        nanos < 1_000_000_000,
    ensures
        -86_400 < offset < 86_400,
{
    chrono::DateTime::from_timestamp(secs, nanos).unwrap().with_timezone(&chrono::Local).offset().local_minus_utc()
}

/// The longest streak of consecutive local days on which the game was done.
/// Each event's local day is its date at the machine's offset from UTC at that
/// instant, which is less than a day.
pub fn _consecutive_days(g: &Game) -> (max: i32)
    requires
        g.events.len() < i32::MAX,
        forall|i: int| 0 <= i < g.events.len() ==> chrono_range(#[trigger] g.events@[i] as int),
    ensures
        exists|ds: Seq<int>|
            {
                &&& ds.len() == g.events.len()
                &&& forall|i: int| 0 <= i < ds.len() ==> is_local_day(g.events@[i] as int, #[trigger] ds[i])
                &&& is_longest_streak(ds, max as int)
            },
{
    let mut dates: Vec<i32> = Vec::new();
    let mut i: usize = 0;
    while i < g.events.len()
        invariant
            i <= g.events.len(),
            dates@.len() == i,
            forall|j: int| 0 <= j < g.events.len() ==> chrono_range(#[trigger] g.events@[j] as int),
            forall|j: int| 0 <= j < i ==> is_local_day(g.events@[j] as int, #[trigger] dates@[j] as int),
        decreases g.events.len() - i,
    {
        let t: Time = g.events[i];
        let secs = match t.checked_div_euclid(NANOS_PER_SEC) {
            Some(q) => q,
            None => 0,
        };
        let nanos = match t.checked_rem_euclid(NANOS_PER_SEC) {
            Some(r) => r,
            None => 0,
        };
        assert(chrono_secs(secs as int)) by (nonlinear_arith)
            requires
                secs == t as int / 1_000_000_000int,
                chrono_range(t as int),
        ;
        let offset = local_offset_secs(secs as i64, nanos as u32);
        let local = secs + offset as i128;
        let day = match local.checked_div_euclid(86_400) {
            Some(q) => q,
            None => 0,
        };
        assert(-200_000_000 < day < 200_000_000) by (nonlinear_arith)
            requires
                day == local as int / 86_400int,
                -8_334_601_401_600 < local < 8_210_266_963_200,
        ;
        let d = (day + 719_163) as i32;
        assert(d as int == local_day_from_ce(t as int, offset as int));
        assert(is_local_day(t as int, d as int));
        dates.push(d);
        i = i + 1;
    }
    let max = longest_streak(&dates);
    assert(as_ints(dates@).len() == g.events.len());
    assert forall|i: int| 0 <= i < g.events.len() implies is_local_day(
        g.events@[i] as int,
        #[trigger] as_ints(dates@)[i],
    ) by {
        assert(as_ints(dates@)[i] == dates@[i] as int);
    }
    max
}

} // verus!
