//! The grid of days that shows how a game went, one row per week.
use vstd::prelude::*;
use crate::calendar::{
    california_day, california_day_spec, day_in_range, time_in_range, weekday_of_day,
    weekday_of_day_spec, Time, Weekday,
};
use crate::game::{Game, GameView};

verus! {

/// California day numbers of instants.
pub open spec fn days_of(events: Seq<Time>) -> Seq<int> {
    events.map_values(|t: Time| california_day_spec(t as int))
}

/// Smallest element of a non-empty sequence.
pub open spec fn seq_min(s: Seq<int>) -> int
    decreases s.len(),
{
    if s.len() <= 1 {
        s[0]
    } else {
        let m = seq_min(s.drop_last());
        if s.last() < m {
            s.last()
        } else {
            m
        }
    }
}

/// The Sunday on or before day `d`.
pub open spec fn sunday_on_or_before(d: int) -> int {
    d - (d + 4) % 7
}

/// The cell of one day: a line break before each Sunday, then `X` when the
/// game was done that day, `O` for today, `o` for the first and last day of
/// the game, `_` otherwise.
pub open spec fn grid_cell(day: int, done: Seq<int>, today: int, first: int, last: int) -> Seq<char> {
    let mark = if done.contains(day) {
        'X'
    } else if day == today {
        'O'
    } else if day == first || day == last {
        'o'
    } else {
        '_'
    };
    if weekday_of_day_spec(day) == Weekday::Sun {
        seq!['\n', mark]
    } else {
        seq![mark]
    }
}

/// The cells of the days `from <= day < to`.
pub open spec fn grid_cells(from: int, to: int, done: Seq<int>, today: int, first: int, last: int) -> Seq<char>
    decreases to - from,
{
    if to <= from {
        Seq::empty()
    } else {
        grid_cells(from, to - 1, done, today, first, last) + grid_cell(to - 1, done, today, first, last)
    }
}

/// All instants of a game are ones the calendar handles.
pub open spec fn game_in_range(g: GameView) -> bool {
    &&& time_in_range(g.start)
    &&& time_in_range(g.end)
    &&& forall|i: int| 0 <= i < g.events.len() ==> time_in_range(g.events[i] as int)
}

/// The grid of a game that is running at `now`: a title line, then one cell
/// per day from the Sunday on or before the earliest event (or the first day
/// when there is no event) up to the game's last day; empty when the game is
/// not running.
pub open spec fn github_graph_spec(g: GameView, now: int) -> Seq<char> {
    if now < g.end && now > g.start {
        let done = days_of(g.events);
        let today = california_day_spec(now);
        let first = california_day_spec(g.start);
        let last = california_day_spec(g.end);
        let lowest = if done.len() > 0 {
            seq_min(done)
        } else {
            first
        };
        "\n"@ + "Game /"@ + g.name + "\n"@ + grid_cells(
            sunday_on_or_before(lowest),
            last + 1,
            done,
            today,
            first,
            last,
        ) + "\n"@
    } else {
        Seq::empty()
    }
}

fn contains_day(days: &Vec<i128>, d: i128) -> (found: bool)
    ensures
        found == days@.map_values(|x: i128| x as int).contains(d as int),
{
    let ghost ints = days@.map_values(|x: i128| x as int);
    let mut i: usize = 0;
    while i < days.len()
        invariant
            i <= days.len(),
            ints == days@.map_values(|x: i128| x as int),
            forall|j: int| 0 <= j < i ==> days@[j] != d,
        decreases days.len() - i,
    {
        if days[i] == d {
            assert(ints[i as int] == d as int);
            return true;
        }
        i = i + 1;
    }
    assert(!ints.contains(d as int)) by {
        if ints.contains(d as int) {
            let k = choose|k: int| 0 <= k < ints.len() && ints[k] == d as int;
            assert(days@[k] == d);
        }
    }
    false
}

/// The California days of the given instants.
fn california_days(events: &Vec<Time>) -> (days: Vec<i128>)
    requires
        forall|i: int| 0 <= i < events.len() ==> time_in_range(events@[i] as int),
    ensures
        days@.len() == events@.len(),
        forall|i: int| 0 <= i < days@.len() ==> #[trigger] days@[i] as int == days_of(events@)[i],
        forall|i: int| 0 <= i < days@.len() ==> day_in_range(#[trigger] days@[i] as int),
{
    let mut days: Vec<i128> = Vec::new();
    let mut i: usize = 0;
    while i < events.len()
        invariant
            i <= events.len(),
            days@.len() == i,
            forall|j: int| 0 <= j < events.len() ==> time_in_range(events@[j] as int),
            forall|j: int| 0 <= j < i ==> #[trigger] days@[j] as int == days_of(events@)[j],
            forall|j: int| 0 <= j < i ==> day_in_range(#[trigger] days@[j] as int),
        decreases events.len() - i,
    {
        let d = california_day(events[i]);
        days.push(d);
        i = i + 1;
    }
    days
}

/// Smallest of a non-empty list of days.
fn min_day(days: &Vec<i128>) -> (m: i128)
    requires
        days@.len() > 0,
    ensures
        m as int == seq_min(days@.map_values(|d: i128| d as int)),
        exists|i: int| 0 <= i < days@.len() && days@[i] == m,
{
    let ghost ints = days@.map_values(|d: i128| d as int);
    let mut m = days[0];
    let mut i: usize = 1;
    assert(ints.take(1).drop_last() =~= Seq::<int>::empty());
    while i < days.len()
        invariant
            1 <= i <= days.len(),
            ints == days@.map_values(|d: i128| d as int),
            m as int == seq_min(ints.take(i as int)),
            exists|j: int| 0 <= j < days@.len() && days@[j] == m,
        decreases days.len() - i,
    {
        assert(ints.take(i + 1).drop_last() =~= ints.take(i as int));
        if days[i] < m {
            m = days[i];
        }
        i = i + 1;
    }
    assert(ints.take(days.len() as int) =~= ints);
    m
}

/// The grid of a game running at `now`, as printed on the receipt; empty when
/// the game is not running.
pub fn github_graph(g: &Game, now: Time) -> (graph: String)
    requires
        game_in_range(g@),
        time_in_range(now as int),
    ensures
        graph@ == github_graph_spec(g@, now as int),
{
    if now < g.end && now > g.start {
        assert forall|i: int| 0 <= i < g.events.len() implies time_in_range(g.events@[i] as int) by {
            assert(g@.events[i] == g.events@[i]);
        }
        let dates = california_days(&g.events);
        let ghost done = days_of(g@.events);
        assert(dates@.map_values(|d: i128| d as int) =~= done);
        let today = california_day(now);
        let first_day = california_day(g.start);
        let last_day = california_day(g.end);
        let lowest = if dates.len() > 0 {
            min_day(&dates)
        } else {
            first_day
        };
        let back = match (lowest + 4).checked_rem_euclid(7) {
            Some(r) => r,
            None => 0,
        };
        let mut day_pointer = lowest - back;
        let ghost begin = day_pointer as int;
        assert(begin == sunday_on_or_before(lowest as int));
        proof {
            reveal_strlit("\n");
        }
        let mut output = String::new();
        output.append("Game /");
        output.append(g.name.as_str());
        output.append("\n");
        let ghost head = output@;
        assert(grid_cells(begin, begin, done, today as int, first_day as int, last_day as int) =~= Seq::<char>::empty());
        while day_pointer <= last_day
            invariant
                begin <= day_pointer <= if begin <= last_day { last_day + 1 } else { begin },
                day_in_range(last_day as int),
                day_in_range(begin),
                dates@.map_values(|d: i128| d as int) == done,
                output@ == head + grid_cells(begin, day_pointer as int, done, today as int, first_day as int, last_day as int),
            decreases last_day + 1 - day_pointer,
        {
            let ghost prev = output@;
            proof {
                reveal_strlit("\n");
                reveal_strlit("X");
                reveal_strlit("O");
                reveal_strlit("o");
                reveal_strlit("_");
            }
            if weekday_of_day(day_pointer) == Weekday::Sun {
                output.append("\n");
            }
            if contains_day(&dates, day_pointer) {
                output.append("X");
            } else if day_pointer == today {
                output.append("O");
            } else if day_pointer == first_day || day_pointer == last_day {
                output.append("o");
            } else {
                output.append("_");
            }
            assert(output@ =~= prev + grid_cell(
                day_pointer as int,
                done,
                today as int,
                first_day as int,
                last_day as int,
            ));
            day_pointer = day_pointer + 1;
        }
        proof {
            reveal_strlit("\n");
        }
        let mut graph = String::new();
        graph.append("\n");
        graph.append(output.as_str());
        graph.append("\n");
        graph
    } else {
        String::new()
    }
}

/// The grid starts on a Sunday, at most six days before the day it is
/// computed from.
pub proof fn law_grid_starts_on_sunday(d: int)
    ensures
        weekday_of_day_spec(sunday_on_or_before(d)) == Weekday::Sun,
        d - 6 <= sunday_on_or_before(d) <= d,
{
    assert((d - (d + 4) % 7 + 3) % 7 == 6) by (nonlinear_arith);
}

/// A game that is not running at `now` has no grid.
pub proof fn law_no_grid_unless_running(g: GameView, now: int)
    requires
        now >= g.end || now <= g.start,
    ensures
        github_graph_spec(g, now) == Seq::<char>::empty(),
{
}

/// The cell of a day on which the game was done is marked `X`.
pub proof fn law_done_day_marked(day: int, done: Seq<int>, today: int, first: int, last: int)
    requires
        done.contains(day),
    ensures
        grid_cell(day, done, today, first, last).last() == 'X',
{
}

/// The grid has one mark per day, plus a line break before each Sunday.
pub proof fn law_grid_cells_length(from: int, to: int, done: Seq<int>, today: int, first: int, last: int)
    requires
        from <= to,
    ensures
        grid_cells(from, to, done, today, first, last).len() == (to - from) + sundays_between(from, to),
    decreases to - from,
{
    if from < to {
        law_grid_cells_length(from, to - 1, done, today, first, last);
    }
}

/// The number of Sundays among the days `from <= day < to`.
pub open spec fn sundays_between(from: int, to: int) -> int
    decreases to - from,
{
    if to <= from {
        0
    } else {
        sundays_between(from, to - 1) + if weekday_of_day_spec(to - 1) == Weekday::Sun {
            1int
        } else {
            0int
        }
    }
}

pub(crate) proof fn lemma_seq_min(s: Seq<int>)
    requires
        s.len() > 0,
    ensures
        s.contains(seq_min(s)),
        forall|i: int| 0 <= i < s.len() ==> seq_min(s) <= #[trigger] s[i],
    decreases s.len(),
{
    if s.len() > 1 {
        let init = s.drop_last();
        lemma_seq_min(init);
        assert forall|i: int| 0 <= i < s.len() implies seq_min(s) <= #[trigger] s[i] by {
            if i < init.len() {
                assert(s[i] == init[i]);
            }
        }
        let k = choose|k: int| 0 <= k < init.len() && init[k] == seq_min(init);
        assert(s[k] == init[k]);
        assert(s[s.len() - 1] == s.last());
    } else {
        assert(s[0] == s[0]);
    }
}

proof fn lemma_grid_cells_same_days(
    from: int,
    to: int,
    done1: Seq<int>,
    done2: Seq<int>,
    today: int,
    first: int,
    last: int,
)
    requires
        forall|d: int| done1.contains(d) <==> done2.contains(d),
    ensures
        grid_cells(from, to, done1, today, first, last) == grid_cells(from, to, done2, today, first, last),
    decreases to - from,
{
    if from < to {
        lemma_grid_cells_same_days(from, to - 1, done1, done2, today, first, last);
        assert(done1.contains(to - 1) == done2.contains(to - 1));
    }
}

/// The grid depends on the events only through the California days on which
/// they fall: events in another order, or more events on days already
/// present, give the same grid.
pub proof fn law_grid_depends_on_event_days_only(g1: GameView, g2: GameView, now: int)
    requires
        g2.name == g1.name,
        g2.start == g1.start,
        g2.end == g1.end,
        forall|d: int| days_of(g1.events).contains(d) <==> days_of(g2.events).contains(d),
    ensures
        github_graph_spec(g1, now) == github_graph_spec(g2, now),
{
    let (d1, d2) = (days_of(g1.events), days_of(g2.events));
    if d1.len() > 0 {
        assert(d1.contains(d1[0]));
    }
    if d2.len() > 0 {
        assert(d2.contains(d2[0]));
    }
    if d1.len() > 0 && d2.len() > 0 {
        lemma_seq_min(d1);
        lemma_seq_min(d2);
        let k1 = choose|k: int| 0 <= k < d2.len() && d2[k] == seq_min(d1);
        let k2 = choose|k: int| 0 <= k < d1.len() && d1[k] == seq_min(d2);
        assert(seq_min(d2) <= d2[k1]);
        assert(seq_min(d1) <= d1[k2]);
    }
    let today = california_day_spec(now);
    let first = california_day_spec(g1.start);
    let last = california_day_spec(g1.end);
    let lowest = if d1.len() > 0 {
        seq_min(d1)
    } else {
        first
    };
    lemma_grid_cells_same_days(sunday_on_or_before(lowest), last + 1, d1, d2, today, first, last);
}

/// The grid of a running game begins on the Sunday on or before the earliest
/// California day on which the game was done (the first day of the game
/// when it was never done), and runs day by day to the game's last day.
pub proof fn law_grid_starts_at_earliest_event(g: GameView, now: int)
    requires
        g.start < now < g.end,
    ensures
        g.events.len() > 0 ==> exists|k: int|
            0 <= k < g.events.len() && (forall|j: int|
                0 <= j < g.events.len() ==> california_day_spec(g.events[k] as int) <= california_day_spec(
                    #[trigger] g.events[j] as int,
                )) && github_graph_spec(g, now) == "\n"@ + "Game /"@ + g.name + "\n"@ + grid_cells(
                sunday_on_or_before(california_day_spec(g.events[k] as int)),
                california_day_spec(g.end) + 1,
                days_of(g.events),
                california_day_spec(now),
                california_day_spec(g.start),
                california_day_spec(g.end),
            ) + "\n"@,
        g.events.len() == 0 ==> github_graph_spec(g, now) == "\n"@ + "Game /"@ + g.name + "\n"@ + grid_cells(
            sunday_on_or_before(california_day_spec(g.start)),
            california_day_spec(g.end) + 1,
            days_of(g.events),
            california_day_spec(now),
            california_day_spec(g.start),
            california_day_spec(g.end),
        ) + "\n"@,
{
    let done = days_of(g.events);
    if g.events.len() > 0 {
        lemma_seq_min(done);
        let k = choose|k: int| 0 <= k < done.len() && done[k] == seq_min(done);
        assert forall|j: int| 0 <= j < g.events.len() implies california_day_spec(g.events[k] as int)
            <= california_day_spec(#[trigger] g.events[j] as int) by {
            assert(done[j] == california_day_spec(g.events[j] as int));
            assert(done[k] == california_day_spec(g.events[k] as int));
        }
        assert(done[k] == california_day_spec(g.events[k] as int));
    }
}

} // verus!
