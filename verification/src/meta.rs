//! The meta game: the games of the first meta game, merged into one game whose
//! events are the moments at which every one of them was done (or skipped).
use vstd::prelude::*;
use crate::calendar::{
    california_day, california_day_spec, time_in_range, weekday_of_day, weekday_of_day_spec, Time,
    Weekday,
};
use crate::game::{Game, GameView, Model, ModelView};
use crate::graph::{days_of, game_in_range, seq_min};

verus! {

/// Largest element of a non-empty sequence.
pub open spec fn seq_max(s: Seq<int>) -> int
    decreases s.len(),
{
    if s.len() <= 1 {
        s[0]
    } else {
        let m = seq_max(s.drop_last());
        if s.last() > m {
            s.last()
        } else {
            m
        }
    }
}

/// Name of the first meta game, or the empty name when there is none.
pub open spec fn meta_name(m: ModelView) -> Seq<char> {
    match m.metas {
        Some(ms) => if ms.len() > 0 {
            ms[0]
        } else {
            Seq::empty()
        },
        None => Seq::empty(),
    }
}

/// A game belongs to the meta game `name`.
pub open spec fn is_member(g: GameView, name: Seq<char>) -> bool {
    g.part_of == Some(name)
}

/// The games that belong to the meta game `name`, in order.
pub open spec fn members(gs: Seq<GameView>, name: Seq<char>) -> Seq<GameView>
    decreases gs.len(),
{
    if gs.len() == 0 {
        Seq::empty()
    } else {
        let rest = members(gs.drop_last(), name);
        if is_member(gs.last(), name) {
            rest.push(gs.last())
        } else {
            rest
        }
    }
}

/// The events of all the games, game after game.
pub open spec fn all_events(gs: Seq<GameView>) -> Seq<Time>
    decreases gs.len(),
{
    if gs.len() == 0 {
        Seq::empty()
    } else {
        all_events(gs.drop_last()) + gs.last().events
    }
}

/// The game does not count on the California weekday of instant `e`.
pub open spec fn day_off(g: GameView, e: int) -> bool {
    match g.skipping {
        Some(sk) => sk.contains(weekday_of_day_spec(california_day_spec(e))),
        None => false,
    }
}

/// The game was done on the California day of instant `e`.
pub open spec fn done_that_day(g: GameView, e: int) -> bool {
    days_of(g.events).contains(california_day_spec(e))
}

/// On the day of `e`, every game was done or had its day off.
pub open spec fn meta_event_valid(gs: Seq<GameView>, e: int) -> bool {
    forall|j: int| 0 <= j < gs.len() ==> day_off(#[trigger] gs[j], e) || done_that_day(gs[j], e)
}

/// The events of `evs` that are valid for the games `gs`, in order.
pub open spec fn valid_events(evs: Seq<Time>, gs: Seq<GameView>) -> Seq<Time>
    decreases evs.len(),
{
    if evs.len() == 0 {
        Seq::empty()
    } else {
        let rest = valid_events(evs.drop_last(), gs);
        if meta_event_valid(gs, evs.last() as int) {
            rest.push(evs.last())
        } else {
            rest
        }
    }
}

/// The meta game of a model: named after the first meta game, spanning from
/// the earliest start to the latest end of its games, with the valid events
/// of those games; none when no game belongs to it.
pub open spec fn current_meta_game_spec(m: ModelView) -> Option<GameView> {
    let name = meta_name(m);
    let ms = members(m.games, name);
    if ms.len() == 0 {
        None
    } else {
        Some(
            GameView {
                name,
                start: seq_min(ms.map_values(|g: GameView| g.start)),
                end: seq_max(ms.map_values(|g: GameView| g.end)),
                events: valid_events(all_events(ms), ms),
                part_of: None,
                skipping: None,
            },
        )
    }
}

/// All instants of the model are ones the calendar handles.
pub open spec fn model_in_range(m: ModelView) -> bool {
    forall|i: int| 0 <= i < m.games.len() ==> game_in_range(#[trigger] m.games[i])
}

pub open spec fn opt_game_view(o: Option<Game>) -> Option<GameView> {
    match o {
        Some(g) => Some(g@),
        None => None,
    }
}

fn skips(g: &Game, w: Weekday) -> (off: bool)
    ensures
        off == match g@.skipping {
            Some(sk) => sk.contains(w),
            None => false,
        },
{
    match &g.skipping {
        Some(sk) => {
            let mut i: usize = 0;
            while i < sk.len()
                invariant
                    i <= sk.len(),
                    g@.skipping == Some(sk@),
                    forall|j: int| 0 <= j < i ==> sk@[j] != w,
                decreases sk.len() - i,
            {
                if sk[i] == w {
                    assert(sk@[i as int] == w);
                    assert(sk@.contains(w));
                    assert(g@.skipping == Some(sk@));
                    return true;
                }
                i = i + 1;
            }
            false
        },
        None => false,
    }
}

fn done_on(g: &Game, day: i128) -> (done: bool)
    requires
        game_in_range(g@),
    ensures
        done == days_of(g@.events).contains(day as int),
{
    let ghost ds = days_of(g@.events);
    let mut i: usize = 0;
    while i < g.events.len()
        invariant
            i <= g.events.len(),
            ds == days_of(g@.events),
            game_in_range(g@),
            forall|j: int| 0 <= j < i ==> ds[j] != day as int,
        decreases g.events.len() - i,
    {
        assert(g@.events[i as int] == g.events@[i as int]);
        let d = california_day(g.events[i]);
        if d == day {
            assert(ds[i as int] == day as int);
            return true;
        }
        i = i + 1;
    }
    false
}

proof fn lemma_all_events_in_range(gs: Seq<GameView>)
    requires
        forall|j: int| 0 <= j < gs.len() ==> game_in_range(#[trigger] gs[j]),
    ensures
        forall|x: int| 0 <= x < all_events(gs).len() ==> time_in_range(#[trigger] all_events(gs)[x] as int),
    decreases gs.len(),
{
    if gs.len() > 0 {
        let init = gs.drop_last();
        assert forall|j: int| 0 <= j < init.len() implies game_in_range(#[trigger] init[j]) by {
            assert(init[j] == gs[j]);
        }
        lemma_all_events_in_range(init);
        let last = gs.last();
        assert(game_in_range(gs[gs.len() - 1]));
        assert forall|x: int| 0 <= x < all_events(gs).len() implies time_in_range(
            #[trigger] all_events(gs)[x] as int,
        ) by {
            if x >= all_events(init).len() {
                assert(all_events(gs)[x] == last.events[x - all_events(init).len()]);
            } else {
                assert(all_events(gs)[x] == all_events(init)[x]);
            }
        }
    }
}

/// The games at the given positions.
pub open spec fn pick(gs: Seq<GameView>, idx: Seq<usize>) -> Seq<GameView> {
    idx.map_values(|k: usize| gs[k as int])
}

fn meta_event_ok(games: &Vec<Game>, idx: &Vec<usize>, e: Time) -> (ok: bool)
    requires
        forall|k: int| 0 <= k < idx@.len() ==> #[trigger] idx@[k] < games@.len(),
        forall|i: int| 0 <= i < games@.len() ==> game_in_range(#[trigger] games@[i]@),
        time_in_range(e as int),
    ensures
        ok == meta_event_valid(pick(games@.map_values(|g: Game| g@), idx@), e as int),
{
    let ghost gv = games@.map_values(|g: Game| g@);
    let ghost ms = pick(gv, idx@);
    let day = california_day(e);
    let wd = weekday_of_day(day);
    let mut k: usize = 0;
    while k < idx.len()
        invariant
            k <= idx.len(),
            gv == games@.map_values(|g: Game| g@),
            ms == pick(gv, idx@),
            forall|k: int| 0 <= k < idx@.len() ==> #[trigger] idx@[k] < games@.len(),
            forall|i: int| 0 <= i < games@.len() ==> game_in_range(#[trigger] games@[i]@),
            day == california_day_spec(e as int),
            wd == weekday_of_day_spec(day as int),
            forall|j: int| 0 <= j < k ==> day_off(#[trigger] ms[j], e as int) || done_that_day(ms[j], e as int),
        decreases idx.len() - k,
    {
        let g = &games[idx[k]];
        assert(ms[k as int] == g@);
        let off = skips(g, wd);
        if !off {
            let done = done_on(g, day);
            if !done {
                assert(!(day_off(ms[k as int], e as int) || done_that_day(ms[k as int], e as int)));
                return false;
            }
        }
        k = k + 1;
    }
    true
}

/// The meta game of the model (see `current_meta_game_spec`).
pub fn current_meta_game(model: &Model) -> (meta: Option<Game>)
    requires
        model_in_range(model@),
    ensures
        opt_game_view(meta) == current_meta_game_spec(model@),
{
    let ghost gv = model@.games;
    let games = &model.games;
    assert(gv == games@.map_values(|g: Game| g@));
    assert forall|i: int| 0 <= i < games@.len() implies game_in_range(#[trigger] games@[i]@) by {
        assert(gv[i] == games@[i]@);
    }
    let name = match &model.metas {
        Some(ms) => if ms.len() > 0 {
            ms[0].name.clone()
        } else {
            String::new()
        },
        None => String::new(),
    };
    assert(name@ == meta_name(model@));
    let mut idx: Vec<usize> = Vec::new();
    let mut i: usize = 0;
    assert(gv.take(0) =~= Seq::<GameView>::empty());
    assert(pick(gv, idx@) =~= Seq::<GameView>::empty());
    while i < games.len()
        invariant
            i <= games.len(),
            gv == games@.map_values(|g: Game| g@),
            pick(gv, idx@) == members(gv.take(i as int), name@),
            forall|k: int| 0 <= k < idx@.len() ==> #[trigger] idx@[k] < i,
        decreases games.len() - i,
    {
        let member = match &games[i].part_of {
            Some(p) => *p == name,
            None => false,
        };
        assert(gv.take(i + 1).drop_last() =~= gv.take(i as int));
        assert(gv.take(i + 1).last() == gv[i as int]);
        assert(member == is_member(gv[i as int], name@));
        let ghost before = idx@;
        if member {
            idx.push(i);
            assert(pick(gv, idx@) =~= pick(gv, before).push(gv[i as int]));
        }
        i = i + 1;
    }
    assert(gv.take(games.len() as int) =~= gv);
    let ghost ms = pick(gv, idx@);
    assert(ms == members(gv, name@));
    if idx.len() == 0 {
        return None;
    }
    // Events of the member games, game after game.

    let mut evs: Vec<Time> = Vec::new();
    let mut k: usize = 0;
    assert(ms.take(0) =~= Seq::<GameView>::empty());
    while k < idx.len()
        invariant
            k <= idx.len(),
            gv == games@.map_values(|g: Game| g@),
            ms == pick(gv, idx@),
            forall|k: int| 0 <= k < idx@.len() ==> #[trigger] idx@[k] < games@.len(),
            evs@ == all_events(ms.take(k as int)),
        decreases idx.len() - k,
    {
        let g = &games[idx[k]];
        assert(ms[k as int] == g@);
        let ghost base = evs@;
        let mut j: usize = 0;
        while j < g.events.len()
            invariant
                j <= g.events.len(),
                evs@ == base + g.events@.take(j as int),
            decreases g.events.len() - j,
        {
            evs.push(g.events[j]);
            assert(g.events@.take(j + 1) =~= g.events@.take(j as int).push(g.events@[j as int]));
            j = j + 1;
        }
        assert(g.events@.take(j as int) =~= g.events@);
        assert(ms.take(k + 1).drop_last() =~= ms.take(k as int));
        k = k + 1;
    }
    assert(ms.take(idx.len() as int) =~= ms);
    proof {
        assert forall|j: int| 0 <= j < ms.len() implies game_in_range(#[trigger] ms[j]) by {
            assert(ms[j] == games@[idx@[j] as int]@);
        }
        lemma_all_events_in_range(ms);
    }
    // Keep the events on whose day every member game was done or off.

    let mut valid: Vec<Time> = Vec::new();
    let mut e: usize = 0;
    assert(evs@.take(0) =~= Seq::<Time>::empty());
    while e < evs.len()
        invariant
            e <= evs.len(),
            gv == games@.map_values(|g: Game| g@),
            ms == pick(gv, idx@),
            forall|k: int| 0 <= k < idx@.len() ==> #[trigger] idx@[k] < games@.len(),
            forall|i: int| 0 <= i < games@.len() ==> game_in_range(#[trigger] games@[i]@),
            forall|x: int| 0 <= x < evs@.len() ==> time_in_range(#[trigger] evs@[x] as int),
            valid@ == valid_events(evs@.take(e as int), ms),
        decreases evs.len() - e,
    {
        let t = evs[e];
        let ok = meta_event_ok(games, &idx, t);
        assert(evs@.take(e + 1).drop_last() =~= evs@.take(e as int));
        if ok {
            valid.push(t);
        }
        e = e + 1;
    }
    assert(evs@.take(evs.len() as int) =~= evs@);
    // Earliest start and latest end.

    let ghost starts = ms.map_values(|g: GameView| g.start);
    let ghost ends = ms.map_values(|g: GameView| g.end);
    let mut start = games[idx[0]].start;
    let mut end = games[idx[0]].end;
    let mut k: usize = 1;
    assert(starts.take(1).drop_last() =~= Seq::<int>::empty());
    assert(ends.take(1).drop_last() =~= Seq::<int>::empty());
    while k < idx.len()
        invariant
            1 <= k <= idx.len(),
            gv == games@.map_values(|g: Game| g@),
            ms == pick(gv, idx@),
            starts == ms.map_values(|g: GameView| g.start),
            ends == ms.map_values(|g: GameView| g.end),
            forall|k: int| 0 <= k < idx@.len() ==> #[trigger] idx@[k] < games@.len(),
            start as int == seq_min(starts.take(k as int)),
            end as int == seq_max(ends.take(k as int)),
        decreases idx.len() - k,
    {
        let g = &games[idx[k]];
        assert(ms[k as int] == g@);
        assert(starts.take(k + 1).drop_last() =~= starts.take(k as int));
        assert(ends.take(k + 1).drop_last() =~= ends.take(k as int));
        if g.start < start {
            start = g.start;
        }
        if g.end > end {
            end = g.end;
        }
        k = k + 1;
    }
    assert(starts.take(idx.len() as int) =~= starts);
    assert(ends.take(idx.len() as int) =~= ends);
    let meta = Game { name, start, end, events: valid, part_of: None, skipping: None };
    assert(meta@.events == valid_events(all_events(ms), ms));
    Some(meta)
}

proof fn lemma_valid_events_sound(evs: Seq<Time>, gs: Seq<GameView>)
    ensures
        forall|i: int|
            0 <= i < valid_events(evs, gs).len() ==> evs.contains(#[trigger] valid_events(evs, gs)[i])
                && meta_event_valid(gs, valid_events(evs, gs)[i] as int),
        valid_events(evs, gs).len() <= evs.len(),
    decreases evs.len(),
{
    if evs.len() > 0 {
        let init = evs.drop_last();
        lemma_valid_events_sound(init, gs);
        let rest = valid_events(init, gs);
        assert forall|i: int| 0 <= i < valid_events(evs, gs).len() implies evs.contains(
            #[trigger] valid_events(evs, gs)[i],
        ) && meta_event_valid(gs, valid_events(evs, gs)[i] as int) by {
            if i < rest.len() {
                assert(valid_events(evs, gs)[i] == rest[i]);
                let k = choose|k: int| 0 <= k < init.len() && init[k] == rest[i];
                assert(evs[k] == init[k]);
            } else {
                assert(valid_events(evs, gs)[i] == evs.last());
                assert(evs[evs.len() - 1] == evs.last());
            }
        }
    }
}

proof fn lemma_seq_min_max(s: Seq<int>)
    requires
        s.len() > 0,
    ensures
        s.contains(seq_min(s)),
        s.contains(seq_max(s)),
        forall|i: int| 0 <= i < s.len() ==> seq_min(s) <= #[trigger] s[i] <= seq_max(s),
    decreases s.len(),
{
    if s.len() > 1 {
        let init = s.drop_last();
        lemma_seq_min_max(init);
        assert forall|i: int| 0 <= i < s.len() implies seq_min(s) <= #[trigger] s[i] <= seq_max(s) by {
            if i < init.len() {
                assert(s[i] == init[i]);
            }
        }
        let k1 = choose|k: int| 0 <= k < init.len() && init[k] == seq_min(init);
        let k2 = choose|k: int| 0 <= k < init.len() && init[k] == seq_max(init);
        assert(s[k1] == init[k1]);
        assert(s[k2] == init[k2]);
        assert(s[s.len() - 1] == s.last());
    } else {
        assert(s[0] == s[0]);
    }
}

/// Every event of the meta game is an event of one of its games, and on its
/// day each of its games was done or had its day off.
pub proof fn law_meta_events_are_valid(m: ModelView)
    ensures
        current_meta_game_spec(m) matches Some(mg) ==> {
            let ms = members(m.games, meta_name(m));
            forall|i: int|
                0 <= i < mg.events.len() ==> all_events(ms).contains(#[trigger] mg.events[i])
                    && meta_event_valid(ms, mg.events[i] as int)
        },
{
    let ms = members(m.games, meta_name(m));
    lemma_valid_events_sound(all_events(ms), ms);
}

/// The meta game starts with the earliest of its games and ends with the
/// latest.
pub proof fn law_meta_spans_its_games(m: ModelView)
    ensures
        current_meta_game_spec(m) matches Some(mg) ==> {
            let ms = members(m.games, meta_name(m));
            &&& forall|i: int|
                0 <= i < ms.len() ==> mg.start <= (#[trigger] ms[i]).start && ms[i].end <= mg.end
            &&& exists|i: int| 0 <= i < ms.len() && (#[trigger] ms[i]).start == mg.start
            &&& exists|i: int| 0 <= i < ms.len() && (#[trigger] ms[i]).end == mg.end
        },
{
    let ms = members(m.games, meta_name(m));
    if ms.len() > 0 {
        let starts = ms.map_values(|g: GameView| g.start);
        let ends = ms.map_values(|g: GameView| g.end);
        lemma_seq_min_max(starts);
        lemma_seq_min_max(ends);
        assert forall|i: int| 0 <= i < ms.len() implies seq_min(starts) <= (#[trigger] ms[i]).start
            && ms[i].end <= seq_max(ends) by {
            assert(starts[i] == ms[i].start);
            assert(ends[i] == ms[i].end);
        }
        let k1 = choose|k: int| 0 <= k < starts.len() && starts[k] == seq_min(starts);
        let k2 = choose|k: int| 0 <= k < ends.len() && ends[k] == seq_max(ends);
        assert(ms[k1].start == seq_min(starts));
        assert(ms[k2].end == seq_max(ends));
    }
}

/// The games of a meta game all belong to it, and every game of the model
/// that belongs to it is among them.
pub proof fn law_members_are_the_meta_games(gs: Seq<GameView>, name: Seq<char>)
    ensures
        forall|i: int| 0 <= i < members(gs, name).len() ==> is_member(#[trigger] members(gs, name)[i], name),
        forall|i: int| 0 <= i < gs.len() && is_member(#[trigger] gs[i], name) ==> members(gs, name).contains(gs[i]),
    decreases gs.len(),
{
    if gs.len() > 0 {
        let init = gs.drop_last();
        law_members_are_the_meta_games(init, name);
        let rest = members(init, name);
        assert forall|i: int| 0 <= i < members(gs, name).len() implies is_member(
            #[trigger] members(gs, name)[i],
            name,
        ) by {
            if i < rest.len() {
                assert(members(gs, name)[i] == rest[i]);
            }
        }
        assert forall|i: int| 0 <= i < gs.len() && is_member(#[trigger] gs[i], name) implies members(
            gs,
            name,
        ).contains(gs[i]) by {
            if i < init.len() {
                assert(init[i] == gs[i]);
                let k = choose|k: int| 0 <= k < rest.len() && rest[k] == init[i];
                assert(members(gs, name)[k] == rest[k]);
            } else {
                assert(members(gs, name).last() == gs[i]);
                assert(members(gs, name)[members(gs, name).len() - 1] == gs[i]);
            }
        }
    }
}

/// Position `j` of the larger list is where some game of the smaller one went.
pub open spec fn in_image(f: Seq<int>, j: int) -> bool {
    exists|i: int| 0 <= i < f.len() && f[i] == j
}

/// `hs` is `gs` with other games inserted anywhere: `f` sends each game of
/// `gs` to its place in `hs`, in order, and every game of `hs` that is not
/// the image of one of `gs` does not belong to the meta game `name`.
pub open spec fn inserts_non_members(gs: Seq<GameView>, hs: Seq<GameView>, f: Seq<int>, name: Seq<char>) -> bool {
    &&& f.len() == gs.len()
    &&& forall|i: int| 0 <= i < gs.len() ==> 0 <= #[trigger] f[i] < hs.len() && hs[f[i]] == gs[i]
    &&& forall|i: int, k: int| 0 <= i < k < gs.len() ==> #[trigger] f[i] < #[trigger] f[k]
    &&& forall|j: int| 0 <= j < hs.len() && !#[trigger] in_image(f, j) ==> !is_member(hs[j], name)
}

proof fn lemma_members_with_insertions(gs: Seq<GameView>, hs: Seq<GameView>, f: Seq<int>, name: Seq<char>)
    requires
        inserts_non_members(gs, hs, f, name),
    ensures
        members(hs, name) == members(gs, name),
    decreases hs.len(),
{
    if hs.len() == 0 {
        if gs.len() > 0 {
            assert(0 <= f[0] < hs.len());
        }
    } else {
        let j = hs.len() - 1;
        let hs0 = hs.drop_last();
        if gs.len() > 0 && f[gs.len() - 1] == j {
            let (gs0, f0) = (gs.drop_last(), f.drop_last());
            assert forall|i: int| 0 <= i < gs0.len() implies 0 <= #[trigger] f0[i] < hs0.len() && hs0[f0[i]]
                == gs0[i] by {
                assert(f[i] < f[gs.len() - 1]);
            }
            assert forall|i: int, k: int| 0 <= i < k < gs0.len() implies #[trigger] f0[i] < #[trigger] f0[k] by {
                assert(f[i] < f[k]);
            }
            assert forall|j2: int| 0 <= j2 < hs0.len() && !#[trigger] in_image(f0, j2) implies !is_member(
                hs0[j2],
                name,
            ) by {
                if in_image(f, j2) {
                    let i = choose|i: int| 0 <= i < f.len() && f[i] == j2;
                    assert(f0[i] == f[i]);
                }
            }
            lemma_members_with_insertions(gs0, hs0, f0, name);
            assert(hs[j] == gs[gs.len() - 1]);
        } else {
            assert forall|i: int| 0 <= i < gs.len() implies 0 <= #[trigger] f[i] < hs0.len() && hs0[f[i]]
                == gs[i] by {
                if f[i] == j {
                    assert(f[gs.len() - 1] >= f[i]) by {
                        if i < gs.len() - 1 {
                            assert(f[i] < f[gs.len() - 1]);
                        }
                    }
                    assert(f[gs.len() - 1] < hs.len());
                }
            }
            assert forall|j2: int| 0 <= j2 < hs0.len() && !#[trigger] in_image(f, j2) implies !is_member(
                hs0[j2],
                name,
            ) by {
                assert(hs0[j2] == hs[j2]);
            }
            lemma_members_with_insertions(gs, hs0, f, name);
            assert(!in_image(f, j)) by {
                if in_image(f, j) {
                    let i = choose|i: int| 0 <= i < f.len() && f[i] == j;
                    assert(f[gs.len() - 1] >= f[i]) by {
                        if i < gs.len() - 1 {
                            assert(f[i] < f[gs.len() - 1]);
                        }
                    }
                }
            }
            assert(!is_member(hs[j], name));
        }
    }
}

/// Games that do not belong to the meta game have no influence on it:
/// inserting such games anywhere among the games leaves the meta game as it
/// was.
pub proof fn law_other_games_leave_meta_unchanged(m: ModelView, m2: ModelView, f: Seq<int>)
    requires
        m2.metas == m.metas,
        inserts_non_members(m.games, m2.games, f, meta_name(m)),
    ensures
        current_meta_game_spec(m2) == current_meta_game_spec(m),
{
    assert(meta_name(m2) == meta_name(m));
    lemma_members_with_insertions(m.games, m2.games, f, meta_name(m));
}

/// Every weekday skipped by `a` is skipped by `b`.
pub open spec fn skips_at_least(a: Option<Seq<Weekday>>, b: Option<Seq<Weekday>>) -> bool {
    forall|w: Weekday| #[trigger] skips_weekday(a, w) ==> skips_weekday(b, w)
}

/// The weekday is among those skipped.
pub open spec fn skips_weekday(skipping: Option<Seq<Weekday>>, w: Weekday) -> bool {
    match skipping {
        Some(x) => x.contains(w),
        None => false,
    }
}

/// `h` is the game `g` with possibly more weekdays skipped.
pub open spec fn skips_more(g: GameView, h: GameView) -> bool {
    &&& h.name == g.name
    &&& h.start == g.start
    &&& h.end == g.end
    &&& h.events == g.events
    &&& h.part_of == g.part_of
    &&& skips_at_least(g.skipping, h.skipping)
}

/// `a` is `b` with some elements left out, the rest in the same order.
pub open spec fn is_subsequence(a: Seq<Time>, b: Seq<Time>) -> bool {
    exists|f: Seq<int>|
        {
            &&& f.len() == a.len()
            &&& forall|i: int| 0 <= i < a.len() ==> 0 <= #[trigger] f[i] < b.len() && a[i] == b[f[i]]
            &&& forall|i: int, j: int| 0 <= i < j < a.len() ==> f[i] < f[j]
        }
}

proof fn lemma_members_skip_more(gs1: Seq<GameView>, gs2: Seq<GameView>, name: Seq<char>)
    requires
        gs1.len() == gs2.len(),
        forall|i: int| 0 <= i < gs1.len() ==> skips_more(#[trigger] gs1[i], gs2[i]),
    ensures
        members(gs1, name).len() == members(gs2, name).len(),
        forall|i: int|
            0 <= i < members(gs1, name).len() ==> skips_more(#[trigger] members(gs1, name)[i], members(gs2, name)[i]),
    decreases gs1.len(),
{
    if gs1.len() > 0 {
        let (i1, i2) = (gs1.drop_last(), gs2.drop_last());
        assert forall|i: int| 0 <= i < i1.len() implies skips_more(#[trigger] i1[i], i2[i]) by {
            assert(i1[i] == gs1[i] && i2[i] == gs2[i]);
        }
        lemma_members_skip_more(i1, i2, name);
        assert(skips_more(gs1[gs1.len() - 1], gs2[gs2.len() - 1]));
        let (r1, r2) = (members(i1, name), members(i2, name));
        if is_member(gs1.last(), name) {
            assert forall|i: int| 0 <= i < members(gs1, name).len() implies skips_more(
                #[trigger] members(gs1, name)[i],
                members(gs2, name)[i],
            ) by {
                if i < r1.len() {
                    assert(members(gs1, name)[i] == r1[i]);
                    assert(members(gs2, name)[i] == r2[i]);
                }
            }
        }
    }
}

proof fn lemma_all_events_same(gs1: Seq<GameView>, gs2: Seq<GameView>)
    requires
        gs1.len() == gs2.len(),
        forall|i: int| 0 <= i < gs1.len() ==> (#[trigger] gs1[i]).events == gs2[i].events,
    ensures
        all_events(gs1) == all_events(gs2),
    decreases gs1.len(),
{
    if gs1.len() > 0 {
        let (i1, i2) = (gs1.drop_last(), gs2.drop_last());
        assert forall|i: int| 0 <= i < i1.len() implies (#[trigger] i1[i]).events == i2[i].events by {
            assert(i1[i] == gs1[i] && i2[i] == gs2[i]);
        }
        lemma_all_events_same(i1, i2);
        assert(gs1[gs1.len() - 1].events == gs2[gs2.len() - 1].events);
    }
}

proof fn lemma_valid_events_subsequence(evs: Seq<Time>, gs1: Seq<GameView>, gs2: Seq<GameView>) -> (f: Seq<int>)
    requires
        forall|e: int| meta_event_valid(gs1, e) ==> meta_event_valid(gs2, e),
    ensures
        f.len() == valid_events(evs, gs1).len(),
        forall|i: int|
            0 <= i < f.len() ==> 0 <= #[trigger] f[i] < valid_events(evs, gs2).len() && valid_events(evs, gs1)[i]
                == valid_events(evs, gs2)[f[i]],
        forall|i: int, j: int| 0 <= i < j < f.len() ==> f[i] < f[j],
    decreases evs.len(),
{
    if evs.len() == 0 {
        Seq::empty()
    } else {
        let init = evs.drop_last();
        let f0 = lemma_valid_events_subsequence(init, gs1, gs2);
        let (r1, r2) = (valid_events(init, gs1), valid_events(init, gs2));
        let e = evs.last();
        if meta_event_valid(gs1, e as int) {
            assert(meta_event_valid(gs2, e as int));
            let f = f0.push(r2.len() as int);
            assert forall|i: int| 0 <= i < f.len() implies 0 <= #[trigger] f[i] < valid_events(evs, gs2).len()
                && valid_events(evs, gs1)[i] == valid_events(evs, gs2)[f[i]] by {
                if i < f0.len() {
                    assert(f[i] == f0[i]);
                }
            }
            f
        } else {
            f0
        }
    }
}

/// Skipping more weekdays never drops a meta event: when games skip at least
/// the weekdays they skipped before, the meta game exists just as before,
/// with the same name, start and end, and its events before are among its
/// events after, in the same order.
pub proof fn law_skipping_more_keeps_meta_events(m: ModelView, m2: ModelView)
    requires
        m2.metas == m.metas,
        m2.games.len() == m.games.len(),
        forall|i: int| 0 <= i < m.games.len() ==> skips_more(#[trigger] m.games[i], m2.games[i]),
    ensures
        current_meta_game_spec(m) is Some <==> current_meta_game_spec(m2) is Some,
        current_meta_game_spec(m) matches Some(g1) ==> {
            let g2 = current_meta_game_spec(m2).unwrap();
            &&& g2.name == g1.name
            &&& g2.start == g1.start
            &&& g2.end == g1.end
            &&& is_subsequence(g1.events, g2.events)
        },
{
    let name = meta_name(m);
    assert(meta_name(m2) == name);
    lemma_members_skip_more(m.games, m2.games, name);
    let (ms1, ms2) = (members(m.games, name), members(m2.games, name));
    if ms1.len() > 0 {
        assert forall|i: int| 0 <= i < ms1.len() implies (#[trigger] ms1[i]).events == ms2[i].events by {
            assert(skips_more(ms1[i], ms2[i]));
        }
        lemma_all_events_same(ms1, ms2);
        assert(ms1.map_values(|g: GameView| g.start) =~= ms2.map_values(|g: GameView| g.start)) by {
            assert forall|i: int| 0 <= i < ms1.len() implies ms1[i].start == ms2[i].start by {
                assert(skips_more(ms1[i], ms2[i]));
            }
        }
        assert(ms1.map_values(|g: GameView| g.end) =~= ms2.map_values(|g: GameView| g.end)) by {
            assert forall|i: int| 0 <= i < ms1.len() implies ms1[i].end == ms2[i].end by {
                assert(skips_more(ms1[i], ms2[i]));
            }
        }
        assert forall|e: int| meta_event_valid(ms1, e) implies meta_event_valid(ms2, e) by {
            assert forall|j: int| 0 <= j < ms2.len() implies day_off(#[trigger] ms2[j], e) || done_that_day(
                ms2[j],
                e,
            ) by {
                assert(skips_more(ms1[j], ms2[j]));
                assert(day_off(ms1[j], e) || done_that_day(ms1[j], e));
                if day_off(ms1[j], e) {
                    let w = weekday_of_day_spec(california_day_spec(e));
                    assert(skips_weekday(ms1[j].skipping, w));
                    assert(skips_weekday(ms2[j].skipping, w));
                }
            }
        }
        let evs = all_events(ms1);
        let f = lemma_valid_events_subsequence(evs, ms1, ms2);
        assert(is_subsequence(valid_events(evs, ms1), valid_events(evs, ms2)));
    }
}

/// A meta game with members has a game that belongs to it.
proof fn lemma_some_member_is_a_game(gs: Seq<GameView>, name: Seq<char>)
    requires
        members(gs, name).len() > 0,
    ensures
        exists|i: int| 0 <= i < gs.len() && is_member(#[trigger] gs[i], name),
    decreases gs.len(),
{
    let init = gs.drop_last();
    if is_member(gs.last(), name) {
        assert(is_member(gs[gs.len() - 1], name));
    } else {
        lemma_some_member_is_a_game(init, name);
        let i = choose|i: int| 0 <= i < init.len() && is_member(#[trigger] init[i], name);
        assert(gs[i] == init[i]);
    }
}

/// Every game whose `part_of` is the meta name takes part in the meta game,
/// whatever its events: there is a meta game exactly when such a game
/// exists; it starts no later and ends no earlier than each of them; and each
/// of its events falls on a California day on which each of them was done or
/// skips that weekday.
pub proof fn law_meta_game_covers_every_member(m: ModelView)
    ensures
        current_meta_game_spec(m) is Some <==> exists|i: int|
            0 <= i < m.games.len() && (#[trigger] m.games[i]).part_of == Some(meta_name(m)),
        current_meta_game_spec(m) matches Some(mg) ==> forall|i: int|
            0 <= i < m.games.len() && (#[trigger] m.games[i]).part_of == Some(meta_name(m)) ==> {
                let g = m.games[i];
                &&& mg.start <= g.start
                &&& g.end <= mg.end
                &&& forall|x: int|
                    0 <= x < mg.events.len() ==> {
                        let day = california_day_spec(#[trigger] mg.events[x] as int);
                        ||| (g.skipping matches Some(sk) && sk.contains(weekday_of_day_spec(day)))
                        ||| exists|k: int|
                            0 <= k < g.events.len() && california_day_spec(#[trigger] g.events[k] as int) == day
                    }
            },
{
    let name = meta_name(m);
    let ms = members(m.games, name);
    law_members_are_the_meta_games(m.games, name);
    if ms.len() > 0 {
        lemma_some_member_is_a_game(m.games, name);
    }
    if exists|i: int| 0 <= i < m.games.len() && (#[trigger] m.games[i]).part_of == Some(name) {
        let i = choose|i: int| 0 <= i < m.games.len() && (#[trigger] m.games[i]).part_of == Some(name);
        assert(ms.contains(m.games[i]));
    }
    if ms.len() > 0 {
        law_meta_spans_its_games(m);
        law_meta_events_are_valid(m);
        let mg = current_meta_game_spec(m).unwrap();
        assert forall|i: int|
            0 <= i < m.games.len() && (#[trigger] m.games[i]).part_of == Some(name) implies {
            let g = m.games[i];
            &&& mg.start <= g.start
            &&& g.end <= mg.end
            &&& forall|x: int|
                0 <= x < mg.events.len() ==> {
                    let day = california_day_spec(#[trigger] mg.events[x] as int);
                    ||| (g.skipping matches Some(sk) && sk.contains(weekday_of_day_spec(day)))
                    ||| exists|k: int|
                        0 <= k < g.events.len() && california_day_spec(#[trigger] g.events[k] as int) == day
                }
        } by {
            let g = m.games[i];
            assert(ms.contains(g));
            let j = choose|j: int| 0 <= j < ms.len() && ms[j] == g;
            assert(mg.start <= ms[j].start && ms[j].end <= mg.end);
            assert forall|x: int| 0 <= x < mg.events.len() implies {
                let day = california_day_spec(#[trigger] mg.events[x] as int);
                ||| (g.skipping matches Some(sk) && sk.contains(weekday_of_day_spec(day)))
                ||| exists|k: int|
                    0 <= k < g.events.len() && california_day_spec(#[trigger] g.events[k] as int) == day
            } by {
                let e = mg.events[x] as int;
                let day = california_day_spec(e);
                assert(meta_event_valid(ms, e));
                assert(day_off(ms[j], e) || done_that_day(ms[j], e));
                if !day_off(g, e) {
                    let ds = days_of(g.events);
                    assert(ds.contains(day));
                    let k = choose|k: int| 0 <= k < ds.len() && ds[k] == day;
                    assert(california_day_spec(g.events[k] as int) == day);
                }
            }
        }
    }
}

} // verus!
