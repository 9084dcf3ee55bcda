//! The games model and the messages that change it.
use vstd::prelude::*;
use crate::calendar::{Time, Weekday, NANOS_PER_SEC};
use crate::streak::{chrono_range, chrono_secs};

verus! {

/// A habit tracked between `start` and `end`; `events` are the instants at
/// which it was done.
#[derive(Clone)]
pub struct Game {
    pub name: String,
    pub start: Time,
    pub end: Time,
    pub events: Vec<Time>,
    /// Name of the meta game this game belongs to, if any.
    pub part_of: Option<String>,
    /// Weekdays on which the meta game does not require this game.
    pub skipping: Option<Vec<Weekday>>,
}

/// A meta game: a group of games that must all be done on the same day.
#[derive(Clone)]
pub struct Meta {
    pub name: String,
}

/// Everything that is stored: the games and the meta games.
#[derive(Clone)]
pub struct Model {
    pub games: Vec<Game>,
    pub metas: Option<Vec<Meta>>,
}

/// The changes that can be made to a model.
pub enum Msg {
    /// The named game was done at the given instant.
    GameOccurence(String, Time),
    /// A new game with a name, a start and an end.
    GameCreate(String, Time, Time),
    /// The whole model is replaced.
    Replace(Model),
}

/// Mathematical view of a game.
pub struct GameView {
    pub name: Seq<char>,
    pub start: int,
    pub end: int,
    pub events: Seq<Time>,
    pub part_of: Option<Seq<char>>,
    pub skipping: Option<Seq<Weekday>>,
}

/// Mathematical view of a model.
pub struct ModelView {
    pub games: Seq<GameView>,
    pub metas: Option<Seq<Seq<char>>>,
}

/// Mathematical view of a message.
pub enum MsgView {
    GameOccurence(Seq<char>, int),
    GameCreate(Seq<char>, int, int),
    Replace(ModelView),
}

pub open spec fn opt_string_view(o: Option<String>) -> Option<Seq<char>> {
    match o {
        Some(s) => Some(s@),
        None => None,
    }
}

impl View for Game {
    type V = GameView;

    open spec fn view(&self) -> GameView {
        GameView {
            name: self.name@,
            start: self.start as int,
            end: self.end as int,
            events: self.events@,
            part_of: opt_string_view(self.part_of),
            skipping: match self.skipping {
                Some(v) => Some(v@),
                None => None,
            },
        }
    }
}

impl View for Meta {
    type V = Seq<char>;

    open spec fn view(&self) -> Seq<char> {
        self.name@
    }
}

impl View for Model {
    type V = ModelView;

    open spec fn view(&self) -> ModelView {
        ModelView {
            games: self.games@.map_values(|g: Game| g@),
            metas: match self.metas {
                Some(v) => Some(v@.map_values(|m: Meta| m@)),
                None => None,
            },
        }
    }
}

impl View for Msg {
    type V = MsgView;

    open spec fn view(&self) -> MsgView {
        match self {
            Msg::GameOccurence(n, t) => MsgView::GameOccurence(n@, *t as int),
            Msg::GameCreate(n, s, e) => MsgView::GameCreate(n@, *s as int, *e as int),
            Msg::Replace(m) => MsgView::Replace(m@),
        }
    }
}

/// A game records an occurrence of `name` at `now` when it has that name
/// and has not ended yet.
pub open spec fn records_occurrence(g: GameView, name: Seq<char>, now: int) -> bool {
    g.name == name && g.end > now
}

/// A game after an occurrence of `name` at instant `t`, reported at `now`.
pub open spec fn game_after_occurrence(g: GameView, name: Seq<char>, t: int, now: int) -> GameView {
    if records_occurrence(g, name, now) {
        GameView { events: g.events.push(t as Time), ..g }
    } else {
        g
    }
}

/// A freshly created game.
pub open spec fn new_game(name: Seq<char>, start: int, end: int) -> GameView {
    GameView {
        name,
        start,
        end,
        events: Seq::empty(),
        part_of: None,
        skipping: None,
    }
}

/// The model after a message is handled at instant `now`.
pub open spec fn update_spec(m: ModelView, msg: MsgView, now: int) -> ModelView {
    match msg {
        MsgView::GameOccurence(name, t) => ModelView {
            games: m.games.map_values(|g: GameView| game_after_occurrence(g, name, t, now)),
            ..m
        },
        MsgView::GameCreate(name, start, end) => ModelView {
            games: m.games.push(new_game(name, start, end)),
            ..m
        },
        MsgView::Replace(new_model) => new_model,
    }
}

/// Handles a message at instant `now`: an occurrence is recorded in every game
/// of that name that has not ended, a creation appends a new game, and a
/// replacement swaps in the new model.
pub fn update(model: &mut Model, msg: Msg, now: Time)
    ensures
        final(model)@ == update_spec(old(model)@, msg@, now as int),
{
    match msg {
        Msg::GameOccurence(occurrence_name, time) => {
            let mut old_games: Vec<Game> = Vec::new();
            std::mem::swap(&mut old_games, &mut model.games);
            let ghost before = old_games@;
            let mut games: Vec<Game> = Vec::new();
            for game in it: old_games.into_iter()
                invariant
                    it.seq() == before,
                    games@.len() == it.index(),
                    forall|j: int|
                        0 <= j < games@.len() ==> #[trigger] games@[j]@ == game_after_occurrence(
                            before[j]@,
                            occurrence_name@,
                            time as int,
                            now as int,
                        ),
            {
                let mut game = game;
                if game.name == occurrence_name && game.end > now {
                    game.events.push(time);
                }
                games.push(game);
            }
            model.games = games;
            assert(model@.games =~= old(model)@.games.map_values(
                |g: GameView| game_after_occurrence(g, occurrence_name@, time as int, now as int),
            ));
        },
        Msg::GameCreate(name, start, end) => {
            let new_game = Game {
                name: name,
                start: start,
                end: end,
                events: Vec::new(),
                part_of: None,
                skipping: None,
            };
            model.games.push(new_game);
            assert(model@.games =~= old(model)@.games.push(new_game@));
        },
        Msg::Replace(new_model) => {
            *model = new_model;
        },
    }
}

/// Seconds in a week.
pub const SECS_PER_WEEK: i64 = 604_800;

/// Week counts whose length in seconds chrono's `TimeDelta::weeks` accepts
/// (at most `i64::MAX` milliseconds either way).
pub open spec fn weeks_in_bounds(weeks: int) -> bool {
    -9_223_372_036_854_775 <= weeks * 604_800 <= 9_223_372_036_854_775
}

/// Calls `chrono::DateTime::from_timestamp(secs, nanos)`, then
/// `checked_add_signed(chrono::TimeDelta::weeks(weeks))`, and gives the
/// result's `timestamp` and `timestamp_subsec_nanos`. Claimed: when chrono
/// gives a result it is the instant exactly `weeks` weeks later; and chrono
/// gives one whenever that instant's whole second is among those chrono
/// represents (`chrono_secs`: its `NaiveDate::MIN` to `NaiveDate::MAX`), since
/// `NaiveDateTime::checked_add_signed` fails only outside that range (and a
/// chrono date never lies outside it).
#[verifier::external_body]
pub(crate) fn add_weeks(secs: i64, nanos: u32, weeks: i64) -> (later: Option<(i64, u32)>)
    requires
        chrono_secs(secs as int),
        nanos < 1_000_000_000,
        weeks_in_bounds(weeks as int),
    ensures
        later matches Some((s, n)) ==> s == secs + weeks * 604_800 && n == nanos && chrono_secs(s as int),
        chrono_secs(secs + weeks * 604_800) ==> later is Some,
{
    chrono::DateTime::from_timestamp(secs, nanos).unwrap().checked_add_signed(
        chrono::TimeDelta::weeks(weeks),
    ).map(|t| (t.timestamp(), t.timestamp_subsec_nanos()))
}

/// The message that creates a game named `name` running from `now` for
/// `weeks` weeks; there is one exactly when chrono represents the end.
pub fn game_create_msg(name: String, weeks: i64, now: Time) -> (msg: Option<Msg>)
    requires
        chrono_range(now as int),
        weeks_in_bounds(weeks as int),
    ensures
        msg matches Some(m) ==> m@ == MsgView::GameCreate(
            name@,
            now as int,
            now + weeks * 604_800 * 1_000_000_000,
        ),
        msg is Some <==> chrono_range(now + weeks * 604_800 * 1_000_000_000),
{
    let secs = match now.checked_div_euclid(NANOS_PER_SEC) {
        Some(q) => q,
        None => 0,
    };
    let nanos = match now.checked_rem_euclid(NANOS_PER_SEC) {
        Some(r) => r,
        None => 0,
    };
    assert(chrono_secs(secs as int)) by (nonlinear_arith)
        requires
            secs == now as int / 1_000_000_000int,
            chrono_range(now as int),
    ;
    assert(chrono_range(now + weeks * 604_800 * 1_000_000_000) <==> chrono_secs(secs + weeks * 604_800))
        by (nonlinear_arith)
        requires
            now == secs * 1_000_000_000 + nanos,
            0 <= nanos < 1_000_000_000,
    ;
    match add_weeks(secs as i64, nanos as u32, weeks) {
        Some((end_secs, end_nanos)) => {
            let end: Time = end_secs as i128 * NANOS_PER_SEC + end_nanos as i128;
            assert(end == now + weeks * 604_800 * 1_000_000_000) by (nonlinear_arith)
                requires
                    end == end_secs * 1_000_000_000 + end_nanos,
                    end_secs == secs + weeks * 604_800,
                    end_nanos == nanos,
                    now == secs * 1_000_000_000 + nanos,
            ;
            Some(Msg::GameCreate(name, now, end))
        },
        None => None,
    }
}

/// An occurrence changes nothing but the events of the games that record it,
/// each of which gains exactly the reported instant at its end.
pub proof fn law_occurrence_only_appends(m: ModelView, name: Seq<char>, t: int, now: int)
    ensures
        ({
            let after = update_spec(m, MsgView::GameOccurence(name, t), now);
            &&& after.metas == m.metas
            &&& after.games.len() == m.games.len()
            &&& forall|i: int|
                0 <= i < m.games.len() ==> {
                    let (g, h) = (m.games[i], #[trigger] after.games[i]);
                    &&& h.name == g.name
                    &&& h.start == g.start
                    &&& h.end == g.end
                    &&& h.part_of == g.part_of
                    &&& h.skipping == g.skipping
                    &&& h.events == if records_occurrence(g, name, now) {
                        g.events.push(t as Time)
                    } else {
                        g.events
                    }
                }
        }),
{
}

/// An occurrence is recorded in every game that has its name and has not
/// ended, whatever meta game it belongs to and whatever days it skips: its
/// events become its old events followed by the reported instant. Every other
/// game keeps its events.
pub proof fn law_occurrence_recorded_in_running_games(m: ModelView, name: Seq<char>, t: int, now: int)
    ensures
        ({
            let after = update_spec(m, MsgView::GameOccurence(name, t), now);
            &&& after.games.len() == m.games.len()
            &&& forall|i: int|
                0 <= i < m.games.len() && m.games[i].name == name && m.games[i].end > now
                    ==> (#[trigger] after.games[i]).events == m.games[i].events.push(t as Time)
            &&& forall|i: int|
                0 <= i < m.games.len() && !(m.games[i].name == name && m.games[i].end > now)
                    ==> (#[trigger] after.games[i]).events == m.games[i].events
        }),
{
}

/// An occurrence that no running game of that name records leaves the model
/// as it was.
pub proof fn law_unrecorded_occurrence_changes_nothing(m: ModelView, name: Seq<char>, t: int, now: int)
    requires
        forall|i: int| 0 <= i < m.games.len() ==> !records_occurrence(#[trigger] m.games[i], name, now),
    ensures
        update_spec(m, MsgView::GameOccurence(name, t), now) == m,
{
    let after = update_spec(m, MsgView::GameOccurence(name, t), now);
    assert(after.games =~= m.games);
}

/// A game that was just created records an occurrence of its name reported
/// before its end: its events are exactly that occurrence.
pub proof fn law_created_game_records_occurrence(
    m: ModelView,
    name: Seq<char>,
    start: int,
    end: int,
    created_at: int,
    t: int,
    now: int,
)
    requires
        now < end,
    ensures
        ({
            let created = update_spec(m, MsgView::GameCreate(name, start, end), created_at);
            let after = update_spec(created, MsgView::GameOccurence(name, t), now);
            &&& after.games.len() == m.games.len() + 1
            &&& after.games.last().name == name
            &&& after.games.last().events == seq![t as Time]
        }),
{
    let created = update_spec(m, MsgView::GameCreate(name, start, end), created_at);
    let after = update_spec(created, MsgView::GameOccurence(name, t), now);
    assert(after.games.last() == game_after_occurrence(created.games.last(), name, t, now));
    assert(Seq::<Time>::empty().push(t as Time) =~= seq![t as Time]);
}

/// Only a replacement can remove games: any other message keeps every game,
/// with its name, start and end, in its place.
pub proof fn law_games_are_kept(m: ModelView, msg: MsgView, now: int)
    requires
        !(msg is Replace),
    ensures
        ({
            let after = update_spec(m, msg, now);
            &&& after.games.len() >= m.games.len()
            &&& forall|i: int|
                0 <= i < m.games.len() ==> (#[trigger] after.games[i]).name == m.games[i].name
                    && after.games[i].start == m.games[i].start && after.games[i].end == m.games[i].end
        }),
{
}

/// The model after messages handled in order, the `i`th at instant `nows[i]`.
pub open spec fn update_all(m: ModelView, msgs: Seq<MsgView>, nows: Seq<int>) -> ModelView
    decreases msgs.len(),
{
    if msgs.len() == 0 {
        m
    } else {
        update_spec(update_all(m, msgs.drop_last(), nows), msgs.last(), nows[msgs.len() - 1])
    }
}

/// `after` keeps the metas of `before` and every game of `before` in its
/// place, with the same name, start, end, meta game and skipped days, and with
/// its old events followed by possibly more.
pub open spec fn keeps_games(before: ModelView, after: ModelView) -> bool {
    &&& after.metas == before.metas
    &&& after.games.len() >= before.games.len()
    &&& forall|i: int|
        0 <= i < before.games.len() ==> {
            let (g, h) = (before.games[i], #[trigger] after.games[i]);
            &&& h.name == g.name
            &&& h.start == g.start
            &&& h.end == g.end
            &&& h.part_of == g.part_of
            &&& h.skipping == g.skipping
            &&& g.events.len() <= h.events.len()
            &&& h.events.take(g.events.len() as int) == g.events
        }
}

proof fn lemma_update_keeps_games(m: ModelView, msg: MsgView, now: int)
    requires
        !(msg is Replace),
    ensures
        keeps_games(m, update_spec(m, msg, now)),
{
    let after = update_spec(m, msg, now);
    assert forall|i: int| 0 <= i < m.games.len() implies #[trigger] after.games[i].events.take(
        m.games[i].events.len() as int,
    ) == m.games[i].events by {
        assert(after.games[i].events.take(m.games[i].events.len() as int) =~= m.games[i].events);
    }
}

proof fn lemma_keeps_games_transitive(a: ModelView, b: ModelView, c: ModelView)
    requires
        keeps_games(a, b),
        keeps_games(b, c),
    ensures
        keeps_games(a, c),
{
    assert forall|i: int| 0 <= i < a.games.len() implies #[trigger] c.games[i].events.take(
        a.games[i].events.len() as int,
    ) == a.games[i].events by {
        let (g, h, k) = (a.games[i], b.games[i], c.games[i]);
        assert(k.events.take(h.events.len() as int).take(g.events.len() as int) =~= k.events.take(
            g.events.len() as int,
        ));
    }
}

/// Any sequence of messages without a replacement keeps the metas and every
/// game in its place, with the same name, start, end, meta game and skipped
/// days; games are only appended and events are only appended.
pub proof fn law_messages_keep_games(m: ModelView, msgs: Seq<MsgView>, nows: Seq<int>)
    requires
        msgs.len() <= nows.len(),
        forall|i: int| 0 <= i < msgs.len() ==> !(#[trigger] msgs[i] is Replace),
    ensures
        keeps_games(m, update_all(m, msgs, nows)),
    decreases msgs.len(),
{
    if msgs.len() == 0 {
        assert forall|i: int| 0 <= i < m.games.len() implies #[trigger] m.games[i].events.take(
            m.games[i].events.len() as int,
        ) == m.games[i].events by {
            assert(m.games[i].events.take(m.games[i].events.len() as int) =~= m.games[i].events);
        }
    } else {
        let init = msgs.drop_last();
        assert forall|i: int| 0 <= i < init.len() implies !(#[trigger] init[i] is Replace) by {
            assert(init[i] == msgs[i]);
        }
        law_messages_keep_games(m, init, nows);
        let mid = update_all(m, init, nows);
        assert(!(msgs[msgs.len() - 1] is Replace));
        lemma_update_keeps_games(mid, msgs.last(), nows[msgs.len() - 1]);
        lemma_keeps_games_transitive(m, mid, update_all(m, msgs, nows));
    }
}

/// Replacing the model gives exactly the new model, whatever came before.
pub proof fn law_replace_gives_new_model(m: ModelView, new_model: ModelView, now: int)
    ensures
        update_spec(m, MsgView::Replace(new_model), now) == new_model,
{
}

} // verus!
