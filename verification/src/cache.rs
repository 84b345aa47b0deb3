//! The standings cache's state and decisions: when cached standings are
//! fresh, what a refresh fetches, and how fetched teams and games are merged
//! (games upserted by id, the latest completed game's date tracked).
//!
//! Locks, timing and the API calls themselves live with the caller, which
//! hands in the ages, teams and games it obtained.

use vstd::prelude::*;

use chrono::{Datelike, NaiveDate};

use crate::compute::{compute_standings, same_standings, standings_of, tallies_fit, Standings};
use crate::models::{Game, Team};

verus! {

// ---------------------------------------------------------------------
// Dates (through chrono)
// ---------------------------------------------------------------------

/// The day number (chrono's `Datelike::num_days_from_ce`, 0001-01-01 being
/// day 1) of the date that `NaiveDate::parse_from_str(s, "%Y-%m-%d")` reads
/// from `s`; `None` when chrono rejects the text.
pub uninterp spec fn ymd_day_number(s: Seq<char>) -> Option<i32>;

/// The "%Y-%m-%d" text chrono formats for the date with day number `n`
/// (`NaiveDate::from_num_days_from_ce_opt`); `None` when `n` is outside
/// chrono's range of dates.
pub uninterp spec fn day_number_text(n: i32) -> Option<Seq<char>>;

/// The text of an optional string.
pub open spec fn text_view(o: Option<String>) -> Option<Seq<char>> {
    match o {
        Some(t) => Some(t@),
        None => None,
    }
}

/// `NaiveDate::parse_from_str(s, "%Y-%m-%d")`, with the date read as its
/// day number by `Datelike::num_days_from_ce`. Claims only that the result
/// is the name `ymd_day_number` of the text.
#[verifier::external_body]
fn parse_ymd(s: &str) -> (r: Option<i32>)
    ensures
        r == ymd_day_number(s@),
{
    match NaiveDate::parse_from_str(s, "%Y-%m-%d") {
        Ok(d) => Some(d.num_days_from_ce()),
        Err(_) => None,
    }
}

/// `NaiveDate::from_num_days_from_ce_opt(n)` formatted with "%Y-%m-%d".
/// Claims only that the result is the name `day_number_text` of `n`.
#[verifier::external_body]
fn format_day_number(n: i32) -> (r: Option<String>)
    ensures
        text_view(r) == day_number_text(n),
{
    match NaiveDate::from_num_days_from_ce_opt(n) {
        Some(d) => Some(d.format("%Y-%m-%d").to_string()),
        None => None,
    }
}

/// Where an incremental fetch starts: the day after `date`, or `date`
/// itself when it does not read as a date. `None` when the day after is
/// beyond chrono's range of dates.
pub open spec fn incremental_start_text(date: Seq<char>) -> Option<Seq<char>> {
    match ymd_day_number(date) {
        Some(n) => if n < i32::MAX { day_number_text((n + 1) as i32) } else { None },
        None => Some(date),
    }
}

/// The start date of an incremental fetch after `date` (see
/// `incremental_start_text`).
pub fn incremental_start(date: &str) -> (r: Option<String>)
    ensures
        text_view(r) == incremental_start_text(date@),
{
    match parse_ymd(date) {
        Some(n) => if n < i32::MAX {
            format_day_number(n + 1)
        } else {
            None
        },
        None => {
            let mut t = String::new();
            t.append(date);
            assert(t@ =~= date@);
            Some(t)
        },
    }
}

// ---------------------------------------------------------------------
// Games upserted by id
// ---------------------------------------------------------------------

/// No two games share an id.
pub open spec fn unique_game_ids(s: Seq<Game>) -> bool {
    forall|i: int, j: int| 0 <= i < s.len() && 0 <= j < s.len() && i != j ==> s[i].id != s[j].id
}

pub open spec fn has_game(s: Seq<Game>, id: u64) -> bool {
    exists|i: int| 0 <= i < s.len() && s[i].id == id
}

/// `g` replaces the game with its id, or is appended when there is none.
pub open spec fn upsert_game(s: Seq<Game>, g: Game) -> Seq<Game> {
    if has_game(s, g.id) {
        s.update(choose|i: int| 0 <= i < s.len() && s[i].id == g.id, g)
    } else {
        s.push(g)
    }
}

/// `base` with each of `new` upserted in turn.
pub open spec fn upsert_games(base: Seq<Game>, new: Seq<Game>) -> Seq<Game>
    decreases new.len(),
{
    if new.len() == 0 {
        base
    } else {
        upsert_game(upsert_games(base, new.drop_last()), new.last())
    }
}

proof fn lemma_upsert_game(s: Seq<Game>, g: Game)
    requires
        unique_game_ids(s),
    ensures
        unique_game_ids(upsert_game(s, g)),
        upsert_game(s, g).contains(g),
        forall|x: Game| s.contains(x) && x.id != g.id ==> #[trigger] upsert_game(s, g).contains(x),
        forall|x: Game| #[trigger] upsert_game(s, g).contains(x) ==> x == g || (s.contains(x) && x.id != g.id),
{
    let u = upsert_game(s, g);
    if has_game(s, g.id) {
        let c = choose|i: int| 0 <= i < s.len() && s[i].id == g.id;
        assert(u[c] == g);
        assert forall|x: Game| s.contains(x) && x.id != g.id implies #[trigger] u.contains(x) by {
            let i = choose|i: int| 0 <= i < s.len() && s[i] == x;
            assert(u[i] == x);
        }
        assert forall|x: Game| #[trigger] u.contains(x) implies x == g || (s.contains(x) && x.id != g.id) by {
            let i = choose|i: int| 0 <= i < u.len() && u[i] == x;
            if i != c {
                assert(s[i] == x);
                assert(s.contains(x));
            }
        }
    } else {
        assert(u[s.len() as int] == g);
        assert forall|x: Game| s.contains(x) && x.id != g.id implies #[trigger] u.contains(x) by {
            let i = choose|i: int| 0 <= i < s.len() && s[i] == x;
            assert(u[i] == x);
        }
        assert forall|x: Game| #[trigger] u.contains(x) implies x == g || (s.contains(x) && x.id != g.id) by {
            let i = choose|i: int| 0 <= i < u.len() && u[i] == x;
            if i < s.len() {
                assert(s[i] == x);
                assert(s.contains(x));
            }
        }
    }
}

/// Games are upserted by id: the merged games hold one game per id; each
/// new game is there unless a later new game has its id; each earlier game
/// is there unless a new game has its id; and nothing else is there.
pub proof fn lemma_upsert_games(base: Seq<Game>, new: Seq<Game>)
    requires
        unique_game_ids(base),
    ensures
        ({
            let merged = upsert_games(base, new);
            &&& unique_game_ids(merged)
            &&& forall|j: int|
                0 <= j < new.len() && (forall|k: int| j < k < new.len() ==> new[k].id != new[j].id)
                    ==> merged.contains(#[trigger] new[j])
            &&& forall|x: Game|
                base.contains(x) && (forall|k: int| 0 <= k < new.len() ==> new[k].id != x.id)
                    ==> #[trigger] merged.contains(x)
            &&& forall|x: Game| #[trigger] merged.contains(x) ==> new.contains(x) || base.contains(x)
        }),
    decreases new.len(),
{
    if new.len() > 0 {
        let rest = new.drop_last();
        let g = new.last();
        lemma_upsert_games(base, rest);
        let prev = upsert_games(base, rest);
        lemma_upsert_game(prev, g);
        let merged = upsert_games(base, new);
        assert forall|j: int|
            0 <= j < new.len() && (forall|k: int| j < k < new.len() ==> new[k].id != new[j].id)
                implies merged.contains(#[trigger] new[j]) by {
            if j < new.len() - 1 {
                assert(rest[j] == new[j]);
                assert forall|k: int| j < k < rest.len() implies rest[k].id != rest[j].id by {
                    assert(rest[k] == new[k]);
                }
                assert(prev.contains(rest[j]));
                assert(new[new.len() - 1].id != new[j].id);
            }
        }
        assert forall|x: Game|
            base.contains(x) && (forall|k: int| 0 <= k < new.len() ==> new[k].id != x.id)
                implies #[trigger] merged.contains(x) by {
            assert forall|k: int| 0 <= k < rest.len() implies rest[k].id != x.id by {
                assert(rest[k] == new[k]);
            }
            assert(prev.contains(x));
            assert(new[new.len() - 1].id != x.id);
        }
        assert forall|x: Game| #[trigger] merged.contains(x) implies new.contains(x) || base.contains(x) by {
            if x == g {
                assert(new[new.len() - 1] == x);
            } else {
                assert(prev.contains(x));
                if rest.contains(x) {
                    let i = choose|i: int| 0 <= i < rest.len() && rest[i] == x;
                    assert(new[i] == x);
                }
            }
        }
    }
}

fn find_game(v: &Vec<Game>, id: u64) -> (r: Option<usize>)
    ensures
        r matches Some(p) ==> p < v.len() && v@[p as int].id == id,
        r is None ==> !has_game(v@, id),
{
    let mut i: usize = 0;
    while i < v.len()
        invariant
            i <= v.len(),
            forall|k: int| 0 <= k < i ==> v@[k].id != id,
        decreases v.len() - i,
    {
        if v[i].id == id {
            return Some(i);
        }
        i = i + 1;
    }
    None
}

fn upsert_game_into(v: &mut Vec<Game>, g: Game)
    requires
        unique_game_ids(old(v)@),
    ensures
        final(v)@ == upsert_game(old(v)@, g),
        unique_game_ids(final(v)@),
{
    match find_game(v, g.id) {
        Some(p) => {
            proof {
                let c = choose|c: int| 0 <= c < old(v)@.len() && old(v)@[c].id == g.id;
                assert(c == p);
            }
            v.set(p, g);
        },
        None => {
            v.push(g);
        },
    }
}

// ---------------------------------------------------------------------
// Latest completed game
// ---------------------------------------------------------------------

/// The latest day among `start` and the dates of the completed games in
/// `games` (status "STATUS_FINAL", date read by chrono); games not yet
/// completed, and dates chrono rejects, never count.
pub open spec fn latest_final_day(start: Option<i32>, games: Seq<Game>) -> Option<i32>
    decreases games.len(),
{
    if games.len() == 0 {
        start
    } else {
        let prev = latest_final_day(start, games.drop_last());
        let g = games.last();
        if g.status@ == "STATUS_FINAL"@ {
            match ymd_day_number(g.date@) {
                Some(d) => match prev {
                    Some(c) => if d > c { Some(d) } else { prev },
                    None => Some(d),
                },
                None => prev,
            }
        } else {
            prev
        }
    }
}

/// A day counted by `latest_final_day`: a completed game's date.
pub open spec fn final_day_of(g: Game, d: i32) -> bool {
    g.status@ == "STATUS_FINAL"@ && ymd_day_number(g.date@) == Some(d)
}

/// `latest` is a day no earlier than `d`.
pub open spec fn reaches(latest: Option<i32>, d: i32) -> bool {
    match latest {
        Some(m) => d <= m,
        None => false,
    }
}

/// `latest_final_day` is the latest of `start` and the completed games'
/// days: no counted day is later, and the result is `start` or one of them.
pub proof fn lemma_latest_final_day(start: Option<i32>, games: Seq<Game>)
    ensures
        ({
            let latest = latest_final_day(start, games);
            &&& start matches Some(s) ==> reaches(latest, s)
            &&& forall|i: int, d: i32|
                0 <= i < games.len() && #[trigger] final_day_of(games[i], d) ==> reaches(latest, d)
            &&& latest matches Some(m) ==> (start == Some(m) || exists|i: int|
                0 <= i < games.len() && #[trigger] final_day_of(games[i], m))
        }),
    decreases games.len(),
{
    if games.len() > 0 {
        let rest = games.drop_last();
        lemma_latest_final_day(start, rest);
        let latest = latest_final_day(start, games);
        assert forall|i: int, d: i32|
            0 <= i < games.len() && #[trigger] final_day_of(games[i], d) implies reaches(latest, d) by {
            if i < games.len() - 1 {
                assert(rest[i] == games[i]);
                assert(final_day_of(rest[i], d));
            }
        }
        if let Some(m) = latest {
            if start != Some(m) {
                if latest != latest_final_day(start, rest) {
                    assert(final_day_of(games[games.len() - 1], m));
                } else {
                    let i = choose|i: int| 0 <= i < rest.len() && #[trigger] final_day_of(rest[i], m);
                    assert(rest[i] == games[i]);
                    assert(final_day_of(games[i], m));
                }
            }
        }
    }
}

// ---------------------------------------------------------------------
// Cache state
// ---------------------------------------------------------------------

/// How long cached standings stay fresh: one hour.
pub const CACHE_TTL_SECS: u64 = 3600;

/// Cached standings are fresh when they were refreshed less than the TTL
/// ago (`age_secs` is the whole seconds since the last refresh, if any).
pub open spec fn is_fresh(age_secs: Option<u64>) -> bool {
    match age_secs {
        Some(a) => a < CACHE_TTL_SECS,
        None => false,
    }
}

/// What the cache holds for a season.
pub struct CacheState {
    /// Cached teams (fetched once per season).
    pub teams: Vec<Team>,
    /// Cached games of the season, one per game id.
    pub games: Vec<Game>,
    /// The date (YYYY-MM-DD) of the latest completed game seen, from which
    /// incremental fetches continue.
    pub latest_game_date: Option<String>,
    /// The season the games belong to.
    pub season: u32,
    /// Standings computed from the cached data.
    pub standings: Option<Standings>,
}

/// Which games a refresh fetches.
#[derive(Debug)]
pub enum GamesFetch {
    /// All games of the season.
    FullSeason,
    /// The season's games from this date (YYYY-MM-DD) on.
    Since(String),
}

/// What a refresh fetches.
#[derive(Debug)]
pub struct RefreshPlan {
    /// The season to refresh.
    pub season: u32,
    /// The season differs from the cached one (the cache starts over).
    pub season_changed: bool,
    /// Teams are fetched anew (none cached yet, or a new season).
    pub fetch_teams: bool,
    pub games: GamesFetch,
}

/// A request for standings.
#[derive(Debug, Clone, Copy, PartialEq, Eq, Structural)]
pub enum Request {
    /// Standings for a reader: the cached ones when fresh, else a refresh.
    Get,
    /// A forced refresh. Only one refresh runs at a time; when another one
    /// completed while this request waited for its turn, its fresh
    /// standings answer this request too.
    Refresh { other_completed: bool },
}

/// What the cache does next for a request.
#[derive(Debug)]
pub enum CacheStep {
    /// Answer with these (cached, fresh) standings.
    Answer(Standings),
    /// Fetch as planned, then merge the results and recompute.
    Fetch(RefreshPlan),
    /// No plan: the day after the latest date is beyond chrono's range.
    DateOverflow,
}

/// A plan's content as plain values: season, whether the season changed,
/// whether teams are fetched, and the start date of an incremental fetch
/// (`None` for the full season).
pub open spec fn plan_view(p: RefreshPlan) -> (u32, bool, bool, Option<Seq<char>>) {
    (
        p.season,
        p.season_changed,
        p.fetch_teams,
        match p.games {
            GamesFetch::FullSeason => None,
            GamesFetch::Since(start) => Some(start@),
        },
    )
}

/// Summary of the cache state.
#[derive(Debug)]
pub struct CacheStats {
    pub team_count: usize,
    pub game_count: usize,
    pub season: u32,
    pub latest_game_date: Option<String>,
    pub age_secs: Option<u64>,
}

/// The games a refresh keeps before merging: none on a new season.
pub open spec fn kept_games(old: Seq<Game>, old_season: u32, season: u32) -> Seq<Game> {
    if season != old_season { Seq::empty() } else { old }
}

/// The latest day a refresh starts from: none on a new season, else the
/// cached date as chrono reads it.
pub open spec fn kept_latest_day(old: Option<String>, old_season: u32, season: u32) -> Option<i32> {
    if season != old_season {
        None
    } else {
        match old {
            Some(d) => ymd_day_number(d@),
            None => None,
        }
    }
}

/// The cached latest date after a refresh: the text of the latest day.
pub open spec fn latest_text(day: Option<i32>) -> Option<Seq<char>> {
    match day {
        Some(d) => day_number_text(d),
        None => None,
    }
}

impl CacheState {
    /// The cache's invariant: one game per id.
    pub open spec fn wf(&self) -> bool {
        unique_game_ids(self.games@)
    }

    /// An empty cache for `season`.
    pub fn new(season: u32) -> (c: Self)
        ensures
            c.wf(),
            c.teams@.len() == 0,
            c.games@.len() == 0,
            c.latest_game_date is None,
            c.season == season,
            c.standings is None,
    {
        CacheState {
            teams: Vec::new(),
            games: Vec::new(),
            latest_game_date: None,
            season,
            standings: None,
        }
    }

    /// The cached standings, when there are some and they are fresh (see
    /// `is_fresh`); `None` when a refresh is due.
    pub fn fresh_standings(&self, age_secs: Option<u64>) -> (r: Option<Standings>)
        ensures
            r is Some <==> (self.standings is Some && is_fresh(age_secs)),
            r matches Some(s) ==> same_standings(s, self.standings.unwrap()),
    {
        match (&self.standings, age_secs) {
            (Some(s), Some(age)) => if age < CACHE_TTL_SECS {
                Some(s.clone())
            } else {
                None
            },
            _ => None,
        }
    }

    /// Whether `req` is answered from the cache: cached standings exist and
    /// are fresh, and the request is a read or a forced refresh that waited
    /// while another refresh completed.
    pub open spec fn answers(&self, req: Request, age_secs: Option<u64>) -> bool {
        &&& self.standings is Some
        &&& is_fresh(age_secs)
        &&& match req {
            Request::Get => true,
            Request::Refresh { other_completed } => other_completed,
        }
    }

    /// What a refresh for `season` fetches, as plain values (see
    /// `plan_view`); `None` when the day after the latest date is beyond
    /// chrono's range.
    pub open spec fn planned(&self, season: u32) -> Option<(u32, bool, bool, Option<Seq<char>>)> {
        let changed = season != self.season;
        if !changed && self.latest_game_date is Some {
            match incremental_start_text(self.latest_game_date.unwrap()@) {
                Some(start) => Some((season, false, self.teams@.len() == 0, Some(start))),
                None => None,
            }
        } else {
            Some((season, changed, self.teams@.len() == 0 || changed, None))
        }
    }

    /// The next step for `req` on standings of `season`, with the cache
    /// `age_secs` old: the cached standings when `answers` holds, else the
    /// planned refresh, which depends on the cache and the season alone.
    pub fn serve(&self, req: Request, age_secs: Option<u64>, season: u32) -> (step: CacheStep)
        ensures
            step is Answer <==> self.answers(req, age_secs),
            step matches CacheStep::Answer(s) ==> same_standings(s, self.standings.unwrap()),
            !self.answers(req, age_secs) ==> {
                &&& step is DateOverflow <==> self.planned(season) is None
                &&& step matches CacheStep::Fetch(p) ==> Some(plan_view(p)) == self.planned(season)
            },
    {
        let reuse = match req {
            Request::Get => true,
            Request::Refresh { other_completed } => other_completed,
        };
        if reuse {
            match self.fresh_standings(age_secs) {
                Some(s) => {
                    return CacheStep::Answer(s);
                },
                None => {},
            }
        }
        match self.plan_refresh(season) {
            Some(p) => CacheStep::Fetch(p),
            None => CacheStep::DateOverflow,
        }
    }

    /// What a refresh for `season` fetches: teams when none are cached or
    /// the season changed; the season's games since the day after the
    /// latest completed game when one is known for the same season, else all
    /// of the season's games. `None` when the day after the latest date is
    /// beyond chrono's range of dates.
    pub fn plan_refresh(&self, season: u32) -> (r: Option<RefreshPlan>)
        ensures
            r is None <==> (season == self.season && self.latest_game_date is Some
                && incremental_start_text(self.latest_game_date.unwrap()@) is None),
            r matches Some(p) ==> {
                &&& p.season == season
                &&& p.season_changed == (season != self.season)
                &&& p.fetch_teams == (self.teams@.len() == 0 || season != self.season)
                &&& (p.games is FullSeason) == (season != self.season || self.latest_game_date is None)
                &&& p.games matches GamesFetch::Since(start) ==> Some(start@) == incremental_start_text(
                    self.latest_game_date.unwrap()@,
                )
            },
    {
        let season_changed = season != self.season;
        let fetch_teams = self.teams.len() == 0 || season_changed;
        let games = match (&self.latest_game_date, season_changed) {
            (Some(date), false) => match incremental_start(date.as_str()) {
                Some(start) => GamesFetch::Since(start),
                None => return None,
            },
            _ => GamesFetch::FullSeason,
        };
        Some(RefreshPlan { season, season_changed, fetch_teams, games })
    }

    /// Merges a refresh's results for `season`: on a new season the cached
    /// games and date are dropped first; the teams are replaced; each new
    /// game replaces the cached game with its id or is added; the latest
    /// date advances to the latest completed new game (never to a game not
    /// yet completed). The standings are left for `recompute`.
    pub fn merge_refresh(&mut self, season: u32, teams: Vec<Team>, new_games: Vec<Game>)
        requires
            old(self).wf(),
        ensures
            final(self).wf(),
            final(self).season == season,
            final(self).teams == teams,
            final(self).games@ == upsert_games(
                kept_games(old(self).games@, old(self).season, season),
                new_games@,
            ),
            text_view(final(self).latest_game_date) == latest_text(
                latest_final_day(
                    kept_latest_day(old(self).latest_game_date, old(self).season, season),
                    new_games@,
                ),
            ),
            ({
                let start = kept_latest_day(old(self).latest_game_date, old(self).season, season);
                let day = latest_final_day(start, new_games@);
                // within a season the latest day never goes back,
                &&& start matches Some(p) ==> reaches(day, p)
                // every completed new game's day is reached,
                &&& forall|i: int, d: i32|
                    0 <= i < new_games@.len() && #[trigger] final_day_of(new_games@[i], d) ==> reaches(day, d)
                // and only a completed game can advance it.
                &&& day matches Some(m) ==> (start == Some(m) || exists|i: int|
                    0 <= i < new_games@.len() && #[trigger] final_day_of(new_games@[i], m))
            }),
            final(self).standings == old(self).standings,
    {
        proof {
            lemma_latest_final_day(
                kept_latest_day(old(self).latest_game_date, old(self).season, season),
                new_games@,
            );
        }
        if season != self.season {
            self.games = Vec::new();
            self.latest_game_date = None;
            self.season = season;
        }
        self.teams = teams;
        let ghost base = self.games@;
        let ghost start = kept_latest_day(old(self).latest_game_date, old(self).season, season);
        let mut latest: Option<i32> = match &self.latest_game_date {
            Some(d) => parse_ymd(d.as_str()),
            None => None,
        };
        assert(latest == start);
        let mut i: usize = 0;
        while i < new_games.len()
            invariant
                i <= new_games@.len(),
                unique_game_ids(self.games@),
                self.games@ == upsert_games(base, new_games@.take(i as int)),
                latest == latest_final_day(start, new_games@.take(i as int)),
                self.season == season,
                self.teams == teams,
                self.standings == old(self).standings,
            decreases new_games.len() - i,
        {
            let game = new_games[i].clone();
            proof {
                assert(new_games@.take(i + 1).drop_last() =~= new_games@.take(i as int));
                assert(new_games@.take(i + 1).last() == game);
            }
            if crate::text::str_eq(game.status.as_str(), "STATUS_FINAL") {
                match parse_ymd(game.date.as_str()) {
                    Some(d) => match latest {
                        Some(c) => if d > c {
                            latest = Some(d);
                        },
                        None => {
                            latest = Some(d);
                        },
                    },
                    None => {},
                }
            }
            upsert_game_into(&mut self.games, game);
            i = i + 1;
        }
        proof {
            assert(new_games@.take(new_games@.len() as int) =~= new_games@);
        }
        self.latest_game_date = match latest {
            Some(d) => format_day_number(d),
            None => None,
        };
    }

    /// Computes the standings from the cached teams and games and caches
    /// them.
    pub fn recompute(&mut self) -> (s: Standings)
        requires
            tallies_fit(old(self).teams@, old(self).games@),
        ensures
            standings_of(s, old(self).teams@, old(self).games@, old(self).season),
            final(self).standings matches Some(c) && same_standings(c, s),
            final(self).teams == old(self).teams,
            final(self).games == old(self).games,
            final(self).latest_game_date == old(self).latest_game_date,
            final(self).season == old(self).season,
    {
        let standings = compute_standings(self.teams.as_slice(), self.games.as_slice(), self.season);
        self.standings = Some(standings.clone());
        standings
    }

    /// The cache's counts, season and latest date, with the given age.
    pub fn stats(&self, age_secs: Option<u64>) -> (st: CacheStats)
        ensures
            st.team_count == self.teams@.len(),
            st.game_count == self.games@.len(),
            st.season == self.season,
            st.latest_game_date == self.latest_game_date,
            st.age_secs == age_secs,
    {
        let latest_game_date = match &self.latest_game_date {
            Some(d) => Some(d.clone()),
            None => None,
        };
        CacheStats {
            team_count: self.teams.len(),
            game_count: self.games.len(),
            season: self.season,
            latest_game_date,
            age_secs,
        }
    }
}


/// When the cache has no standings or they are stale, a read is served as a
/// forced refresh that waited for no other refresh: neither is answered
/// from the cache, and both go on to the refresh that `planned` gives for
/// the cache and the season (see `CacheState::serve`).
pub proof fn lemma_stale_get_is_refresh(c: CacheState, age_secs: Option<u64>)
    requires
        !(c.standings is Some && is_fresh(age_secs)),
    ensures
        !c.answers(Request::Get, age_secs),
        !c.answers(Request::Refresh { other_completed: false }, age_secs),
        !c.answers(Request::Refresh { other_completed: true }, age_secs),
{
}

/// A forced refresh that waited for no other refresh always refreshes.
pub proof fn lemma_forced_refresh_refreshes(c: CacheState, age_secs: Option<u64>)
    ensures
        !c.answers(Request::Refresh { other_completed: false }, age_secs),
{
}

} // verus!
