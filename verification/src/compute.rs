//! Standings from teams and games: win-loss tallies, division tables
//! ordered by record with games behind the leader, and wild card races.

use vstd::prelude::*;
use std::cmp::Ordering;

use crate::models::{Game, Team};

verus! {

/// A team's win-loss record for a season.
#[derive(Debug)]
pub struct TeamRecord {
    pub team: Team,
    pub wins: u32,
    pub losses: u32,
    /// Games behind the reference team, counted in half games
    /// (a value of 3 is 1.5 games behind). 0 for the reference team.
    pub games_behind_halves: i64,
}

impl Clone for TeamRecord {
    fn clone(&self) -> (r: Self)
        ensures
            r == *self,
    {
        TeamRecord {
            team: self.team.clone(),
            wins: self.wins,
            losses: self.losses,
            games_behind_halves: self.games_behind_halves,
        }
    }
}

// ---------------------------------------------------------------------
// Ordering by record
// ---------------------------------------------------------------------

/// Denominator of a team's winning percentage; a team without decided
/// games counts as a .000 team (0 / 1).
pub open spec fn pct_denom(r: TeamRecord) -> int {
    if r.wins + r.losses == 0 { 1 } else { r.wins + r.losses }
}

/// `a` has a strictly higher winning percentage than `b`.
pub open spec fn better_pct(a: TeamRecord, b: TeamRecord) -> bool {
    a.wins * pct_denom(b) > b.wins * pct_denom(a)
}

/// `a` and `b` have the same winning percentage.
pub open spec fn same_pct(a: TeamRecord, b: TeamRecord) -> bool {
    a.wins * pct_denom(b) == b.wins * pct_denom(a)
}

/// `a` ranks strictly ahead of `b`: higher winning percentage, or the same
/// percentage with more wins.
pub open spec fn ranks_ahead(a: TeamRecord, b: TeamRecord) -> bool {
    better_pct(a, b) || (same_pct(a, b) && a.wins > b.wins)
}

/// `x` placed into `s` just before the first entry it ranks ahead of
/// (after every entry it ties with).
pub open spec fn insert_ranked(s: Seq<TeamRecord>, x: TeamRecord) -> Seq<TeamRecord>
    decreases s.len(),
{
    if s.len() == 0 {
        seq![x]
    } else if ranks_ahead(x, s[0]) {
        seq![x] + s
    } else {
        seq![s[0]] + insert_ranked(s.drop_first(), x)
    }
}

/// `s` ordered by record, best first; ties keep their order in `s`.
pub open spec fn rank(s: Seq<TeamRecord>) -> Seq<TeamRecord>
    decreases s.len(),
{
    if s.len() == 0 {
        s
    } else {
        insert_ranked(rank(s.drop_last()), s.last())
    }
}

/// No entry ranks ahead of an entry before it.
pub open spec fn ranked_order(s: Seq<TeamRecord>) -> bool {
    forall|i: int, j: int| 0 <= i < j < s.len() ==> !ranks_ahead(#[trigger] s[j], #[trigger] s[i])
}

proof fn lemma_pct_order(a: TeamRecord, b: TeamRecord, c: TeamRecord)
    ensures
        better_pct(a, b) && better_pct(b, c) ==> better_pct(a, c),
        better_pct(a, b) && same_pct(b, c) ==> better_pct(a, c),
        same_pct(a, b) && better_pct(b, c) ==> better_pct(a, c),
        same_pct(a, b) && same_pct(b, c) ==> same_pct(a, c),
        better_pct(a, b) ==> !better_pct(b, a) && !same_pct(a, b),
        better_pct(a, b) || better_pct(b, a) || same_pct(a, b),
{
    let (wa, wb, wc) = (a.wins as int, b.wins as int, c.wins as int);
    let (da, db, dc) = (pct_denom(a), pct_denom(b), pct_denom(c));
    assert(da > 0 && db > 0 && dc > 0);
    assert(wa * db > wb * da && wb * dc > wc * db ==> wa * dc > wc * da) by (nonlinear_arith)
        requires da > 0, db > 0, dc > 0;
    assert(wa * db > wb * da && wb * dc == wc * db ==> wa * dc > wc * da) by (nonlinear_arith)
        requires da > 0, db > 0, dc > 0;
    assert(wa * db == wb * da && wb * dc > wc * db ==> wa * dc > wc * da) by (nonlinear_arith)
        requires da > 0, db > 0, dc > 0;
    assert(wa * db == wb * da && wb * dc == wc * db ==> wa * dc == wc * da) by (nonlinear_arith)
        requires da > 0, db > 0, dc > 0;
}

/// Ranking ahead is a strict weak order: irreflexive, transitive, and
/// "neither ahead" (a tie) is transitive.
pub proof fn lemma_ranks_ahead_strict_weak_order(a: TeamRecord, b: TeamRecord, c: TeamRecord)
    ensures
        !ranks_ahead(a, a),
        ranks_ahead(a, b) ==> !ranks_ahead(b, a),
        ranks_ahead(a, b) && ranks_ahead(b, c) ==> ranks_ahead(a, c),
        !ranks_ahead(a, b) && !ranks_ahead(b, c) ==> !ranks_ahead(a, c),
{
    lemma_pct_order(a, b, c);
    lemma_pct_order(b, c, a);
    lemma_pct_order(c, a, b);
    lemma_pct_order(a, c, b);
    lemma_pct_order(b, a, c);
    lemma_pct_order(c, b, a);
    lemma_pct_order(a, a, a);
}

/// Position at which `insert_ranked` places `x`: the first entry of `s`
/// that `x` ranks ahead of, or the end.
pub open spec fn insertion_point(s: Seq<TeamRecord>, x: TeamRecord) -> int
    decreases s.len(),
{
    if s.len() == 0 {
        0
    } else if ranks_ahead(x, s[0]) {
        0
    } else {
        1 + insertion_point(s.drop_first(), x)
    }
}

proof fn lemma_insert_ranked_is_insert(s: Seq<TeamRecord>, x: TeamRecord)
    ensures
        0 <= insertion_point(s, x) <= s.len(),
        insert_ranked(s, x) == s.insert(insertion_point(s, x), x),
        forall|i: int| 0 <= i < insertion_point(s, x) ==> !ranks_ahead(x, #[trigger] s[i]),
        insertion_point(s, x) < s.len() ==> ranks_ahead(x, s[insertion_point(s, x)]),
    decreases s.len(),
{
    if s.len() == 0 {
        assert(insert_ranked(s, x) =~= s.insert(0, x));
    } else if ranks_ahead(x, s[0]) {
        assert(insert_ranked(s, x) =~= s.insert(0, x));
    } else {
        let t = s.drop_first();
        lemma_insert_ranked_is_insert(t, x);
        let k = insertion_point(t, x);
        assert(insert_ranked(s, x) =~= s.insert(k + 1, x));
        assert forall|i: int| 0 <= i < k + 1 implies !ranks_ahead(x, #[trigger] s[i]) by {
            if i > 0 {
                assert(s[i] == t[i - 1]);
            }
        }
        if k < t.len() {
            assert(s[k + 1] == t[k]);
        }
    }
}

proof fn lemma_insert_ranked_sorted(s: Seq<TeamRecord>, x: TeamRecord)
    requires
        ranked_order(s),
    ensures
        ranked_order(insert_ranked(s, x)),
        insert_ranked(s, x).to_multiset() =~= s.to_multiset().insert(x),
{
    lemma_insert_ranked_is_insert(s, x);
    let k = insertion_point(s, x);
    let r = insert_ranked(s, x);
    assert forall|i: int, j: int| 0 <= i < j < r.len() implies !ranks_ahead(
        #[trigger] r[j],
        #[trigger] r[i],
    ) by {
        if i < k && j < k {
            assert(r[i] == s[i] && r[j] == s[j]);
        } else if i < k && j == k {
            assert(r[i] == s[i]);
        } else if i < k {
            assert(r[i] == s[i] && r[j] == s[j - 1]);
        } else if i == k {
            // x before s[j - 1]: s[j - 1] is not ahead of x
            assert(r[j] == s[j - 1]);
            assert(ranks_ahead(x, s[k]));
            if j - 1 > k {
                assert(!ranks_ahead(s[j - 1], s[k]));
            }
            lemma_ranks_ahead_strict_weak_order(s[j - 1], x, s[k]);
        } else {
            assert(r[i] == s[i - 1] && r[j] == s[j - 1]);
        }
    }
    s.insert_ensures(k, x);
    assert(r.to_multiset() =~= s.to_multiset().insert(x)) by {
        lemma_insert_multiset(s, k, x);
    }
}

proof fn lemma_insert_multiset(s: Seq<TeamRecord>, k: int, x: TeamRecord)
    requires
        0 <= k <= s.len(),
    ensures
        s.insert(k, x).to_multiset() =~= s.to_multiset().insert(x),
{
    broadcast use vstd::seq_lib::group_to_multiset_ensures;
    let t = s.insert(k, x);
    assert(t.remove(k) =~= s);
    assert(t.remove(k).to_multiset() =~= t.to_multiset().remove(t[k]));
    assert(t.to_multiset().count(x) > 0) by {
        assert(t.contains(x)) by { assert(t[k] == x); }
    }
}

/// The ranking is in order: no team ranks ahead of a team listed before it.
pub proof fn lemma_rank_in_order(s: Seq<TeamRecord>)
    ensures
        ranked_order(rank(s)),
        rank(s).to_multiset() =~= s.to_multiset(),
        rank(s).len() == s.len(),
    decreases s.len(),
{
    broadcast use vstd::seq_lib::group_to_multiset_ensures;
    if s.len() == 0 {
    } else {
        lemma_rank_in_order(s.drop_last());
        lemma_insert_ranked_is_insert(rank(s.drop_last()), s.last());
        lemma_insert_ranked_sorted(rank(s.drop_last()), s.last());
        assert(s =~= s.drop_last().push(s.last()));
    }
}

// ---------------------------------------------------------------------
// Executable ranking
// ---------------------------------------------------------------------

fn cross_products(a: &TeamRecord, b: &TeamRecord) -> (r: (u128, u128))
    ensures
        r.0 == a.wins * pct_denom(*b),
        r.1 == b.wins * pct_denom(*a),
{
    let ta: u128 = a.wins as u128 + a.losses as u128;
    let tb: u128 = b.wins as u128 + b.losses as u128;
    let da: u128 = if ta == 0 { 1 } else { ta };
    let db: u128 = if tb == 0 { 1 } else { tb };
    let wa: u128 = a.wins as u128;
    let wb: u128 = b.wins as u128;
    assert(wa * db <= 0xffff_ffff * 0x1_ffff_ffff) by (nonlinear_arith)
        requires wa <= 0xffff_ffff, db <= 0x1_ffff_ffff;
    assert(wb * da <= 0xffff_ffff * 0x1_ffff_ffff) by (nonlinear_arith)
        requires wb <= 0xffff_ffff, da <= 0x1_ffff_ffff;
    (wa * db, wb * da)
}

/// Standings order of two records: `Less` when `a` ranks ahead of `b`
/// (better winning percentage, then more wins), `Greater` when `b` ranks
/// ahead of `a`, `Equal` otherwise.
pub fn sort_by_record(a: &TeamRecord, b: &TeamRecord) -> (r: Ordering)
    ensures
        (r == Ordering::Less) == ranks_ahead(*a, *b),
        (r == Ordering::Greater) == ranks_ahead(*b, *a),
{
    proof {
        lemma_ranks_ahead_strict_weak_order(*a, *b, *a);
    }
    let (lhs, rhs) = cross_products(a, b);
    if lhs > rhs {
        Ordering::Less
    } else if lhs < rhs {
        Ordering::Greater
    } else if a.wins > b.wins {
        Ordering::Less
    } else if a.wins < b.wins {
        Ordering::Greater
    } else {
        Ordering::Equal
    }
}

/// Whether `a` ranks strictly ahead of `b`.
pub fn record_ahead(a: &TeamRecord, b: &TeamRecord) -> (r: bool)
    ensures
        r == ranks_ahead(*a, *b),
{
    match sort_by_record(a, b) {
        Ordering::Less => true,
        _ => false,
    }
}

/// Orders records by record, best first; ties keep their input order.
pub fn rank_records(records: &Vec<TeamRecord>) -> (ranked: Vec<TeamRecord>)
    ensures
        ranked@ == rank(records@),
{
    let mut ranked: Vec<TeamRecord> = Vec::new();
    let mut i: usize = 0;
    while i < records.len()
        invariant
            i <= records.len(),
            ranked@ == rank(records@.take(i as int)),
        decreases records.len() - i,
    {
        let x = records[i].clone();
        let ghost before = ranked@;
        proof {
            lemma_insert_ranked_is_insert(before, x);
        }
        let mut k: usize = 0;
        while k < ranked.len()
            invariant
                ranked@ == before,
                k <= ranked.len(),
                forall|j: int| 0 <= j < k ==> !ranks_ahead(x, #[trigger] before[j]),
            ensures
                ranked@ == before,
                k <= ranked.len(),
                forall|j: int| 0 <= j < k ==> !ranks_ahead(x, #[trigger] before[j]),
                k < ranked.len() ==> ranks_ahead(x, before[k as int]),
            decreases ranked.len() - k,
        {
            if record_ahead(&x, &ranked[k]) {
                break;
            }
            k = k + 1;
        }
        proof {
            lemma_insertion_point_unique(before, x, k as int);
        }
        ranked.insert(k, x);
        proof {
            assert(records@.take(i + 1).drop_last() =~= records@.take(i as int));
            assert(records@.take(i + 1).last() == x);
        }
        i = i + 1;
    }
    assert(records@.take(records.len() as int) =~= records@);
    ranked
}

proof fn lemma_insertion_point_unique(s: Seq<TeamRecord>, x: TeamRecord, k: int)
    requires
        0 <= k <= s.len(),
        forall|j: int| 0 <= j < k ==> !ranks_ahead(x, #[trigger] s[j]),
        k < s.len() ==> ranks_ahead(x, s[k]),
    ensures
        insertion_point(s, x) == k,
    decreases s.len(),
{
    if s.len() > 0 && k > 0 {
        let t = s.drop_first();
        assert(!ranks_ahead(x, s[0]));
        assert forall|j: int| 0 <= j < k - 1 implies !ranks_ahead(x, #[trigger] t[j]) by {
            assert(t[j] == s[j + 1]);
        }
        if k - 1 < t.len() {
            assert(t[k - 1] == s[k]);
        }
        lemma_insertion_point_unique(t, x, k - 1);
    }
}


// ---------------------------------------------------------------------
// Tallies
// ---------------------------------------------------------------------

/// Runs scored by (home, away), when both are recorded.
pub open spec fn scores(g: Game) -> Option<(u32, u32)> {
    match (g.home_team_data, g.away_team_data) {
        (Some(h), Some(a)) => match (h.runs, a.runs) {
            (Some(x), Some(y)) => Some((x, y)),
            _ => None,
        },
        _ => None,
    }
}

/// The (winner, loser) team ids of a completed game with both scores
/// recorded and no tie; `None` for every other game.
pub open spec fn decision(g: Game) -> Option<(u64, u64)> {
    if g.status@ == "STATUS_FINAL"@ {
        match scores(g) {
            Some((h, a)) => if h > a {
                Some((g.home_team.id, g.away_team.id))
            } else if a > h {
                Some((g.away_team.id, g.home_team.id))
            } else {
                None
            },
            None => None,
        }
    } else {
        None
    }
}

/// Number of games in `games` won by team `id`.
pub open spec fn wins_in(games: Seq<Game>, id: u64) -> nat
    decreases games.len(),
{
    if games.len() == 0 {
        0
    } else {
        wins_in(games.drop_last(), id) + win_count(games.last(), id)
    }
}

/// 1 when `g` is a game won by team `id`, else 0.
pub open spec fn win_count(g: Game, id: u64) -> nat {
    if decision(g) matches Some((w, _)) && w == id { 1 } else { 0 }
}

/// 1 when `g` is a game lost by team `id`, else 0.
pub open spec fn loss_count(g: Game, id: u64) -> nat {
    if decision(g) matches Some((_, l)) && l == id { 1 } else { 0 }
}

/// Number of games in `games` lost by team `id`.
pub open spec fn losses_in(games: Seq<Game>, id: u64) -> nat
    decreases games.len(),
{
    if games.len() == 0 {
        0
    } else {
        losses_in(games.drop_last(), id) + loss_count(games.last(), id)
    }
}

/// Some entry of `s` has id `id`.
pub open spec fn has_team(s: Seq<Team>, id: u64) -> bool {
    exists|i: int| 0 <= i < s.len() && s[i].id == id
}

/// No two entries of `s` share an id.
pub open spec fn unique_team_ids(s: Seq<Team>) -> bool {
    forall|i: int, j: int| 0 <= i < s.len() && 0 <= j < s.len() && i != j ==> s[i].id != s[j].id
}

/// `t` replaces the entry with its id, or is appended when there is none.
pub open spec fn upsert_team(s: Seq<Team>, t: Team) -> Seq<Team> {
    if has_team(s, t.id) {
        s.update(choose|i: int| 0 <= i < s.len() && s[i].id == t.id, t)
    } else {
        s.push(t)
    }
}

/// One entry per team id, in order of first appearance, holding the last
/// team listed with that id.
pub open spec fn distinct_teams(teams: Seq<Team>) -> Seq<Team>
    decreases teams.len(),
{
    if teams.len() == 0 {
        Seq::empty()
    } else {
        upsert_team(distinct_teams(teams.drop_last()), teams.last())
    }
}

/// No two records share a team id.
pub open spec fn unique_record_ids(s: Seq<TeamRecord>) -> bool {
    forall|i: int, j: int|
        0 <= i < s.len() && 0 <= j < s.len() && i != j ==> s[i].team.id != s[j].team.id
}

/// A team's record over `games`, with no games behind set.
pub open spec fn tallied(t: Team, games: Seq<Game>) -> TeamRecord {
    TeamRecord {
        team: t,
        wins: wins_in(games, t.id) as u32,
        losses: losses_in(games, t.id) as u32,
        games_behind_halves: 0,
    }
}

/// The season's records: one per distinct team, tallied over all games.
pub open spec fn season_records(teams: Seq<Team>, games: Seq<Game>) -> Seq<TeamRecord> {
    let ts = distinct_teams(teams);
    Seq::new(ts.len(), |i: int| tallied(ts[i], games))
}

/// Every team's wins plus losses fit in a `u32`, the width of its win and
/// loss counters.
pub open spec fn tallies_fit(teams: Seq<Team>, games: Seq<Game>) -> bool {
    forall|i: int|
        0 <= i < teams.len() ==> wins_in(games, #[trigger] teams[i].id) + losses_in(games, teams[i].id)
            <= u32::MAX
}

proof fn lemma_tally_at_most_games(games: Seq<Game>, id: u64)
    ensures
        wins_in(games, id) <= games.len(),
        losses_in(games, id) <= games.len(),
    decreases games.len(),
{
    if games.len() > 0 {
        lemma_tally_at_most_games(games.drop_last(), id);
    }
}

/// With at most `u32::MAX / 2` games, no team's wins plus losses can
/// overflow a `u32`.
pub proof fn lemma_tallies_fit_few_games(teams: Seq<Team>, games: Seq<Game>)
    requires
        games.len() <= u32::MAX / 2,
    ensures
        tallies_fit(teams, games),
{
    assert forall|i: int| 0 <= i < teams.len() implies wins_in(games, #[trigger] teams[i].id) + losses_in(
        games,
        teams[i].id,
    ) <= u32::MAX by {
        lemma_tally_at_most_games(games, teams[i].id);
    }
}

proof fn lemma_tally_prefix(games: Seq<Game>, j: int, id: u64)
    requires
        0 <= j <= games.len(),
    ensures
        wins_in(games.take(j), id) <= wins_in(games, id),
        losses_in(games.take(j), id) <= losses_in(games, id),
    decreases games.len(),
{
    if j == games.len() {
        assert(games.take(j) =~= games);
    } else {
        lemma_tally_prefix(games.drop_last(), j, id);
        assert(games.drop_last().take(j) =~= games.take(j));
    }
}

fn find_team(v: &Vec<Team>, id: u64) -> (r: Option<usize>)
    ensures
        r matches Some(p) ==> p < v.len() && v@[p as int].id == id,
        r is None ==> !has_team(v@, id),
{
    let mut i: usize = 0;
    while i < v.len()
        invariant
            i <= v.len(),
            forall|k: int| 0 <= k < i ==> v@[k].id != id,
        decreases v.len() - i,
    {
        if v[i].id == id {
            return Some(i);
        }
        i = i + 1;
    }
    None
}

/// The teams of `teams`, one per id (the last listed for each id), in order
/// of first appearance.
pub fn distinct(teams: &[Team]) -> (v: Vec<Team>)
    ensures
        v@ == distinct_teams(teams@),
        unique_team_ids(v@),
        forall|k: int| 0 <= k < v@.len() ==> exists|j: int| 0 <= j < teams@.len() && #[trigger] v@[k] == teams@[j],
{
    let mut v: Vec<Team> = Vec::new();
    let mut i: usize = 0;
    while i < teams.len()
        invariant
            i <= teams@.len(),
            v@ == distinct_teams(teams@.take(i as int)),
            unique_team_ids(v@),
            forall|k: int| 0 <= k < v@.len() ==> exists|j: int| 0 <= j < teams@.len() && #[trigger] v@[k] == teams@[j],
        decreases teams.len() - i,
    {
        let t = teams[i].clone();
        let ghost before = v@;
        proof {
            assert(teams@.take(i + 1).drop_last() =~= teams@.take(i as int));
            assert(teams@.take(i + 1).last() == t);
        }
        match find_team(&v, t.id) {
            Some(p) => {
                proof {
                    let c = choose|c: int| 0 <= c < before.len() && before[c].id == t.id;
                    assert(c == p);
                }
                v.set(p, t);
                proof {
                    assert forall|k: int| 0 <= k < v@.len() implies exists|j: int|
                        0 <= j < teams@.len() && #[trigger] v@[k] == teams@[j] by {
                        if k == p {
                            assert(v@[k] == teams@[i as int]);
                        } else {
                            assert(v@[k] == before[k]);
                        }
                    }
                }
            },
            None => {
                v.push(t);
                proof {
                    assert forall|k: int| 0 <= k < v@.len() implies exists|j: int|
                        0 <= j < teams@.len() && #[trigger] v@[k] == teams@[j] by {
                        if k == before.len() {
                            assert(v@[k] == teams@[i as int]);
                        } else {
                            assert(v@[k] == before[k]);
                        }
                    }
                }
            },
        }
        i = i + 1;
    }
    assert(teams@.take(teams@.len() as int) =~= teams@);
    v
}

/// Whether the game was completed (status "STATUS_FINAL").
fn is_final(g: &Game) -> (r: bool)
    ensures
        r == (g.status@ == "STATUS_FINAL"@),
{
    crate::text::str_eq(g.status.as_str(), "STATUS_FINAL")
}

fn game_scores(g: &Game) -> (r: Option<(u32, u32)>)
    ensures
        r == scores(*g),
{
    match (&g.home_team_data, &g.away_team_data) {
        (Some(h), Some(a)) => match (h.runs, a.runs) {
            (Some(x), Some(y)) => Some((x, y)),
            _ => None,
        },
        _ => None,
    }
}

/// The (winner, loser) ids of a game that counts in the standings.
pub fn game_decision(g: &Game) -> (r: Option<(u64, u64)>)
    ensures
        r == decision(*g),
{
    if !is_final(g) {
        return None;
    }
    match game_scores(g) {
        Some((h, a)) => if h > a {
            Some((g.home_team.id, g.away_team.id))
        } else if a > h {
            Some((g.away_team.id, g.home_team.id))
        } else {
            None
        },
        None => None,
    }
}

fn find_record(records: &Vec<TeamRecord>, id: u64) -> (r: Option<usize>)
    ensures
        r matches Some(p) ==> p < records.len() && records@[p as int].team.id == id,
        r is None ==> forall|k: int| 0 <= k < records@.len() ==> records@[k].team.id != id,
{
    let mut i: usize = 0;
    while i < records.len()
        invariant
            i <= records.len(),
            forall|k: int| 0 <= k < i ==> records@[k].team.id != id,
        decreases records.len() - i,
    {
        if records[i].team.id == id {
            return Some(i);
        }
        i = i + 1;
    }
    None
}

/// Credits a win (`won`) or a loss (`!won`) to the record with id `id`,
/// if there is one.
fn credit(records: &mut Vec<TeamRecord>, id: u64, won: bool)
    requires
        unique_record_ids(old(records)@),
        forall|k: int|
            0 <= k < old(records)@.len() && #[trigger] old(records)@[k].team.id == id ==> (if won {
                old(records)@[k].wins < u32::MAX
            } else {
                old(records)@[k].losses < u32::MAX
            }),
    ensures
        final(records)@.len() == old(records)@.len(),
        forall|k: int|
            0 <= k < final(records)@.len() ==> {
                let r = #[trigger] final(records)@[k];
                let o = old(records)@[k];
                &&& r.team == o.team
                &&& r.games_behind_halves == o.games_behind_halves
                &&& r.wins == o.wins + if won && o.team.id == id { 1int } else { 0int }
                &&& r.losses == o.losses + if !won && o.team.id == id { 1int } else { 0int }
            },
{
    match find_record(records, id) {
        Some(p) => {
            let mut r = records[p].clone();
            if won {
                r.wins = r.wins + 1;
            } else {
                r.losses = r.losses + 1;
            }
            let ghost before = records@;
            records.set(p, r);
            proof {
                assert forall|k: int| 0 <= k < records@.len() && k != p implies #[trigger] records@[k] == before[k] by {}
            }
        },
        None => {},
    }
}

/// The season's records: one per distinct team (see `distinct`), with wins
/// and losses over the completed, decided games of `games`.
pub fn tally_records(teams: &[Team], games: &[Game]) -> (records: Vec<TeamRecord>)
    requires
        tallies_fit(teams@, games@),
    ensures
        records@ == season_records(teams@, games@),
        unique_record_ids(records@),
{
    let ts = distinct(teams);
    let mut records: Vec<TeamRecord> = Vec::new();
    let mut k: usize = 0;
    while k < ts.len()
        invariant
            k <= ts@.len(),
            records@.len() == k,
            forall|m: int| 0 <= m < k ==> {
                let r = #[trigger] records@[m];
                &&& r.team == ts@[m]
                &&& r.wins == 0
                &&& r.losses == 0
                &&& r.games_behind_halves == 0
            },
        decreases ts.len() - k,
    {
        records.push(TeamRecord { team: ts[k].clone(), wins: 0, losses: 0, games_behind_halves: 0 });
        k = k + 1;
    }
    let mut j: usize = 0;
    while j < games.len()
        invariant
            j <= games@.len(),
            ts@ == distinct_teams(teams@),
            unique_team_ids(ts@),
            forall|m: int| 0 <= m < ts@.len() ==> exists|q: int| 0 <= q < teams@.len() && #[trigger] ts@[m] == teams@[q],
            tallies_fit(teams@, games@),
            records@.len() == ts@.len(),
            forall|m: int| 0 <= m < ts@.len() ==> {
                let r = #[trigger] records@[m];
                &&& r.team == ts@[m]
                &&& r.wins == wins_in(games@.take(j as int), ts@[m].id)
                &&& r.losses == losses_in(games@.take(j as int), ts@[m].id)
                &&& r.games_behind_halves == 0
            },
        decreases games.len() - j,
    {
        let ghost done = games@.take(j as int);
        let ghost next = games@.take(j + 1);
        proof {
            assert(next.drop_last() =~= done);
            assert(next.last() == games@[j as int]);
            assert forall|m: int| 0 <= m < ts@.len() implies {
                &&& wins_in(next, ts@[m].id) <= wins_in(games@, ts@[m].id)
                &&& losses_in(next, ts@[m].id) <= losses_in(games@, ts@[m].id)
                &&& wins_in(games@, ts@[m].id) + losses_in(games@, ts@[m].id) <= u32::MAX
            } by {
                lemma_tally_prefix(games@, j + 1, ts@[m].id);
                let q = choose|q: int| 0 <= q < teams@.len() && ts@[m] == teams@[q];
                assert(ts@[m].id == teams@[q].id);
            }
        }
        match game_decision(&games[j]) {
            Some((w, l)) => {
                credit(&mut records, w, true);
                credit(&mut records, l, false);
            },
            None => {},
        }
        j = j + 1;
    }
    proof {
        assert(games@.take(games@.len() as int) =~= games@);
        assert(records@ =~= season_records(teams@, games@));
    }
    records
}

// ---------------------------------------------------------------------
// Division tables and wild card races
// ---------------------------------------------------------------------

/// Number of wild card spots per league (current MLB format).
pub const WILD_CARD_SPOTS: usize = 3;

/// Games behind in half games:
/// `(base.wins - team.wins) + (team.losses - base.losses)`.
pub open spec fn gb_halves(base: TeamRecord, team: TeamRecord) -> int {
    (base.wins - team.wins) + (team.losses - base.losses)
}

/// `r` with its games behind set to `g` half games.
pub open spec fn with_gb(r: TeamRecord, g: int) -> TeamRecord {
    TeamRecord { team: r.team, wins: r.wins, losses: r.losses, games_behind_halves: g as i64 }
}

/// Every record of `s` with its games behind measured from `base`.
pub open spec fn measured_from(s: Seq<TeamRecord>, base: TeamRecord) -> Seq<TeamRecord> {
    Seq::new(s.len(), |i: int| with_gb(s[i], gb_halves(base, s[i])))
}

/// The records of `s` that satisfy `pred`, in order.
pub open spec fn keep(s: Seq<TeamRecord>, pred: spec_fn(TeamRecord) -> bool) -> Seq<TeamRecord>
    decreases s.len(),
{
    if s.len() == 0 {
        s
    } else if pred(s.last()) {
        keep(s.drop_last(), pred).push(s.last())
    } else {
        keep(s.drop_last(), pred)
    }
}

/// League `l`: 0 is the American League, 1 the National League.
pub open spec fn league_name(l: int) -> Seq<char> {
    if l == 0 { "American"@ } else { "National"@ }
}

pub open spec fn league_abbr(l: int) -> Seq<char> {
    if l == 0 { "AL"@ } else { "NL"@ }
}

/// Division `k` (0 to 5) in display order: AL East, AL Central, AL West,
/// NL East, NL Central, NL West.
pub open spec fn division_league(k: int) -> Seq<char> {
    league_name(k / 3)
}

pub open spec fn division_short(k: int) -> Seq<char> {
    if k % 3 == 0 { "East"@ } else if k % 3 == 1 { "Central"@ } else { "West"@ }
}

/// "AL East" and the like.
pub open spec fn division_label(k: int) -> Seq<char> {
    league_abbr(k / 3) + " "@ + division_short(k)
}

/// "AL Wild Card" or "NL Wild Card".
pub open spec fn wild_card_label(l: int) -> Seq<char> {
    league_abbr(l) + " Wild Card"@
}

pub open spec fn in_division(k: int) -> spec_fn(TeamRecord) -> bool {
    |r: TeamRecord| r.team.league@ == division_league(k) && r.team.division@ == division_short(k)
}

/// Division `k`: its teams ranked by record, games behind measured from the
/// leader.
pub open spec fn division_table(records: Seq<TeamRecord>, k: int) -> Seq<TeamRecord> {
    let ranked = rank(keep(records, in_division(k)));
    if ranked.len() == 0 {
        ranked
    } else {
        measured_from(ranked, ranked[0])
    }
}

/// The id of division `k`'s leader, if the division has a team.
pub open spec fn leader_ids(records: Seq<TeamRecord>, k: int) -> Seq<u64> {
    let table = division_table(records, k);
    if table.len() == 0 { Seq::empty() } else { seq![table[0].team.id] }
}

/// The division leaders of league `l`, in division order.
pub open spec fn league_leader_ids(records: Seq<TeamRecord>, l: int) -> Seq<u64> {
    leader_ids(records, 3 * l) + leader_ids(records, 3 * l + 1) + leader_ids(records, 3 * l + 2)
}

pub open spec fn in_wild_card_race(leaders: Seq<u64>, l: int) -> spec_fn(TeamRecord) -> bool {
    |r: TeamRecord| r.team.league@ == league_name(l) && !leaders.contains(r.team.id)
}

/// League `l`'s wild card race: the league's teams other than division
/// leaders, ranked by record; games behind are measured from the last wild
/// card spot when every spot is taken, else (fewer teams than spots) from
/// the first team.
pub open spec fn wild_card_table(records: Seq<TeamRecord>, l: int) -> Seq<TeamRecord> {
    let ranked = rank(keep(records, in_wild_card_race(league_leader_ids(records, l), l)));
    if ranked.len() >= WILD_CARD_SPOTS {
        measured_from(ranked, ranked[WILD_CARD_SPOTS - 1])
    } else if ranked.len() > 0 {
        measured_from(ranked, ranked[0])
    } else {
        ranked
    }
}

/// Games behind `leader` for `team`, in half games:
/// `(leader.wins - team.wins) + (team.losses - leader.losses)`.
pub fn games_behind(leader: &TeamRecord, team: &TeamRecord) -> (gb: i64)
    ensures
        gb == gb_halves(*leader, *team),
{
    (leader.wins as i64 - team.wins as i64) + (team.losses as i64 - leader.losses as i64)
}

/// Every record of `records` with its games behind measured from `base`.
fn measure_from(records: &Vec<TeamRecord>, base: &TeamRecord) -> (out: Vec<TeamRecord>)
    ensures
        out@ == measured_from(records@, *base),
{
    let mut out: Vec<TeamRecord> = Vec::new();
    let mut i: usize = 0;
    while i < records.len()
        invariant
            i <= records.len(),
            out@ == measured_from(records@, *base).take(i as int),
        decreases records.len() - i,
    {
        let mut r = records[i].clone();
        r.games_behind_halves = games_behind(base, &records[i]);
        out.push(r);
        proof {
            assert(out@ =~= measured_from(records@, *base).take(i + 1));
        }
        i = i + 1;
    }
    assert(out@ =~= measured_from(records@, *base));
    out
}

/// League and short division name of division `k`.
fn division_of(k: usize) -> (r: (&'static str, &'static str))
    requires
        k < 6,
    ensures
        r.0@ == division_league(k as int),
        r.1@ == division_short(k as int),
{
    if k == 0 {
        ("American", "East")
    } else if k == 1 {
        ("American", "Central")
    } else if k == 2 {
        ("American", "West")
    } else if k == 3 {
        ("National", "East")
    } else if k == 4 {
        ("National", "Central")
    } else {
        ("National", "West")
    }
}

fn league_of(l: usize) -> (r: (&'static str, &'static str))
    requires
        l < 2,
    ensures
        r.0@ == league_name(l as int),
        r.1@ == league_abbr(l as int),
{
    if l == 0 {
        ("American", "AL")
    } else {
        ("National", "NL")
    }
}

/// A new string holding `s`.
fn owned(s: &str) -> (r: String)
    ensures
        r@ == s@,
{
    let mut r = String::new();
    r.append(s);
    assert(r@ =~= s@);
    r
}

/// The records of division `k`, in order.
fn division_members(records: &Vec<TeamRecord>, k: usize) -> (out: Vec<TeamRecord>)
    requires
        k < 6,
    ensures
        out@ == keep(records@, in_division(k as int)),
{
    let (league, division) = division_of(k);
    let mut out: Vec<TeamRecord> = Vec::new();
    let mut i: usize = 0;
    while i < records.len()
        invariant
            k < 6,
            league@ == division_league(k as int),
            division@ == division_short(k as int),
            i <= records.len(),
            out@ == keep(records@.take(i as int), in_division(k as int)),
        decreases records.len() - i,
    {
        proof {
            assert(records@.take(i + 1).drop_last() =~= records@.take(i as int));
            assert(records@.take(i + 1).last() == records@[i as int]);
        }
        if crate::text::str_eq(records[i].team.league.as_str(), league)
            && crate::text::str_eq(records[i].team.division.as_str(), division) {
            out.push(records[i].clone());
        }
        i = i + 1;
    }
    assert(records@.take(records.len() as int) =~= records@);
    out
}

/// Ranks `members` and measures games behind from the entry at `base`
/// (no change when there are none).
fn ranked_table(members: &Vec<TeamRecord>, base: usize) -> (out: Vec<TeamRecord>)
    ensures
        base < members@.len() ==> out@ == measured_from(rank(members@), rank(members@)[base as int]),
        members@.len() == 0 ==> out@ == rank(members@),
{
    let ranked = rank_records(members);
    proof {
        lemma_rank_in_order(members@);
    }
    if base < ranked.len() {
        let b = ranked[base].clone();
        measure_from(&ranked, &b)
    } else {
        ranked
    }
}

/// A single division's standings.
#[derive(Debug)]
pub struct DivisionStandings {
    /// Division label, e.g. "AL East".
    pub name: String,
    /// League: "American" or "National".
    pub league: String,
    /// Teams ranked by record, games behind measured from the leader.
    pub teams: Vec<TeamRecord>,
}

/// Wild card standings for one league.
#[derive(Debug)]
pub struct WildCardStandings {
    /// "AL Wild Card" or "NL Wild Card".
    pub name: String,
    /// League: "American" or "National".
    pub league: String,
    /// Teams other than division leaders, ranked by record, games behind
    /// measured from the last wild card spot.
    pub teams: Vec<TeamRecord>,
}

/// Complete MLB standings.
#[derive(Debug)]
pub struct Standings {
    /// The six divisions: AL East, AL Central, AL West, NL East, NL Central,
    /// NL West.
    pub divisions: Vec<DivisionStandings>,
    /// The two wild card races: AL, then NL.
    pub wild_cards: Vec<WildCardStandings>,
    pub season: u32,
}

impl Clone for DivisionStandings {
    fn clone(&self) -> (r: Self)
        ensures
            r.name == self.name,
            r.league == self.league,
            r.teams@ == self.teams@,
    {
        let teams = self.teams.clone();
        assert(teams@ =~= self.teams@);
        DivisionStandings { name: self.name.clone(), league: self.league.clone(), teams }
    }
}

impl Clone for WildCardStandings {
    fn clone(&self) -> (r: Self)
        ensures
            r.name == self.name,
            r.league == self.league,
            r.teams@ == self.teams@,
    {
        let teams = self.teams.clone();
        assert(teams@ =~= self.teams@);
        WildCardStandings { name: self.name.clone(), league: self.league.clone(), teams }
    }
}

/// `a` and `b` hold the same standings (equal labels, leagues and tables).
pub open spec fn same_standings(a: Standings, b: Standings) -> bool {
    &&& a.season == b.season
    &&& a.divisions@.len() == b.divisions@.len()
    &&& forall|k: int|
        0 <= k < a.divisions@.len() ==> {
            let (x, y) = (#[trigger] a.divisions@[k], b.divisions@[k]);
            x.name == y.name && x.league == y.league && x.teams@ == y.teams@
        }
    &&& a.wild_cards@.len() == b.wild_cards@.len()
    &&& forall|l: int|
        0 <= l < a.wild_cards@.len() ==> {
            let (x, y) = (#[trigger] a.wild_cards@[l], b.wild_cards@[l]);
            x.name == y.name && x.league == y.league && x.teams@ == y.teams@
        }
}

impl Clone for Standings {
    fn clone(&self) -> (r: Self)
        ensures
            same_standings(r, *self),
    {
        let divisions = self.divisions.clone();
        let wild_cards = self.wild_cards.clone();
        Standings { divisions, wild_cards, season: self.season }
    }
}

/// `standings` is what the season's teams and games give: six divisions
/// and two wild card races, each with its label, league and table.
pub open spec fn standings_of(standings: Standings, teams: Seq<Team>, games: Seq<Game>, season: u32) -> bool {
    let records = season_records(teams, games);
    &&& standings.season == season
    &&& standings.divisions@.len() == 6
    &&& forall|k: int|
        0 <= k < 6 ==> {
            let d = #[trigger] standings.divisions@[k];
            &&& d.name@ == division_label(k)
            &&& d.league@ == division_league(k)
            &&& d.teams@ == division_table(records, k)
        }
    &&& standings.wild_cards@.len() == 2
    &&& forall|l: int|
        0 <= l < 2 ==> {
            let w = #[trigger] standings.wild_cards@[l];
            &&& w.name@ == wild_card_label(l)
            &&& w.league@ == league_name(l)
            &&& w.teams@ == wild_card_table(records, l)
        }
}

/// Division `k`'s standings.
fn build_division(records: &Vec<TeamRecord>, k: usize) -> (d: DivisionStandings)
    requires
        k < 6,
    ensures
        d.name@ == division_label(k as int),
        d.league@ == division_league(k as int),
        d.teams@ == division_table(records@, k as int),
{
    let (league, division) = division_of(k);
    let (_, abbr) = league_of(k / 3);
    let members = division_members(records, k);
    let teams = ranked_table(&members, 0);
    let mut name = String::new();
    name.append(abbr);
    name.append(" ");
    name.append(division);
    assert(name@ =~= division_label(k as int));
    DivisionStandings { name, league: owned(league), teams }
}

fn push_leader(leaders: &mut Vec<u64>, d: &DivisionStandings)
    ensures
        final(leaders)@ == old(leaders)@ + if d.teams@.len() == 0 {
            Seq::<u64>::empty()
        } else {
            seq![d.teams@[0].team.id]
        },
{
    if d.teams.len() > 0 {
        leaders.push(d.teams[0].team.id);
    }
    proof {
        if d.teams@.len() == 0 {
            assert(final(leaders)@ =~= old(leaders)@ + Seq::<u64>::empty());
        } else {
            assert(final(leaders)@ =~= old(leaders)@ + seq![d.teams@[0].team.id]);
        }
    }
}

fn contains_id(ids: &Vec<u64>, id: u64) -> (r: bool)
    ensures
        r == ids@.contains(id),
{
    let mut i: usize = 0;
    while i < ids.len()
        invariant
            i <= ids.len(),
            forall|k: int| 0 <= k < i ==> ids@[k] != id,
        decreases ids.len() - i,
    {
        if ids[i] == id {
            assert(ids@[i as int] == id);
            return true;
        }
        i = i + 1;
    }
    false
}

/// League `l`'s wild card race, given the six division standings.
fn build_wild_card(records: &Vec<TeamRecord>, divisions: &Vec<DivisionStandings>, l: usize) -> (w: WildCardStandings)
    requires
        l < 2,
        divisions@.len() == 6,
        forall|k: int| 0 <= k < 6 ==> (#[trigger] divisions@[k]).teams@ == division_table(records@, k),
    ensures
        w.name@ == wild_card_label(l as int),
        w.league@ == league_name(l as int),
        w.teams@ == wild_card_table(records@, l as int),
{
    let (league, abbr) = league_of(l);
    let mut leaders: Vec<u64> = Vec::new();
    push_leader(&mut leaders, &divisions[3 * l]);
    push_leader(&mut leaders, &divisions[3 * l + 1]);
    push_leader(&mut leaders, &divisions[3 * l + 2]);
    assert(leaders@ =~= league_leader_ids(records@, l as int));
    let ghost pred = in_wild_card_race(leaders@, l as int);
    let mut pool: Vec<TeamRecord> = Vec::new();
    let mut i: usize = 0;
    while i < records.len()
        invariant
            l < 2,
            league@ == league_name(l as int),
            pred == in_wild_card_race(leaders@, l as int),
            i <= records.len(),
            pool@ == keep(records@.take(i as int), pred),
        decreases records.len() - i,
    {
        proof {
            assert(records@.take(i + 1).drop_last() =~= records@.take(i as int));
            assert(records@.take(i + 1).last() == records@[i as int]);
        }
        if crate::text::str_eq(records[i].team.league.as_str(), league)
            && !contains_id(&leaders, records[i].team.id) {
            pool.push(records[i].clone());
        }
        i = i + 1;
    }
    assert(records@.take(records.len() as int) =~= records@);
    let base = if pool.len() >= WILD_CARD_SPOTS { WILD_CARD_SPOTS - 1 } else { 0 };
    let teams = ranked_table(&pool, base);
    proof {
        assert(pred == in_wild_card_race(league_leader_ids(records@, l as int), l as int));
        lemma_rank_in_order(pool@);
    }
    let mut name = String::new();
    name.append(abbr);
    name.append(" Wild Card");
    assert(name@ =~= wild_card_label(l as int));
    WildCardStandings { name, league: owned(league), teams }
}

/// Computes the standings from the teams and games of a season.
///
/// Only completed games (status "STATUS_FINAL") with both scores recorded
/// and a winner count; games of teams not in `teams` are skipped for those
/// teams. Each division lists its teams ranked by record (winning
/// percentage, then wins) with games behind the leader; each league's wild
/// card race lists its teams other than division leaders, with games behind
/// the last wild card spot.
pub fn compute_standings(teams: &[Team], games: &[Game], season: u32) -> (standings: Standings)
    requires
        tallies_fit(teams@, games@),
    ensures
        standings_of(standings, teams@, games@, season),
{
    let records = tally_records(teams, games);
    let mut divisions: Vec<DivisionStandings> = Vec::new();
    let mut k: usize = 0;
    while k < 6
        invariant
            k <= 6,
            divisions@.len() == k,
            forall|m: int|
                0 <= m < k ==> {
                    let d = #[trigger] divisions@[m];
                    &&& d.name@ == division_label(m)
                    &&& d.league@ == division_league(m)
                    &&& d.teams@ == division_table(records@, m)
                },
        decreases 6 - k,
    {
        divisions.push(build_division(&records, k));
        k = k + 1;
    }
    let mut wild_cards: Vec<WildCardStandings> = Vec::new();
    wild_cards.push(build_wild_card(&records, &divisions, 0));
    wild_cards.push(build_wild_card(&records, &divisions, 1));
    Standings { divisions, wild_cards, season }
}

// ---------------------------------------------------------------------
// Laws of the standings
// ---------------------------------------------------------------------

/// `s` with every games-behind value cleared.
pub open spec fn unmeasured(s: Seq<TeamRecord>) -> Seq<TeamRecord> {
    Seq::new(s.len(), |i: int| with_gb(s[i], 0))
}

/// Every record of `s` has no games behind set.
pub open spec fn all_unmeasured(s: Seq<TeamRecord>) -> bool {
    forall|i: int| 0 <= i < s.len() ==> (#[trigger] s[i]).games_behind_halves == 0
}

proof fn lemma_keep_members(s: Seq<TeamRecord>, pred: spec_fn(TeamRecord) -> bool)
    ensures
        forall|x: TeamRecord|
            #![trigger keep(s, pred).contains(x)]
            #![trigger s.contains(x), pred(x)]
            keep(s, pred).contains(x) <==> s.contains(x) && pred(x),
    decreases s.len(),
{
    if s.len() > 0 {
        let t = s.drop_last();
        let k = keep(t, pred);
        let last = s.last();
        let ks = keep(s, pred);
        lemma_keep_members(t, pred);
        assert forall|x: TeamRecord| ks.contains(x) implies s.contains(x) && pred(x) by {
            if pred(last) && x == last {
                assert(s[s.len() - 1] == x);
            } else {
                if pred(last) {
                    let i = choose|i: int| 0 <= i < ks.len() && ks[i] == x;
                    assert(i < k.len());
                    assert(k[i] == x);
                }
                assert(k.contains(x));
                assert(t.contains(x) && pred(x));
                let j = choose|j: int| 0 <= j < t.len() && t[j] == x;
                assert(s[j] == x);
                assert(s.contains(x));
            }
        }
        assert forall|x: TeamRecord| s.contains(x) && pred(x) implies ks.contains(x) by {
            let i = choose|i: int| 0 <= i < s.len() && s[i] == x;
            if i == s.len() - 1 {
                assert(ks[ks.len() - 1] == x);
            } else {
                assert(t[i] == x);
                assert(t.contains(x));
                assert(k.contains(x));
                let j = choose|j: int| 0 <= j < k.len() && k[j] == x;
                if pred(last) {
                    assert(ks[j] == x);
                }
            }
        }
    }
}

proof fn lemma_ranked_members(s: Seq<TeamRecord>)
    ensures
        forall|x: TeamRecord| rank(s).contains(x) <==> s.contains(x),
        rank(s).len() == s.len(),
{
    broadcast use vstd::seq_lib::group_to_multiset_ensures;
    lemma_rank_in_order(s);
    assert forall|x: TeamRecord| rank(s).contains(x) <==> s.contains(x) by {
        assert(rank(s).to_multiset().count(x) == s.to_multiset().count(x));
    }
}

proof fn lemma_measure_then_clear(s: Seq<TeamRecord>, base: TeamRecord)
    requires
        all_unmeasured(s),
    ensures
        unmeasured(measured_from(s, base)) =~= s,
        ranked_order(s) ==> ranked_order(measured_from(s, base)),
{
    let m = measured_from(s, base);
    assert forall|i: int, j: int| 0 <= i < j < m.len() && ranked_order(s) implies !ranks_ahead(
        #[trigger] m[j],
        #[trigger] m[i],
    ) by {
        assert(!ranks_ahead(s[j], s[i]));
    }
}

proof fn lemma_season_records_unmeasured(teams: Seq<Team>, games: Seq<Game>)
    ensures
        all_unmeasured(season_records(teams, games)),
{
}

proof fn lemma_kept_ranked_unmeasured(s: Seq<TeamRecord>, pred: spec_fn(TeamRecord) -> bool)
    requires
        all_unmeasured(s),
    ensures
        all_unmeasured(rank(keep(s, pred))),
{
    lemma_keep_members(s, pred);
    lemma_ranked_members(keep(s, pred));
    let r = rank(keep(s, pred));
    assert forall|i: int| 0 <= i < r.len() implies (#[trigger] r[i]).games_behind_halves == 0 by {
        assert(r.contains(r[i]));
        assert(keep(s, pred).contains(r[i]));
        assert(s.contains(r[i]));
        let j = choose|j: int| 0 <= j < s.len() && s[j] == r[i];
        assert(s[j].games_behind_halves == 0);
    }
}

/// Each division table lists exactly the division's teams with their
/// records (a permutation of them, once games behind are cleared), ranked:
/// no team ranks ahead of a team listed above it, and the leader is 0 games
/// behind.
pub proof fn lemma_division_table(teams: Seq<Team>, games: Seq<Game>, k: int)
    ensures
        ({
            let records = season_records(teams, games);
            let table = division_table(records, k);
            &&& unmeasured(table).to_multiset() =~= keep(records, in_division(k)).to_multiset()
            &&& ranked_order(table)
            &&& table.len() > 0 ==> table[0].games_behind_halves == 0
        }),
{
    let records = season_records(teams, games);
    let members = keep(records, in_division(k));
    lemma_season_records_unmeasured(teams, games);
    lemma_kept_ranked_unmeasured(records, in_division(k));
    lemma_rank_in_order(members);
    let ranked = rank(members);
    if ranked.len() > 0 {
        lemma_measure_then_clear(ranked, ranked[0]);
    } else {
        assert(unmeasured(ranked) =~= ranked);
    }
}

/// A team is in its league's wild card race exactly when it is in that
/// league and does not lead a division; the race lists those teams with
/// their records (a permutation of them, once games behind are cleared),
/// ranked, with the last wild card spot (or the first team, when fewer
/// teams than spots compete) 0 games behind.
pub proof fn lemma_wild_card_table(teams: Seq<Team>, games: Seq<Game>, l: int)
    ensures
        ({
            let records = season_records(teams, games);
            let leaders = league_leader_ids(records, l);
            let table = wild_card_table(records, l);
            &&& unmeasured(table).to_multiset() =~= keep(records, in_wild_card_race(leaders, l)).to_multiset()
            &&& forall|r: TeamRecord| #[trigger] unmeasured(table).contains(r) <==> (records.contains(r)
                && r.team.league@ == league_name(l) && !leaders.contains(r.team.id))
            &&& ranked_order(table)
            &&& table.len() >= WILD_CARD_SPOTS ==> table[WILD_CARD_SPOTS - 1].games_behind_halves == 0
            &&& 0 < table.len() < WILD_CARD_SPOTS ==> table[0].games_behind_halves == 0
        }),
{
    broadcast use vstd::seq_lib::group_to_multiset_ensures;
    let records = season_records(teams, games);
    let leaders = league_leader_ids(records, l);
    let pred = in_wild_card_race(leaders, l);
    let members = keep(records, pred);
    lemma_season_records_unmeasured(teams, games);
    lemma_kept_ranked_unmeasured(records, pred);
    lemma_rank_in_order(members);
    lemma_keep_members(records, pred);
    let ranked = rank(members);
    if ranked.len() >= WILD_CARD_SPOTS {
        lemma_measure_then_clear(ranked, ranked[WILD_CARD_SPOTS - 1]);
    } else if ranked.len() > 0 {
        lemma_measure_then_clear(ranked, ranked[0]);
    } else {
        assert(unmeasured(ranked) =~= ranked);
    }
    let table = wild_card_table(records, l);
    assert forall|r: TeamRecord| #[trigger] unmeasured(table).contains(r) <==> (records.contains(r)
        && r.team.league@ == league_name(l) && !leaders.contains(r.team.id)) by {
        assert(unmeasured(table).to_multiset().count(r) == members.to_multiset().count(r));
        assert(unmeasured(table).contains(r) == members.contains(r));
        assert(members.contains(r) == (records.contains(r) && pred(r))) by {
            lemma_keep_members(records, pred);
        }
        assert(pred(r) == (r.team.league@ == league_name(l) && !leaders.contains(r.team.id)));
    }
}

/// A team is never behind itself.
pub proof fn lemma_games_behind_self(r: TeamRecord)
    ensures
        gb_halves(r, r) == 0,
{
}

proof fn lemma_tally_remove(games: Seq<Game>, p: int, id: u64)
    requires
        0 <= p < games.len(),
    ensures
        wins_in(games, id) == wins_in(games.remove(p), id) + win_count(games[p], id),
        losses_in(games, id) == losses_in(games.remove(p), id) + loss_count(games[p], id),
    decreases games.len(),
{
    if p == games.len() - 1 {
        assert(games.remove(p) =~= games.drop_last());
    } else {
        lemma_tally_remove(games.drop_last(), p, id);
        assert(games.drop_last().remove(p) =~= games.remove(p).drop_last());
        assert(games.remove(p).last() == games.last());
        assert(games.drop_last()[p] == games[p]);
    }
}

/// The tallies depend only on which games were played, not on the order in
/// which they are listed.
pub proof fn lemma_tally_order_free(a: Seq<Game>, b: Seq<Game>, id: u64)
    requires
        a.to_multiset() =~= b.to_multiset(),
    ensures
        wins_in(a, id) == wins_in(b, id),
        losses_in(a, id) == losses_in(b, id),
    decreases a.len(),
{
    broadcast use vstd::seq_lib::group_to_multiset_ensures;
    if a.len() == 0 {
        assert(a.to_multiset().len() == 0);
        assert(b.to_multiset().len() == b.len());
        assert(b =~= a);
    } else {
        let x = a.last();
        let a1 = a.drop_last();
        assert(a =~= a1.push(x));
        assert(b.to_multiset().count(x) > 0);
        assert(b.contains(x));
        let p = choose|p: int| 0 <= p < b.len() && b[p] == x;
        let b1 = b.remove(p);
        assert(b1.to_multiset() =~= a1.to_multiset());
        lemma_tally_order_free(a1, b1, id);
        lemma_tally_remove(b, p, id);
    }
}

/// The standings depend only on which games were played, not on the order
/// in which they are listed.
pub proof fn lemma_standings_order_free(teams: Seq<Team>, a: Seq<Game>, b: Seq<Game>)
    requires
        a.to_multiset() =~= b.to_multiset(),
    ensures
        season_records(teams, a) == season_records(teams, b),
        forall|k: int| division_table(season_records(teams, a), k) == division_table(season_records(teams, b), k),
        forall|l: int| wild_card_table(season_records(teams, a), l) == wild_card_table(season_records(teams, b), l),
{
    let ts = distinct_teams(teams);
    assert forall|i: int| 0 <= i < ts.len() implies tallied(ts[i], a) == tallied(ts[i], b) by {
        lemma_tally_order_free(a, b, ts[i].id);
    }
    assert(season_records(teams, a) =~= season_records(teams, b));
}

/// A game that decides nothing (not final, a score missing, or tied)
/// changes no tally and no table: the standings computed with it are
/// exactly those computed without it, and the tally bound holds with it
/// exactly when it holds without.
pub proof fn lemma_undecided_game_ignored(teams: Seq<Team>, games: Seq<Game>, g: Game, season: u32)
    requires
        decision(g) is None,
    ensures
        season_records(teams, games.push(g)) == season_records(teams, games),
        tallies_fit(teams, games.push(g)) == tallies_fit(teams, games),
        forall|s: Standings|
            standings_of(s, teams, games.push(g), season) == standings_of(s, teams, games, season),
{
    let more = games.push(g);
    assert(more.drop_last() =~= games);
    assert forall|id: u64| wins_in(more, id) == wins_in(games, id) && losses_in(more, id) == losses_in(games, id) by {}
    let ts = distinct_teams(teams);
    assert forall|i: int| 0 <= i < ts.len() implies tallied(ts[i], more) == tallied(ts[i], games) by {}
    assert(season_records(teams, more) =~= season_records(teams, games));
}


// ---------------------------------------------------------------------
// What the computed standings show
// ---------------------------------------------------------------------

/// `above` may be listed above `below`: `below` has no higher winning
/// percentage (wins over decided games, .000 without any), and with the
/// same percentage `above` has at least as many wins.
pub open spec fn may_stand_above(above: TeamRecord, below: TeamRecord) -> bool {
    let ta = above.wins + above.losses;
    let tb = below.wins + below.losses;
    &&& (ta > 0 && tb > 0 ==> below.wins * ta <= above.wins * tb)
    &&& (ta == 0 ==> below.wins == 0)
    &&& (ta > 0 && tb > 0 && below.wins * ta == above.wins * tb ==> below.wins <= above.wins)
}

/// Team `id` is listed in `table`.
pub open spec fn lists(table: Seq<TeamRecord>, id: u64) -> bool {
    exists|i: int| 0 <= i < table.len() && #[trigger] table[i].team.id == id
}

/// Team `id` heads the table of one of the divisions whose league is
/// `league`.
pub open spec fn leads_division_of(s: Standings, league: Seq<char>, id: u64) -> bool {
    exists|k: int|
        0 <= k < s.divisions@.len() && (#[trigger] s.divisions@[k]).league@ == league
            && s.divisions@[k].teams@.len() > 0 && s.divisions@[k].teams@[0].team.id == id
}

proof fn lemma_ranked_may_stand(t: Seq<TeamRecord>)
    requires
        ranked_order(t),
    ensures
        forall|i: int, j: int| 0 <= i < j < t.len() ==> #[trigger] may_stand_above(t[i], t[j]),
{
    assert forall|i: int, j: int| 0 <= i < j < t.len() implies #[trigger] may_stand_above(t[i], t[j]) by {
        assert(!ranks_ahead(t[j], t[i]));
        lemma_not_behind_may_stand(t[i], t[j]);
    }
}

proof fn lemma_not_behind_may_stand(a: TeamRecord, b: TeamRecord)
    requires
        !ranks_ahead(b, a),
    ensures
        may_stand_above(a, b),
{
    let ta = a.wins + a.losses;
    if ta == 0 {
        assert(a.wins == 0);
        assert(a.wins * pct_denom(b) == 0) by (nonlinear_arith)
            requires a.wins == 0;
        assert(pct_denom(a) == 1);
        assert(b.wins * pct_denom(a) == b.wins) by (nonlinear_arith)
            requires pct_denom(a) == 1;
    }
}

proof fn lemma_season_records_unique(teams: Seq<Team>, games: Seq<Game>)
    ensures
        unique_record_ids(season_records(teams, games)),
{
    lemma_distinct_teams_props(teams);
}

/// A record of `records` is listed by id in `table` exactly when it is
/// among the table's records with games behind cleared.
proof fn lemma_listed_iff(table: Seq<TeamRecord>, records: Seq<TeamRecord>, r: TeamRecord)
    requires
        unique_record_ids(records),
        records.contains(r),
        forall|u: TeamRecord| #[trigger] unmeasured(table).contains(u) ==> records.contains(u),
    ensures
        lists(table, r.team.id) <==> unmeasured(table).contains(r),
{
    let um = unmeasured(table);
    if um.contains(r) {
        let i = choose|i: int| 0 <= i < um.len() && um[i] == r;
        assert(table[i].team.id == r.team.id);
    }
    if lists(table, r.team.id) {
        let i = choose|i: int| 0 <= i < table.len() && #[trigger] table[i].team.id == r.team.id;
        let u = um[i];
        assert(um.contains(u));
        assert(records.contains(u));
        let p = choose|p: int| 0 <= p < records.len() && records[p] == u;
        let q = choose|q: int| 0 <= q < records.len() && records[q] == r;
        assert(records[p].team.id == records[q].team.id);
        assert(p == q);
    }
}

/// The leaders of league `l` are the heads of its three division tables.
proof fn lemma_league_leaders(records: Seq<TeamRecord>, l: int, id: u64)
    requires
        0 <= l < 2,
    ensures
        league_leader_ids(records, l).contains(id) <==> exists|k: int|
            3 * l <= k < 3 * l + 3 && #[trigger] division_table(records, k).len() > 0
                && division_table(records, k)[0].team.id == id,
{
    let a = leader_ids(records, 3 * l);
    let b = leader_ids(records, 3 * l + 1);
    let c = leader_ids(records, 3 * l + 2);
    let all = a + b + c;
    if all.contains(id) {
        let i = choose|i: int| 0 <= i < all.len() && all[i] == id;
        if i < a.len() {
            assert(a[i] == id);
            assert(division_table(records, 3 * l).len() > 0);
        } else if i < a.len() + b.len() {
            assert(b[i - a.len()] == id);
            assert(division_table(records, 3 * l + 1).len() > 0);
        } else {
            assert(c[i - a.len() - b.len()] == id);
            assert(division_table(records, 3 * l + 2).len() > 0);
        }
    }
    if exists|k: int|
        3 * l <= k < 3 * l + 3 && #[trigger] division_table(records, k).len() > 0
            && division_table(records, k)[0].team.id == id {
        let k = choose|k: int|
            3 * l <= k < 3 * l + 3 && #[trigger] division_table(records, k).len() > 0
                && division_table(records, k)[0].team.id == id;
        if k == 3 * l {
            assert(all[0] == id);
        } else if k == 3 * l + 1 {
            assert(all[a.len() as int] == id);
        } else {
            assert(all[(a.len() + b.len()) as int] == id);
        }
    }
}

/// In every division and wild card table of computed standings, no team is
/// listed below a team with a lower winning percentage (wins over decided
/// games, .000 without any), and among equal percentages the team with
/// more wins is listed first.
pub proof fn lemma_tables_in_record_order(s: Standings, teams: Seq<Team>, games: Seq<Game>, season: u32)
    requires
        standings_of(s, teams, games, season),
    ensures
        forall|k: int, i: int, j: int|
            0 <= k < 6 && 0 <= i < j < s.divisions@[k].teams@.len() ==> #[trigger] may_stand_above(
                s.divisions@[k].teams@[i],
                s.divisions@[k].teams@[j],
            ),
        forall|l: int, i: int, j: int|
            0 <= l < 2 && 0 <= i < j < s.wild_cards@[l].teams@.len() ==> #[trigger] may_stand_above(
                s.wild_cards@[l].teams@[i],
                s.wild_cards@[l].teams@[j],
            ),
{
    let records = season_records(teams, games);
    assert forall|k: int, i: int, j: int|
        0 <= k < 6 && 0 <= i < j < s.divisions@[k].teams@.len() implies #[trigger] may_stand_above(
            s.divisions@[k].teams@[i],
            s.divisions@[k].teams@[j],
        ) by {
        let d = s.divisions@[k];
        lemma_division_table(teams, games, k);
        lemma_ranked_may_stand(d.teams@);
    }
    assert forall|l: int, i: int, j: int|
        0 <= l < 2 && 0 <= i < j < s.wild_cards@[l].teams@.len() implies #[trigger] may_stand_above(
            s.wild_cards@[l].teams@[i],
            s.wild_cards@[l].teams@[j],
        ) by {
        let w = s.wild_cards@[l];
        lemma_wild_card_table(teams, games, l);
        lemma_ranked_may_stand(w.teams@);
    }
}

/// The first three divisions and the first wild card race of computed
/// standings are the "American" league's, the others the "National"
/// league's, and every team listed under a league plays in it.
pub proof fn lemma_standings_leagues(s: Standings, teams: Seq<Team>, games: Seq<Game>, season: u32)
    requires
        standings_of(s, teams, games, season),
    ensures
        forall|k: int| 0 <= k < 3 ==> (#[trigger] s.divisions@[k]).league@ == "American"@,
        forall|k: int| 3 <= k < 6 ==> (#[trigger] s.divisions@[k]).league@ == "National"@,
        s.wild_cards@[0].league@ == "American"@,
        s.wild_cards@[1].league@ == "National"@,
        forall|k: int, i: int|
            0 <= k < 6 && 0 <= i < s.divisions@[k].teams@.len() ==> (
            #[trigger] s.divisions@[k].teams@[i]).team.league@ == s.divisions@[k].league@,
        forall|l: int, i: int|
            0 <= l < 2 && 0 <= i < s.wild_cards@[l].teams@.len() ==> (
            #[trigger] s.wild_cards@[l].teams@[i]).team.league@ == s.wild_cards@[l].league@,
{
    broadcast use vstd::seq_lib::group_to_multiset_ensures;
    let records = season_records(teams, games);
    assert(s.wild_cards@[0].league@ == league_name(0));
    assert(s.wild_cards@[1].league@ == league_name(1));
    assert forall|k: int, i: int|
        0 <= k < 6 && 0 <= i < s.divisions@[k].teams@.len() implies (
        #[trigger] s.divisions@[k].teams@[i]).team.league@ == s.divisions@[k].league@ by {
        let t = s.divisions@[k].teams@;
        lemma_division_table(teams, games, k);
        lemma_keep_members(records, in_division(k));
        let u = unmeasured(t)[i];
        assert(unmeasured(t).to_multiset().count(u) > 0);
        assert(keep(records, in_division(k)).contains(u));
    }
    assert forall|l: int, i: int|
        0 <= l < 2 && 0 <= i < s.wild_cards@[l].teams@.len() implies (
        #[trigger] s.wild_cards@[l].teams@[i]).team.league@ == s.wild_cards@[l].league@ by {
        let t = s.wild_cards@[l].teams@;
        lemma_wild_card_table(teams, games, l);
        let u = unmeasured(t)[i];
        assert(unmeasured(t).contains(u));
    }
}

/// A team is in a league's wild card race of computed standings exactly
/// when it plays in that league and heads none of the league's own
/// division tables (those whose league is the race's); no other team is
/// listed.
pub proof fn lemma_wild_card_members(s: Standings, teams: Seq<Team>, games: Seq<Game>, season: u32)
    requires
        standings_of(s, teams, games, season),
    ensures
        forall|l: int, r: TeamRecord|
            #![trigger season_records(teams, games).contains(r), s.wild_cards@[l]]
            0 <= l < 2 && season_records(teams, games).contains(r) ==> (lists(
                s.wild_cards@[l].teams@,
                r.team.id,
            ) <==> (r.team.league@ == s.wild_cards@[l].league@ && !leads_division_of(
                s,
                s.wild_cards@[l].league@,
                r.team.id,
            ))),
        forall|l: int, i: int|
            0 <= l < 2 && 0 <= i < s.wild_cards@[l].teams@.len() ==> lists(
                season_records(teams, games),
                (#[trigger] s.wild_cards@[l].teams@[i]).team.id,
            ),
{
    let records = season_records(teams, games);
    lemma_season_records_unique(teams, games);
    reveal_strlit("American");
    reveal_strlit("National");
    assert(league_name(0) != league_name(1)) by {
        assert(league_name(0)[0] != league_name(1)[0]);
    }
    assert forall|l: int, r: TeamRecord|
        #![trigger season_records(teams, games).contains(r), s.wild_cards@[l]]
        0 <= l < 2 && season_records(teams, games).contains(r) implies (lists(
            s.wild_cards@[l].teams@,
            r.team.id,
        ) <==> (r.team.league@ == s.wild_cards@[l].league@ && !leads_division_of(
            s,
            s.wild_cards@[l].league@,
            r.team.id,
        ))) by {
        let w = s.wild_cards@[l];
        let table = w.teams@;
        let leaders = league_leader_ids(records, l);
        lemma_wild_card_table(teams, games, l);
        lemma_listed_iff(table, records, r);
        lemma_league_leaders(records, l, r.team.id);
        if leaders.contains(r.team.id) {
            let k = choose|k: int|
                3 * l <= k < 3 * l + 3 && #[trigger] division_table(records, k).len() > 0
                    && division_table(records, k)[0].team.id == r.team.id;
            assert(s.divisions@[k].league@ == division_league(k));
            assert(k / 3 == l);
            assert(leads_division_of(s, w.league@, r.team.id));
        }
        if leads_division_of(s, w.league@, r.team.id) {
            let k = choose|k: int|
                0 <= k < s.divisions@.len() && (#[trigger] s.divisions@[k]).league@ == w.league@
                    && s.divisions@[k].teams@.len() > 0 && s.divisions@[k].teams@[0].team.id == r.team.id;
            assert(s.divisions@[k].league@ == league_name(k / 3));
            assert(k / 3 == l);
            assert(division_table(records, k).len() > 0);
        }
    }
    assert forall|l: int, i: int|
        0 <= l < 2 && 0 <= i < s.wild_cards@[l].teams@.len() implies lists(
            season_records(teams, games),
            (#[trigger] s.wild_cards@[l].teams@[i]).team.id,
        ) by {
        let t = s.wild_cards@[l].teams@;
        lemma_wild_card_table(teams, games, l);
        let u = unmeasured(t)[i];
        assert(unmeasured(t).contains(u));
        let p = choose|p: int| 0 <= p < records.len() && records[p] == u;
        assert(records[p].team.id == t[i].team.id);
    }
}

/// The division part of a division's name, by its place in the standings:
/// East, Central, West, in each league.
pub open spec fn division_part(k: int) -> Seq<char> {
    if k == 0 || k == 3 {
        "East"@
    } else if k == 1 || k == 4 {
        "Central"@
    } else {
        "West"@
    }
}

/// A team is listed in a division table of computed standings exactly when
/// it plays in that division's league and division; the tables are named
/// "AL East" through "NL West" and the races "AL Wild Card" and
/// "NL Wild Card".
pub proof fn lemma_division_members(s: Standings, teams: Seq<Team>, games: Seq<Game>, season: u32)
    requires
        standings_of(s, teams, games, season),
    ensures
        forall|k: int, r: TeamRecord|
            #![trigger season_records(teams, games).contains(r), s.divisions@[k]]
            0 <= k < 6 && season_records(teams, games).contains(r) ==> (lists(
                s.divisions@[k].teams@,
                r.team.id,
            ) <==> (r.team.league@ == s.divisions@[k].league@ && r.team.division@ == division_part(k))),
        s.divisions@[0].name@ == "AL East"@,
        s.divisions@[1].name@ == "AL Central"@,
        s.divisions@[2].name@ == "AL West"@,
        s.divisions@[3].name@ == "NL East"@,
        s.divisions@[4].name@ == "NL Central"@,
        s.divisions@[5].name@ == "NL West"@,
        s.wild_cards@[0].name@ == "AL Wild Card"@,
        s.wild_cards@[1].name@ == "NL Wild Card"@,
{
    broadcast use vstd::seq_lib::group_to_multiset_ensures;
    let records = season_records(teams, games);
    lemma_season_records_unique(teams, games);
    assert forall|k: int, r: TeamRecord|
        #![trigger season_records(teams, games).contains(r), s.divisions@[k]]
        0 <= k < 6 && season_records(teams, games).contains(r) implies (lists(
            s.divisions@[k].teams@,
            r.team.id,
        ) <==> (r.team.league@ == s.divisions@[k].league@ && r.team.division@ == division_part(k))) by {
        let t = s.divisions@[k].teams@;
        let kept = keep(records, in_division(k));
        lemma_division_table(teams, games, k);
        lemma_keep_members(records, in_division(k));
        assert forall|u: TeamRecord| #[trigger] unmeasured(t).contains(u) implies records.contains(u) by {
            assert(unmeasured(t).to_multiset().count(u) > 0);
            assert(kept.contains(u));
        }
        lemma_listed_iff(t, records, r);
        assert(unmeasured(t).contains(r) <==> kept.contains(r)) by {
            assert(unmeasured(t).to_multiset().count(r) == kept.to_multiset().count(r));
        }
        assert(division_short(k) == division_part(k));
    }
    reveal_strlit("AL");
    reveal_strlit("NL");
    reveal_strlit(" ");
    reveal_strlit("East");
    reveal_strlit("Central");
    reveal_strlit("West");
    reveal_strlit(" Wild Card");
    reveal_strlit("AL East");
    reveal_strlit("AL Central");
    reveal_strlit("AL West");
    reveal_strlit("NL East");
    reveal_strlit("NL Central");
    reveal_strlit("NL West");
    reveal_strlit("AL Wild Card");
    reveal_strlit("NL Wild Card");
    assert(division_label(0) =~= "AL East"@);
    assert(division_label(1) =~= "AL Central"@);
    assert(division_label(2) =~= "AL West"@);
    assert(division_label(3) =~= "NL East"@);
    assert(division_label(4) =~= "NL Central"@);
    assert(division_label(5) =~= "NL West"@);
    assert(wild_card_label(0) =~= "AL Wild Card"@);
    assert(wild_card_label(1) =~= "NL Wild Card"@);
    assert(s.divisions@[0].name@ == division_label(0));
    assert(s.divisions@[1].name@ == division_label(1));
    assert(s.divisions@[2].name@ == division_label(2));
    assert(s.divisions@[3].name@ == division_label(3));
    assert(s.divisions@[4].name@ == division_label(4));
    assert(s.divisions@[5].name@ == division_label(5));
    assert(s.wild_cards@[0].name@ == wild_card_label(0));
    assert(s.wild_cards@[1].name@ == wild_card_label(1));
}

/// Games behind in half games of `team` relative to `base`, written out:
/// the difference in wins plus the difference in losses.
pub open spec fn half_games_behind(base: TeamRecord, team: TeamRecord) -> int {
    (base.wins as int - team.wins as int) + (team.losses as int - base.losses as int)
}

/// In computed standings every division team's games behind (in half
/// games) are measured from the division's first team, and every wild card
/// team's from the third team of the race (its last spot) when three or
/// more compete, else from the first.
pub proof fn lemma_games_behind_columns(s: Standings, teams: Seq<Team>, games: Seq<Game>, season: u32)
    requires
        standings_of(s, teams, games, season),
    ensures
        forall|k: int, i: int|
            0 <= k < 6 && 0 <= i < s.divisions@[k].teams@.len() ==> (#[trigger] s.divisions@[k].teams@[i]).games_behind_halves
                == half_games_behind(s.divisions@[k].teams@[0], s.divisions@[k].teams@[i]),
        forall|l: int, i: int|
            #![trigger s.wild_cards@[l].teams@[i]]
            0 <= l < 2 && 0 <= i < s.wild_cards@[l].teams@.len() ==> {
                let t = s.wild_cards@[l].teams@;
                let base = if t.len() >= 3 { t[2] } else { t[0] };
                t[i].games_behind_halves == half_games_behind(base, t[i])
            },
{
    let records = season_records(teams, games);
    assert forall|k: int, i: int|
        0 <= k < 6 && 0 <= i < s.divisions@[k].teams@.len() implies (#[trigger] s.divisions@[k].teams@[i]).games_behind_halves
            == half_games_behind(s.divisions@[k].teams@[0], s.divisions@[k].teams@[i]) by {
        assert(s.divisions@[k].teams@ == division_table(records, k));
    }
    assert forall|l: int, i: int|
        #![trigger s.wild_cards@[l].teams@[i]]
        0 <= l < 2 && 0 <= i < s.wild_cards@[l].teams@.len() implies {
            let t = s.wild_cards@[l].teams@;
            let base = if t.len() >= 3 { t[2] } else { t[0] };
            t[i].games_behind_halves == half_games_behind(base, t[i])
        } by {
        assert(s.wild_cards@[l].teams@ == wild_card_table(records, l));
    }
}

/// Total wins over a list of records.
pub open spec fn total_wins(s: Seq<TeamRecord>) -> int
    decreases s.len(),
{
    if s.len() == 0 { 0 } else { total_wins(s.drop_last()) + s.last().wins }
}

/// Total losses over a list of records.
pub open spec fn total_losses(s: Seq<TeamRecord>) -> int
    decreases s.len(),
{
    if s.len() == 0 { 0 } else { total_losses(s.drop_last()) + s.last().losses }
}

/// Every decided game is between two listed teams.
pub open spec fn decided_games_listed(teams: Seq<Team>, games: Seq<Game>) -> bool {
    forall|j: int|
        0 <= j < games.len() ==> (#[trigger] decision(games[j]) matches Some((w, l)) ==> has_team(teams, w)
            && has_team(teams, l))
}

spec fn wins_over(ts: Seq<Team>, games: Seq<Game>) -> int
    decreases ts.len(),
{
    if ts.len() == 0 { 0 } else { wins_over(ts.drop_last(), games) + wins_in(games, ts.last().id) }
}

spec fn losses_over(ts: Seq<Team>, games: Seq<Game>) -> int
    decreases ts.len(),
{
    if ts.len() == 0 { 0 } else { losses_over(ts.drop_last(), games) + losses_in(games, ts.last().id) }
}

proof fn lemma_over_push(ts: Seq<Team>, games: Seq<Game>, g: Game)
    requires
        unique_team_ids(ts),
    ensures
        wins_over(ts, games.push(g)) == wins_over(ts, games) + if decision(g) matches Some((w, _)) && has_team(ts, w) { 1int } else { 0int },
        losses_over(ts, games.push(g)) == losses_over(ts, games) + if decision(g) matches Some((_, l)) && has_team(ts, l) { 1int } else { 0int },
    decreases ts.len(),
{
    assert(games.push(g).drop_last() =~= games);
    if ts.len() > 0 {
        let rest = ts.drop_last();
        assert(unique_team_ids(rest));
        lemma_over_push(rest, games, g);
        let x = ts.last();
        if let Some((w, l)) = decision(g) {
            assert(has_team(ts, w) == (has_team(rest, w) || x.id == w)) by {
                if has_team(ts, w) {
                    let i = choose|i: int| 0 <= i < ts.len() && ts[i].id == w;
                    if i < rest.len() {
                        assert(rest[i].id == w);
                    }
                }
                if has_team(rest, w) {
                    let i = choose|i: int| 0 <= i < rest.len() && rest[i].id == w;
                    assert(ts[i].id == w);
                }
                if x.id == w {
                    assert(ts[ts.len() - 1].id == w);
                }
            }
            assert(has_team(ts, l) == (has_team(rest, l) || x.id == l)) by {
                if has_team(ts, l) {
                    let i = choose|i: int| 0 <= i < ts.len() && ts[i].id == l;
                    if i < rest.len() {
                        assert(rest[i].id == l);
                    }
                }
                if has_team(rest, l) {
                    let i = choose|i: int| 0 <= i < rest.len() && rest[i].id == l;
                    assert(ts[i].id == l);
                }
                if x.id == l {
                    assert(ts[ts.len() - 1].id == l);
                }
            }
            if x.id == w {
                assert(!has_team(rest, w)) by {
                    if has_team(rest, w) {
                        let i = choose|i: int| 0 <= i < rest.len() && rest[i].id == w;
                        assert(ts[i].id == ts[ts.len() - 1].id);
                    }
                }
            }
            if x.id == l {
                assert(!has_team(rest, l)) by {
                    if has_team(rest, l) {
                        let i = choose|i: int| 0 <= i < rest.len() && rest[i].id == l;
                        assert(ts[i].id == ts[ts.len() - 1].id);
                    }
                }
            }
        }
    }
}

proof fn lemma_over_balanced(ts: Seq<Team>, games: Seq<Game>)
    requires
        unique_team_ids(ts),
        forall|j: int|
            0 <= j < games.len() ==> (#[trigger] decision(games[j]) matches Some((w, l)) ==> has_team(ts, w)
                && has_team(ts, l)),
    ensures
        wins_over(ts, games) == losses_over(ts, games),
    decreases games.len(),
{
    if games.len() == 0 {
        lemma_over_empty(ts, games);
    } else {
        let rest = games.drop_last();
        let g = games.last();
        assert forall|j: int|
            0 <= j < rest.len() implies (#[trigger] decision(rest[j]) matches Some((w, l)) ==> has_team(ts, w)
                && has_team(ts, l)) by {
            assert(rest[j] == games[j]);
        }
        lemma_over_balanced(ts, rest);
        assert(games =~= rest.push(g));
        assert(decision(games[games.len() - 1]) == decision(g));
        lemma_over_push(ts, rest, g);
    }
}

proof fn lemma_over_empty(ts: Seq<Team>, games: Seq<Game>)
    requires
        games.len() == 0,
    ensures
        wins_over(ts, games) == 0,
        losses_over(ts, games) == 0,
    decreases ts.len(),
{
    if ts.len() > 0 {
        lemma_over_empty(ts.drop_last(), games);
    }
}

proof fn lemma_totals_are_over(teams: Seq<Team>, games: Seq<Game>, n: int)
    requires
        tallies_fit(teams, games),
        0 <= n <= distinct_teams(teams).len(),
        forall|k: int| 0 <= k < distinct_teams(teams).len() ==> exists|q: int| 0 <= q < teams.len() && #[trigger] distinct_teams(teams)[k] == teams[q],
    ensures
        total_wins(season_records(teams, games).take(n)) == wins_over(distinct_teams(teams).take(n), games),
        total_losses(season_records(teams, games).take(n)) == losses_over(distinct_teams(teams).take(n), games),
    decreases n,
{
    let ts = distinct_teams(teams);
    let recs = season_records(teams, games);
    if n > 0 {
        lemma_totals_are_over(teams, games, n - 1);
        assert(recs.take(n).drop_last() =~= recs.take(n - 1));
        assert(ts.take(n).drop_last() =~= ts.take(n - 1));
        let q = choose|q: int| 0 <= q < teams.len() && ts[n - 1] == teams[q];
        assert(ts[n - 1].id == teams[q].id);
    }
}

proof fn lemma_upsert_team(s: Seq<Team>, t: Team)
    requires
        unique_team_ids(s),
    ensures
        unique_team_ids(upsert_team(s, t)),
        forall|id: u64| has_team(upsert_team(s, t), id) <==> (has_team(s, id) || id == t.id),
        forall|k: int| 0 <= k < upsert_team(s, t).len() ==> (#[trigger] upsert_team(s, t)[k] == t || s.contains(upsert_team(s, t)[k])),
{
    let u = upsert_team(s, t);
    if has_team(s, t.id) {
        let c = choose|i: int| 0 <= i < s.len() && s[i].id == t.id;
        assert forall|id: u64| has_team(u, id) <==> (has_team(s, id) || id == t.id) by {
            if has_team(s, id) {
                let i = choose|i: int| 0 <= i < s.len() && s[i].id == id;
                if i == c {
                    assert(u[c].id == id);
                } else {
                    assert(u[i].id == id);
                }
            }
            if id == t.id {
                assert(u[c].id == id);
            }
            if has_team(u, id) {
                let i = choose|i: int| 0 <= i < u.len() && u[i].id == id;
                if i != c {
                    assert(s[i].id == id);
                }
            }
        }
        assert forall|k: int| 0 <= k < u.len() implies (#[trigger] u[k] == t || s.contains(u[k])) by {
            if k != c {
                assert(s[k] == u[k]);
            }
        }
    } else {
        assert forall|id: u64| has_team(u, id) <==> (has_team(s, id) || id == t.id) by {
            if has_team(s, id) {
                let i = choose|i: int| 0 <= i < s.len() && s[i].id == id;
                assert(u[i].id == id);
            }
            if id == t.id {
                assert(u[s.len() as int].id == id);
            }
            if has_team(u, id) {
                let i = choose|i: int| 0 <= i < u.len() && u[i].id == id;
                if i < s.len() {
                    assert(s[i].id == id);
                }
            }
        }
        assert forall|k: int| 0 <= k < u.len() implies (#[trigger] u[k] == t || s.contains(u[k])) by {
            if k < s.len() {
                assert(s[k] == u[k]);
            }
        }
    }
}

proof fn lemma_distinct_teams_props(teams: Seq<Team>)
    ensures
        unique_team_ids(distinct_teams(teams)),
        forall|id: u64| has_team(distinct_teams(teams), id) <==> has_team(teams, id),
        forall|k: int| 0 <= k < distinct_teams(teams).len() ==> exists|q: int| 0 <= q < teams.len() && #[trigger] distinct_teams(teams)[k] == teams[q],
    decreases teams.len(),
{
    if teams.len() > 0 {
        let rest = teams.drop_last();
        let t = teams.last();
        lemma_distinct_teams_props(rest);
        let d = distinct_teams(rest);
        lemma_upsert_team(d, t);
        let u = distinct_teams(teams);
        assert forall|id: u64| has_team(u, id) <==> has_team(teams, id) by {
            if has_team(rest, id) {
                let i = choose|i: int| 0 <= i < rest.len() && rest[i].id == id;
                assert(teams[i].id == id);
            }
            if id == t.id {
                assert(teams[teams.len() - 1].id == id);
            }
            if has_team(teams, id) {
                let i = choose|i: int| 0 <= i < teams.len() && teams[i].id == id;
                if i < rest.len() {
                    assert(rest[i].id == id);
                }
            }
        }
        assert forall|k: int| 0 <= k < u.len() implies exists|q: int| 0 <= q < teams.len() && #[trigger] u[k] == teams[q] by {
            if u[k] == t {
                assert(u[k] == teams[teams.len() - 1]);
            } else {
                assert(d.contains(u[k]));
                let i = choose|i: int| 0 <= i < d.len() && d[i] == u[k];
                let q = choose|q: int| 0 <= q < rest.len() && d[i] == rest[q];
                assert(u[k] == teams[q]);
            }
        }
    }
}

/// Every decided game credits one win and one loss: when every decided game
/// is between two listed teams, the season's total wins equal its total
/// losses.
pub proof fn lemma_wins_balance_losses(teams: Seq<Team>, games: Seq<Game>)
    requires
        tallies_fit(teams, games),
        decided_games_listed(teams, games),
    ensures
        total_wins(season_records(teams, games)) == total_losses(season_records(teams, games)),
{
    let ts = distinct_teams(teams);
    let recs = season_records(teams, games);
    lemma_distinct_teams_props(teams);
    lemma_totals_are_over(teams, games, ts.len() as int);
    assert(recs.take(ts.len() as int) =~= recs);
    assert(ts.take(ts.len() as int) =~= ts);
    assert forall|j: int|
        0 <= j < games.len() implies (#[trigger] decision(games[j]) matches Some((w, l)) ==> has_team(ts, w)
            && has_team(ts, l)) by {
        if let Some((w, l)) = decision(games[j]) {
            assert(has_team(teams, w) && has_team(teams, l));
        }
    }
    lemma_over_balanced(ts, games);
}

} // verus!
