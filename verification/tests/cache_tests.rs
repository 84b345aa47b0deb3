use mlb_standings_bot::cache::{
    incremental_start, CacheState, CacheStep, GamesFetch, Request, CACHE_TTL_SECS,
};
use mlb_standings_bot::models::{Game, Team, TeamGameData};

fn mock_team(id: u64, name: &str, abbr: &str, league: &str, division: &str) -> Team {
    Team {
        id,
        slug: None,
        abbreviation: abbr.to_string(),
        display_name: Some(format!("Test {name}")),
        short_display_name: Some(name.to_string()),
        name: name.to_string(),
        location: Some("Test City".to_string()),
        league: league.to_string(),
        division: division.to_string(),
    }
}

fn game(id: u64, home: &Team, away: &Team, runs: Option<(u32, u32)>, date: &str, status: &str) -> Game {
    Game {
        id,
        date: date.to_string(),
        season: 2025,
        status: status.to_string(),
        season_type: Some("regular".to_string()),
        home_team: home.clone(),
        away_team: away.clone(),
        home_team_data: runs.map(|(h, _)| TeamGameData { runs: Some(h), hits: Some(10), errors: Some(0) }),
        away_team_data: runs.map(|(_, a)| TeamGameData { runs: Some(a), hits: Some(8), errors: Some(1) }),
    }
}

fn final_game(id: u64, home: &Team, away: &Team, h: u32, a: u32, date: &str) -> Game {
    game(id, home, away, Some((h, a)), date, "STATUS_FINAL")
}

/// A full refresh as the cache runs one: plan, merge, recompute.
fn refresh(cache: &mut CacheState, season: u32, teams: Vec<Team>, games: Vec<Game>) -> mlb_standings_bot::compute::Standings {
    let plan = cache.plan_refresh(season).unwrap();
    let teams = if plan.fetch_teams { teams } else { cache.teams.clone() };
    cache.merge_refresh(season, teams, games);
    cache.recompute()
}

#[test]
fn new_cache_is_empty() {
    let cache = CacheState::new(2025);
    let stats = cache.stats(None);
    assert_eq!(stats.team_count, 0);
    assert_eq!(stats.game_count, 0);
    assert!(stats.age_secs.is_none());
    assert!(stats.latest_game_date.is_none());
    assert_eq!(stats.season, 2025);
}

#[test]
fn new_cache_uses_season_override() {
    let cache = CacheState::new(2020);
    assert_eq!(cache.stats(None).season, 2020);
}

#[test]
fn refresh_fetches_teams_and_games() {
    let yankees = mock_team(1, "Yankees", "NYY", "American", "East");
    let dodgers = mock_team(2, "Dodgers", "LAD", "National", "West");
    let mut cache = CacheState::new(2025);

    let plan = cache.plan_refresh(2025).unwrap();
    assert!(plan.fetch_teams);
    assert!(matches!(plan.games, GamesFetch::FullSeason));

    let g = final_game(100, &yankees, &dodgers, 5, 3, "2025-06-15");
    let standings = refresh(&mut cache, 2025, vec![yankees.clone(), dodgers.clone()], vec![g]);

    let al_east = standings.divisions.iter().find(|d| d.name == "AL East").unwrap();
    assert_eq!(al_east.teams.len(), 1);
    assert_eq!(al_east.teams[0].team.abbreviation, "NYY");
    assert_eq!(al_east.teams[0].wins, 1);
    let nl_west = standings.divisions.iter().find(|d| d.name == "NL West").unwrap();
    assert_eq!(nl_west.teams.len(), 1);
    assert_eq!(nl_west.teams[0].team.abbreviation, "LAD");
    assert_eq!(nl_west.teams[0].losses, 1);

    let stats = cache.stats(Some(0));
    assert_eq!(stats.team_count, 2);
    assert_eq!(stats.game_count, 1);
    assert_eq!(stats.latest_game_date, Some("2025-06-15".to_string()));
}

#[test]
fn get_standings_returns_cached_when_fresh() {
    let yankees = mock_team(1, "Yankees", "NYY", "American", "East");
    let mut cache = CacheState::new(2025);
    assert!(cache.fresh_standings(None).is_none());
    refresh(&mut cache, 2025, vec![yankees], vec![]);
    assert!(cache.fresh_standings(Some(0)).is_some());
    assert!(cache.fresh_standings(Some(CACHE_TTL_SECS - 1)).is_some());
    assert!(cache.fresh_standings(Some(CACHE_TTL_SECS)).is_none());
    assert!(cache.fresh_standings(None).is_none());
}

#[test]
fn refresh_upserts_games_by_id() {
    let yankees = mock_team(1, "Yankees", "NYY", "American", "East");
    let redsox = mock_team(2, "Red Sox", "BOS", "American", "East");
    let mut cache = CacheState::new(2025);

    let v1 = game(100, &yankees, &redsox, Some((3, 2)), "2025-06-15", "In Progress");
    let standings = refresh(&mut cache, 2025, vec![yankees.clone(), redsox.clone()], vec![v1]);
    let nyy = &standings.divisions[0].teams.iter().find(|r| r.team.abbreviation == "NYY").unwrap();
    assert_eq!(nyy.wins, 0);
    assert_eq!(nyy.losses, 0);
    assert_eq!(cache.stats(None).game_count, 1);

    let v2 = final_game(100, &yankees, &redsox, 5, 3, "2025-06-15");
    let standings = refresh(&mut cache, 2025, vec![], vec![v2]);
    let nyy = &standings.divisions[0].teams.iter().find(|r| r.team.abbreviation == "NYY").unwrap();
    assert_eq!(nyy.wins, 1);
    assert_eq!(nyy.losses, 0);
    assert_eq!(cache.stats(None).game_count, 1);
}

#[test]
fn refresh_tracks_latest_game_date() {
    let yankees = mock_team(1, "Yankees", "NYY", "American", "East");
    let redsox = mock_team(2, "Red Sox", "BOS", "American", "East");
    let mut cache = CacheState::new(2025);
    let games = vec![
        final_game(100, &yankees, &redsox, 5, 3, "2025-06-01"),
        final_game(101, &yankees, &redsox, 4, 2, "2025-08-15"),
        final_game(102, &yankees, &redsox, 7, 1, "2025-07-10"),
    ];
    refresh(&mut cache, 2025, vec![yankees, redsox], games);
    assert_eq!(
        cache.stats(None).latest_game_date,
        Some("2025-08-15".to_string()),
        "Should track the latest date across all games"
    );
}

#[test]
fn incremental_refresh_offsets_start_date() {
    let yankees = mock_team(1, "Yankees", "NYY", "American", "East");
    let redsox = mock_team(2, "Red Sox", "BOS", "American", "East");
    let mut cache = CacheState::new(2025);
    let g = final_game(100, &yankees, &redsox, 5, 3, "2025-06-15");
    refresh(&mut cache, 2025, vec![yankees, redsox], vec![g]);
    assert_eq!(cache.stats(None).latest_game_date, Some("2025-06-15".to_string()));

    let plan = cache.plan_refresh(2025).unwrap();
    assert!(!plan.fetch_teams);
    match plan.games {
        GamesFetch::Since(start) => assert_eq!(start, "2025-06-16"),
        GamesFetch::FullSeason => panic!("expected an incremental fetch"),
    }
}

#[test]
fn scheduled_games_do_not_advance_latest_game_date() {
    let yankees = mock_team(1, "Yankees", "NYY", "American", "East");
    let redsox = mock_team(2, "Red Sox", "BOS", "American", "East");
    let mut cache = CacheState::new(2025);
    let games = vec![
        final_game(100, &yankees, &redsox, 5, 3, "2025-06-15"),
        game(200, &yankees, &redsox, None, "2025-09-20", "Scheduled"),
    ];
    refresh(&mut cache, 2025, vec![yankees, redsox], games);
    let stats = cache.stats(None);
    assert_eq!(
        stats.latest_game_date,
        Some("2025-06-15".to_string()),
        "Scheduled games must not advance latest_game_date"
    );
    assert_eq!(stats.game_count, 2);
}

#[test]
fn stats_reports_age_after_refresh() {
    let yankees = mock_team(1, "Yankees", "NYY", "American", "East");
    let mut cache = CacheState::new(2025);
    refresh(&mut cache, 2025, vec![yankees], vec![]);
    let stats = cache.stats(Some(0));
    assert!(stats.age_secs.is_some());
    assert!(stats.age_secs.unwrap() < 5, "Cache should be very fresh");
}

#[test]
fn season_change_starts_over() {
    let yankees = mock_team(1, "Yankees", "NYY", "American", "East");
    let redsox = mock_team(2, "Red Sox", "BOS", "American", "East");
    let mut cache = CacheState::new(2024);
    refresh(&mut cache, 2024, vec![yankees.clone(), redsox.clone()], vec![final_game(1, &yankees, &redsox, 2, 1, "2024-09-01")]);
    let plan = cache.plan_refresh(2025).unwrap();
    assert!(plan.season_changed);
    assert!(plan.fetch_teams);
    assert!(matches!(plan.games, GamesFetch::FullSeason));
    let standings = refresh(&mut cache, 2025, vec![yankees.clone(), redsox.clone()], vec![]);
    assert_eq!(standings.season, 2025);
    let stats = cache.stats(None);
    assert_eq!(stats.season, 2025);
    assert_eq!(stats.game_count, 0);
    assert_eq!(stats.latest_game_date, None);
}

#[test]
fn incremental_start_is_the_next_day() {
    assert_eq!(incremental_start("2025-06-15"), Some("2025-06-16".to_string()));
    assert_eq!(incremental_start("2025-12-31"), Some("2026-01-01".to_string()));
    assert_eq!(incremental_start("2024-02-28"), Some("2024-02-29".to_string()));
    // A date chrono cannot read is used as it is.
    assert_eq!(incremental_start("not a date"), Some("not a date".to_string()));
}

#[test]
fn later_refresh_keeps_latest_date_when_no_newer_games() {
    let yankees = mock_team(1, "Yankees", "NYY", "American", "East");
    let redsox = mock_team(2, "Red Sox", "BOS", "American", "East");
    let mut cache = CacheState::new(2025);
    refresh(&mut cache, 2025, vec![yankees.clone(), redsox.clone()], vec![final_game(1, &yankees, &redsox, 2, 1, "2025-07-01")]);
    refresh(&mut cache, 2025, vec![], vec![final_game(2, &yankees, &redsox, 2, 1, "2025-06-01")]);
    let stats = cache.stats(None);
    assert_eq!(stats.latest_game_date, Some("2025-07-01".to_string()));
    assert_eq!(stats.game_count, 2);
}

#[test]
fn serve_answers_reads_from_fresh_cache_only() {
    let yankees = mock_team(1, "Yankees", "NYY", "American", "East");
    let dodgers = mock_team(2, "Dodgers", "LAD", "National", "West");
    let mut cache = CacheState::new(2025);
    // Never populated: a read refreshes, with a full fetch.
    match cache.serve(Request::Get, None, 2025) {
        CacheStep::Fetch(plan) => {
            assert!(plan.fetch_teams);
            assert!(matches!(plan.games, GamesFetch::FullSeason));
        }
        other => panic!("expected a fetch, got {other:?}"),
    }
    refresh(&mut cache, 2025, vec![yankees.clone(), dodgers.clone()], vec![final_game(100, &yankees, &dodgers, 5, 3, "2025-06-15")]);
    // Fresh: a read is answered from the cache.
    assert!(matches!(cache.serve(Request::Get, Some(10), 2025), CacheStep::Answer(_)));
    // Stale: a read plans the same incremental fetch as a forced refresh.
    for req in [Request::Get, Request::Refresh { other_completed: false }] {
        match cache.serve(req, Some(CACHE_TTL_SECS), 2025) {
            CacheStep::Fetch(plan) => {
                assert!(!plan.fetch_teams);
                assert!(matches!(&plan.games, GamesFetch::Since(d) if d == "2025-06-16"));
            }
            other => panic!("expected a fetch, got {other:?}"),
        }
    }
}

#[test]
fn forced_refresh_reuses_only_a_refresh_that_completed_meanwhile() {
    let yankees = mock_team(1, "Yankees", "NYY", "American", "East");
    let mut cache = CacheState::new(2025);
    refresh(&mut cache, 2025, vec![yankees], vec![]);
    assert!(matches!(
        cache.serve(Request::Refresh { other_completed: false }, Some(0), 2025),
        CacheStep::Fetch(_)
    ));
    assert!(matches!(
        cache.serve(Request::Refresh { other_completed: true }, Some(0), 2025),
        CacheStep::Answer(_)
    ));
    assert!(matches!(
        cache.serve(Request::Refresh { other_completed: true }, Some(CACHE_TTL_SECS), 2025),
        CacheStep::Fetch(_)
    ));
}
