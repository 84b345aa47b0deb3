//! Data as the balldontlie MLB API describes teams and games.

use vstd::prelude::*;

verus! {

/// One page of a paginated API response.
#[derive(Debug)]
pub struct ApiResponse<T> {
    pub data: Vec<T>,
    pub meta: Option<Meta>,
}

/// Cursor-based pagination metadata.
#[derive(Debug, Clone, Copy)]
pub struct Meta {
    pub next_cursor: Option<u64>,
    pub per_page: Option<u32>,
}

/// An MLB team.
#[derive(Debug)]
pub struct Team {
    pub id: u64,
    pub slug: Option<String>,
    pub abbreviation: String,
    pub display_name: Option<String>,
    pub short_display_name: Option<String>,
    pub name: String,
    pub location: Option<String>,
    /// "American" or "National".
    pub league: String,
    /// "East", "Central" or "West".
    pub division: String,
}

/// Score data for one side of a game.
#[derive(Debug, Clone, Copy)]
pub struct TeamGameData {
    pub runs: Option<u32>,
    pub hits: Option<u32>,
    pub errors: Option<u32>,
}

/// An MLB game.
#[derive(Debug)]
pub struct Game {
    pub id: u64,
    pub date: String,
    pub season: u32,
    pub status: String,
    pub season_type: Option<String>,
    pub home_team: Team,
    pub away_team: Team,
    pub home_team_data: Option<TeamGameData>,
    pub away_team_data: Option<TeamGameData>,
}

fn copy_text(s: &Option<String>) -> (r: Option<String>)
    ensures
        r == *s,
{
    match s {
        Some(t) => Some(t.clone()),
        None => None,
    }
}

impl Clone for Team {
    fn clone(&self) -> (r: Self)
        ensures
            r == *self,
    {
        Team {
            id: self.id,
            slug: copy_text(&self.slug),
            abbreviation: self.abbreviation.clone(),
            display_name: copy_text(&self.display_name),
            short_display_name: copy_text(&self.short_display_name),
            name: self.name.clone(),
            location: copy_text(&self.location),
            league: self.league.clone(),
            division: self.division.clone(),
        }
    }
}

impl Clone for Game {
    fn clone(&self) -> (r: Self)
        ensures
            r == *self,
    {
        Game {
            id: self.id,
            date: self.date.clone(),
            season: self.season,
            status: self.status.clone(),
            season_type: copy_text(&self.season_type),
            home_team: self.home_team.clone(),
            away_team: self.away_team.clone(),
            home_team_data: self.home_team_data,
            away_team_data: self.away_team_data,
        }
    }
}

} // verus!
