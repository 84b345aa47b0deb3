use mlb_standings_bot::compute::{DivisionStandings, Standings, TeamRecord, WildCardStandings};
use mlb_standings_bot::format::build_standings_embeds;
use mlb_standings_bot::models::Team;
use mlb_standings_bot::scheduler::build_standings_message;

fn make_team(id: u64, name: &str, abbr: &str, league: &str, division: &str) -> Team {
    Team {
        id,
        slug: None,
        abbreviation: abbr.to_string(),
        display_name: Some(format!("Test {name}")),
        short_display_name: Some(name.to_string()),
        name: name.to_string(),
        location: Some("Test City".to_string()),
        league: league.to_string(),
        division: division.to_string(),
    }
}

fn make_record(team: Team, wins: u32, losses: u32) -> TeamRecord {
    TeamRecord {
        team,
        wins,
        losses,
        games_behind_halves: 0,
    }
}

fn standings_with(al_east: Vec<TeamRecord>, nl_west: Vec<TeamRecord>) -> Standings {
    let division = |name: &str, league: &str, teams: Vec<TeamRecord>| DivisionStandings {
        name: name.to_string(),
        league: league.to_string(),
        teams,
    };
    Standings {
        divisions: vec![
            division("AL East", "American", al_east),
            division("AL Central", "American", vec![]),
            division("AL West", "American", vec![]),
            division("NL East", "National", vec![]),
            division("NL Central", "National", vec![]),
            division("NL West", "National", nl_west),
        ],
        wild_cards: vec![
            WildCardStandings {
                name: "AL Wild Card".to_string(),
                league: "American".to_string(),
                teams: vec![],
            },
            WildCardStandings {
                name: "NL Wild Card".to_string(),
                league: "National".to_string(),
                teams: vec![],
            },
        ],
        season: 2025,
    }
}

fn make_standings() -> Standings {
    let nyy = make_record(make_team(1, "Yankees", "NYY", "American", "East"), 50, 20);
    let lad = make_record(make_team(2, "Dodgers", "LAD", "National", "West"), 45, 25);
    standings_with(vec![nyy], vec![lad])
}

#[test]
fn message_contains_eight_embeds() {
    let standings = make_standings();
    let message = build_standings_message(&standings);

    let json = serde_json::to_value(&message).expect("message should serialize");
    let embeds = json["embeds"].as_array().expect("embeds should be an array");

    assert_eq!(
        embeds.len(),
        8,
        "Scheduled message must contain 8 embeds (6 divisions + 2 wild card), got {}",
        embeds.len()
    );
}

#[test]
fn message_embeds_contain_division_titles() {
    let standings = make_standings();
    let message = build_standings_message(&standings);

    let json = serde_json::to_value(&message).expect("message should serialize");
    let embeds = json["embeds"].as_array().unwrap();

    let titles: Vec<&str> = embeds.iter().filter_map(|e| e["title"].as_str()).collect();

    assert!(titles.iter().any(|t| t.contains("AL East")), "Missing AL East. Titles: {titles:?}");
    assert!(titles.iter().any(|t| t.contains("NL West")), "Missing NL West. Titles: {titles:?}");
    assert!(titles.iter().any(|t| t.contains("AL Wild Card")), "Missing AL Wild Card. Titles: {titles:?}");
    assert!(titles.iter().any(|t| t.contains("NL Wild Card")), "Missing NL Wild Card. Titles: {titles:?}");
}

#[test]
fn message_embeds_contain_team_data() {
    let standings = make_standings();
    let message = build_standings_message(&standings);
    let json = serde_json::to_value(&message).expect("message should serialize");
    let embeds = json["embeds"].as_array().unwrap();

    let descriptions: Vec<&str> = embeds.iter().filter_map(|e| e["description"].as_str()).collect();

    assert!(descriptions.iter().any(|d| d.contains("NYY")), "Should contain NYY team data");
    assert!(descriptions.iter().any(|d| d.contains("LAD")), "Should contain LAD team data");
}

#[test]
fn message_with_empty_standings_still_has_eight_embeds() {
    let standings = standings_with(vec![], vec![]);

    let message = build_standings_message(&standings);
    let json = serde_json::to_value(&message).expect("message should serialize");
    let embeds = json["embeds"].as_array().expect("embeds should be an array");

    assert_eq!(embeds.len(), 8, "Even with no teams, message must have all 8 embeds");
}

#[test]
fn embeds_plural_preserves_all_eight() {
    let standings = make_standings();
    let embeds = build_standings_embeds(&standings);
    assert_eq!(embeds.len(), 8, "build_standings_embeds should return 8 embeds");

    let fixed_message = build_standings_message(&standings);
    let fixed_json = serde_json::to_value(&fixed_message).unwrap();
    let fixed_embeds = fixed_json["embeds"].as_array().unwrap();
    assert_eq!(fixed_embeds.len(), 8, "The .embeds() call must preserve all 8 embeds");
}

#[test]
fn message_embeds_carry_colour_and_footer() {
    let standings = make_standings();
    let json = serde_json::to_value(&build_standings_message(&standings)).unwrap();
    let embeds = json["embeds"].as_array().unwrap();
    assert_eq!(embeds[0]["color"].as_u64(), Some(0x002D72));
    assert_eq!(embeds[5]["color"].as_u64(), Some(0xD50032));
    assert_eq!(embeds[0]["title"].as_str(), Some("AL East \u{2014} 2025"));
    assert!(embeds[0]["footer"]["text"].as_str().unwrap().starts_with("Updated "));
}
