use mlb_standings_bot::compute::{DivisionStandings, Standings, TeamRecord, WildCardStandings};
use mlb_standings_bot::format::{
    build_division_embed, build_division_table, build_standings_embeds, build_wild_card_embed,
    build_wild_card_table, embed_from, format_gb, league_colour, season_display,
    standings_embed_contents, standings_embeds_at, EmbedContent, AL_COLOUR, NL_COLOUR,
};
use mlb_standings_bot::models::Team;

// ── Helpers ─────────────────────────────────────────────────────

fn make_team(id: u64, name: &str, abbreviation: &str, league: &str, division: &str) -> Team {
    Team {
        id,
        slug: None,
        abbreviation: abbreviation.to_string(),
        display_name: Some(format!("Test {name}")),
        short_display_name: Some(name.to_string()),
        name: name.to_string(),
        location: Some("Test City".to_string()),
        league: league.to_string(),
        division: division.to_string(),
    }
}

/// Games behind in half games, from games.
fn halves(gb: f64) -> i64 {
    (gb * 2.0) as i64
}

fn make_record(team: Team, wins: u32, losses: u32, gb: f64) -> TeamRecord {
    TeamRecord {
        team,
        wins,
        losses,
        games_behind_halves: halves(gb),
    }
}

fn empty_standings() -> Standings {
    let division = |name: &str, league: &str| DivisionStandings {
        name: name.to_string(),
        league: league.to_string(),
        teams: vec![],
    };
    Standings {
        divisions: vec![
            division("AL East", "American"),
            division("AL Central", "American"),
            division("AL West", "American"),
            division("NL East", "National"),
            division("NL Central", "National"),
            division("NL West", "National"),
        ],
        wild_cards: vec![
            WildCardStandings {
                name: "AL Wild Card".to_string(),
                league: "American".to_string(),
                teams: vec![],
            },
            WildCardStandings {
                name: "NL Wild Card".to_string(),
                league: "National".to_string(),
                teams: vec![],
            },
        ],
        season: 2025,
    }
}

// ── season_display ──────────────────────────────────────────────

#[test]
fn season_display_normal() {
    assert_eq!(season_display(2025), "2025");
}

#[test]
fn season_display_century_boundary() {
    assert_eq!(season_display(2099), "2099");
}

// ── format_gb ───────────────────────────────────────────────────

#[test]
fn format_gb_leader() {
    assert_eq!(format_gb(halves(0.0)), "-");
}

#[test]
fn format_gb_whole_number() {
    assert_eq!(format_gb(halves(5.0)), "5");
}

#[test]
fn format_gb_half_game() {
    assert_eq!(format_gb(halves(2.5)), "2.5");
}

#[test]
fn format_gb_half_game_only() {
    assert_eq!(format_gb(halves(0.5)), "0.5");
}

#[test]
fn format_gb_large_number() {
    assert_eq!(format_gb(halves(25.0)), "25");
}

// ── build_division_table ────────────────────────────────────────

#[test]
fn build_division_table_empty_records() {
    let table = build_division_table(&[]);
    let lines: Vec<&str> = table.lines().collect();
    assert_eq!(lines.len(), 2); // header + separator
}

#[test]
fn build_division_table_contains_header_with_gb() {
    let table = build_division_table(&[]);
    assert!(table.contains("#"));
    assert!(table.contains("Team"));
    assert!(table.contains("W"));
    assert!(table.contains("L"));
    assert!(table.contains("PCT"));
    assert!(table.contains("GB"));
}

#[test]
fn build_division_table_single_team() {
    let team = make_team(1, "Yankees", "NYY", "American", "East");
    let record = make_record(team, 50, 20, 0.0);
    let table = build_division_table(&[record]);
    let lines: Vec<&str> = table.lines().collect();

    assert_eq!(lines.len(), 3); // header + separator + 1 row
    assert!(lines[2].contains("NYY"));
    assert!(lines[2].contains("50"));
    assert!(lines[2].contains("20"));
}

#[test]
fn build_division_table_shows_gb() {
    let team_a = make_team(1, "A", "AAA", "American", "East");
    let team_b = make_team(2, "B", "BBB", "American", "East");
    let records = vec![
        make_record(team_a, 60, 30, 0.0),
        make_record(team_b, 50, 40, 10.0),
    ];
    let table = build_division_table(&records);

    assert!(table.contains("-"), "Leader should show '-' for GB");
    assert!(table.contains("10"), "Trailer should show 10 GB");
}

// ── build_wild_card_table ───────────────────────────────────────

#[test]
fn build_wild_card_table_has_separator_after_wc_spots() {
    let teams: Vec<TeamRecord> = (0..5)
        .map(|i| {
            let team = make_team(
                i + 1,
                &format!("T{}", i + 1),
                &format!("T{:02}", i + 1),
                "American",
                "East",
            );
            make_record(team, 50 - i as u32, 30 + i as u32, i as f64)
        })
        .collect();

    let table = build_wild_card_table(&teams, 3);
    assert!(
        table.contains("\u{2504}"),
        "Should have a WC cutoff separator"
    );
}

// ── build_standings_embeds ───────────────────────────────────────

#[test]
fn build_standings_embeds_returns_eight_embeds() {
    let standings = empty_standings();
    let embeds = build_standings_embeds(&standings);
    assert_eq!(embeds.len(), 8);
}

#[test]
fn build_standings_embeds_within_discord_limit() {
    let standings = empty_standings();
    let embeds = build_standings_embeds(&standings);
    assert!(embeds.len() <= 10, "Discord allows max 10 embeds per message");
}

#[test]
fn build_standings_embeds_with_team_data() {
    let record = make_record(make_team(1, "Yankees", "NYY", "American", "East"), 50, 20, 0.0);

    let mut standings = empty_standings();
    standings.divisions[0].teams.push(record);

    let embeds = build_standings_embeds(&standings);
    assert_eq!(embeds.len(), 8);
}

// ── Exact layout ────────────────────────────────────────────────

#[test]
fn division_table_exact_layout() {
    let records = vec![
        make_record(make_team(1, "A", "NYY", "American", "East"), 60, 30, 0.0),
        make_record(make_team(2, "B", "BOS", "American", "East"), 50, 40, 10.0),
        make_record(make_team(3, "C", "TB", "American", "East"), 49, 40, 10.5),
    ];
    let table = build_division_table(&records);
    let expected = [
        "#    Team   W   L    PCT    GB",
        "──────────────────────────────",
        "1    NYY   60  30  0.667     -",
        "2    BOS   50  40  0.556    10",
        "3    TB    49  40  0.551  10.5",
    ]
    .join("\n");
    assert_eq!(table, expected);
}

#[test]
fn wild_card_table_separator_position() {
    let teams: Vec<TeamRecord> = (0..5)
        .map(|i| {
            let team = make_team(i + 1, "T", &format!("T{:02}", i + 1), "American", "East");
            make_record(team, 50 - i as u32, 30 + i as u32, i as f64 - 2.0)
        })
        .collect();
    let table = build_wild_card_table(&teams, 3);
    let lines: Vec<&str> = table.lines().collect();
    assert_eq!(lines.len(), 8);
    assert!(lines[4].contains("T03"));
    assert_eq!(lines[5], "┄".repeat(30));
    assert!(lines[6].contains("T04"));
    // Teams above the cutoff show negative games behind.
    assert!(lines[2].ends_with("  -2"));
    assert!(lines[3].ends_with("  -1"));
}

#[test]
fn wild_card_table_without_extra_teams_has_no_separator() {
    let teams: Vec<TeamRecord> = (0..3)
        .map(|i| make_record(make_team(i + 1, "T", "T", "American", "East"), 10, 10, 0.0))
        .collect();
    let table = build_wild_card_table(&teams, 3);
    assert!(!table.contains('\u{2504}'));
    assert_eq!(table.lines().count(), 5);
}

#[test]
fn format_gb_negative_values() {
    assert_eq!(format_gb(-1), "-0.5");
    assert_eq!(format_gb(-3), "-1.5");
    assert_eq!(format_gb(-4), "-2");
}

#[test]
fn win_pct_column_matches_float_formatting() {
    for total in 1u32..=162 {
        for wins in 0..=total {
            let record = make_record(
                make_team(1, "A", "AAA", "American", "East"),
                wins,
                total - wins,
                0.0,
            );
            let table = build_division_table(&[record]);
            let row = table.lines().nth(2).unwrap().to_string();
            let expected = format!("{:.3}", wins as f64 / total as f64);
            assert!(
                row.contains(&format!("  {expected}  ")),
                "{wins}-{}: row {row:?} lacks {expected}",
                total - wins
            );
        }
    }
    let zero = make_record(make_team(1, "A", "AAA", "American", "East"), 0, 0, 0.0);
    assert!(build_division_table(&[zero]).contains("  0.000  "));
}

#[test]
fn league_colours() {
    assert_eq!(league_colour("American"), AL_COLOUR);
    assert_eq!(league_colour("National"), NL_COLOUR);
    assert_eq!(AL_COLOUR, 0x002D72);
    assert_eq!(NL_COLOUR, 0xD50032);
}

#[test]
fn embed_contents_titles_and_footer() {
    let standings = empty_standings();
    let contents = standings_embed_contents(&standings, "June 15, 2025 at 3:05 PM UTC");
    assert_eq!(contents.len(), 8);
    assert_eq!(contents[0].title, "AL East \u{2014} 2025");
    assert_eq!(contents[7].title, "NL Wild Card \u{2014} 2025");
    assert_eq!(contents[0].footer, "Updated June 15, 2025 at 3:05 PM UTC");
    assert_eq!(contents[0].colour, AL_COLOUR);
    assert_eq!(contents[3].colour, NL_COLOUR);
    assert!(contents[0].description.starts_with("```\n#"));
    assert!(contents[0].description.ends_with("\n```"));
}

#[test]
fn embed_from_sets_all_four_parts() {
    let content = EmbedContent {
        title: "T".to_string(),
        description: "D".to_string(),
        colour: 0x123456,
        footer: "F".to_string(),
    };
    let json = serde_json::to_value(&embed_from(content)).unwrap();
    assert_eq!(json["title"].as_str(), Some("T"));
    assert_eq!(json["description"].as_str(), Some("D"));
    assert_eq!(json["color"].as_u64(), Some(0x123456));
    assert_eq!(json["footer"]["text"].as_str(), Some("F"));
}

#[test]
fn division_embed_shows_table_title_colour_and_footer() {
    let standings = empty_standings();
    let div = &standings.divisions[3];
    let json = serde_json::to_value(&build_division_embed(div, "2025", "now")).unwrap();
    assert_eq!(json["title"].as_str(), Some("NL East \u{2014} 2025"));
    let table = build_division_table(&div.teams);
    assert_eq!(json["description"].as_str(), Some(format!("```\n{table}\n```").as_str()));
    assert_eq!(json["color"].as_u64(), Some(u64::from(NL_COLOUR)));
    assert_eq!(json["footer"]["text"].as_str(), Some("Updated now"));
}

#[test]
fn wild_card_embed_shows_table_title_colour_and_footer() {
    let standings = empty_standings();
    let wc = &standings.wild_cards[0];
    let json = serde_json::to_value(&build_wild_card_embed(wc, "2024", "then")).unwrap();
    assert_eq!(json["title"].as_str(), Some("AL Wild Card \u{2014} 2024"));
    let table = build_wild_card_table(&wc.teams, 3);
    assert_eq!(json["description"].as_str(), Some(format!("```\n{table}\n```").as_str()));
    assert_eq!(json["color"].as_u64(), Some(u64::from(AL_COLOUR)));
    assert_eq!(json["footer"]["text"].as_str(), Some("Updated then"));
}

#[test]
fn win_pct_milli_matches_float_formatting_through_two_thousand_games() {
    for total in 1u32..=2000 {
        for wins in 0..=total {
            let record = make_record(make_team(1, "A", "AAA", "American", "East"), wins, total - wins, 0.0);
            let m = record.win_pct_milli();
            let shown = format!("{}.{:03}", m / 1000, m % 1000);
            let expected = format!("{:.3}", wins as f64 / total as f64);
            assert_eq!(shown, expected, "{wins}-{}", total - wins);
        }
    }
}

#[test]
fn win_pct_ties_follow_the_float_quotient() {
    let pct = |w: u32, l: u32| make_record(make_team(1, "A", "AAA", "American", "East"), w, l, 0.0).win_pct_milli();
    // 49/80 = 0.6125; its f64 lies just above, so it shows 0.613.
    assert_eq!(pct(49, 31), 613);
    // 1/16 = 0.0625 is an exact f64: the tie goes to the even thousandth.
    assert_eq!(pct(1, 15), 62);
    // 3/16 = 0.1875, also exact: to the even thousandth, upwards.
    assert_eq!(pct(3, 13), 188);
}

#[test]
fn season_display_parses_back_to_the_season() {
    for season in [0u32, 7, 10, 2024, 2025, 10_000, u32::MAX] {
        let text = season_display(season);
        assert_eq!(text, season.to_string());
        assert_eq!(text.parse::<u32>(), Ok(season));
    }
}

#[test]
fn embeds_at_a_timestamp_carry_it_in_every_footer() {
    let standings = empty_standings();
    let embeds = standings_embeds_at(&standings, "June 15, 2025 at 3:05 PM UTC");
    assert_eq!(embeds.len(), 8);
    for e in &embeds {
        let json = serde_json::to_value(e).unwrap();
        assert_eq!(json["footer"]["text"].as_str(), Some("Updated June 15, 2025 at 3:05 PM UTC"));
    }
}

#[test]
fn standings_embeds_are_stamped_with_the_current_time() {
    let format = "%B %-d, %Y at %-I:%M %p UTC";
    let before = chrono::Utc::now().format(format).to_string();
    let embeds = build_standings_embeds(&empty_standings());
    let after = chrono::Utc::now().format(format).to_string();
    for e in &embeds {
        let json = serde_json::to_value(e).unwrap();
        let footer = json["footer"]["text"].as_str().unwrap().to_string();
        assert!(footer.ends_with(" UTC"));
        assert!(
            footer == format!("Updated {before}") || footer == format!("Updated {after}"),
            "{footer:?} is neither {before:?} nor {after:?}"
        );
    }
}
