use mlb_standings_bot::config::{
    current_mlb_season, parse_u32, parse_u64, season_for_date, season_or_current, Config,
    ConfigError,
};

fn s(text: &str) -> Option<String> {
    Some(text.to_string())
}

#[test]
fn current_mlb_season_returns_a_plausible_value() {
    let season = current_mlb_season();
    assert!(
        season >= 2020 && season <= 2040,
        "Season {season} seems implausible"
    );
}

#[test]
fn season_follows_the_calendar() {
    assert_eq!(season_for_date(2025, 3), 2025);
    assert_eq!(season_for_date(2025, 12), 2025);
    assert_eq!(season_for_date(2025, 1), 2024);
    assert_eq!(season_for_date(2025, 2), 2024);
}

#[test]
fn season_override_wins() {
    assert_eq!(season_or_current(Some(2020)), 2020);
    assert_eq!(season_or_current(None), current_mlb_season());
}

#[test]
fn parse_numbers_like_str_parse() {
    for text in ["0", "42", "+7", "0018446744073709551615", "18446744073709551615", "18446744073709551616", "", "+", "-1", " 1", "1 ", "12a", "++1"] {
        assert_eq!(parse_u64(text), text.parse::<u64>().ok(), "{text:?}");
        assert_eq!(parse_u32(text), text.parse::<u32>().ok(), "{text:?}");
    }
    assert_eq!(parse_u32("4294967295"), Some(u32::MAX));
    assert_eq!(parse_u32("4294967296"), None);
}

#[test]
fn config_requires_token_key_and_channel() {
    let err = Config::from_values(None, s("k"), s("1"), None, None).unwrap_err();
    assert_eq!(err, ConfigError::MissingDiscordToken);
    assert_eq!(err.message(), "DISCORD_TOKEN env var is required");
    let err = Config::from_values(s("t"), None, s("1"), None, None).unwrap_err();
    assert_eq!(err, ConfigError::MissingApiKey);
    assert_eq!(err.message(), "BALLDONTLIE_API_KEY env var is required");
    let err = Config::from_values(s("t"), s("k"), None, None, None).unwrap_err();
    assert_eq!(err, ConfigError::MissingChannelId);
    assert_eq!(err.message(), "CHANNEL_ID env var is required");
    let err = Config::from_values(s("t"), s("k"), s("abc"), None, None).unwrap_err();
    assert_eq!(err, ConfigError::InvalidChannelId);
    assert_eq!(err.message(), "CHANNEL_ID must be a valid u64");
}

#[test]
fn config_defaults_and_overrides() {
    let cfg = Config::from_values(s("t"), s("k"), s("123456789012345678"), None, None).unwrap();
    assert_eq!(cfg.discord_token, "t");
    assert_eq!(cfg.balldontlie_api_key, "k");
    assert_eq!(cfg.channel_id, 123456789012345678);
    assert_eq!(cfg.cron_schedule, "0 0 15 * * *");
    assert_eq!(cfg.mlb_season, None);

    let cfg = Config::from_values(s("t"), s("k"), s("9"), s("0 30 9 * * *"), s("2024")).unwrap();
    assert_eq!(cfg.cron_schedule, "0 30 9 * * *");
    assert_eq!(cfg.mlb_season, Some(2024));

    let cfg = Config::from_values(s("t"), s("k"), s("9"), None, s("next year")).unwrap();
    assert_eq!(cfg.mlb_season, None);
}
