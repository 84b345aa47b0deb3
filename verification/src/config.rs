//! Bot configuration from raw environment values, and the current season.

use vstd::prelude::*;

verus! {

/// Bot configuration.
#[derive(Debug, Clone)]
pub struct Config {
    /// Discord bot token.
    pub discord_token: String,
    /// balldontlie API key.
    pub balldontlie_api_key: String,
    /// Discord channel ID for daily standings posts.
    pub channel_id: u64,
    /// Cron schedule expression for daily posting.
    pub cron_schedule: String,
    /// Optional override of the MLB season year.
    pub mlb_season: Option<u32>,
}

/// Why a configuration could not be built.
#[derive(Debug, Clone, Copy, PartialEq, Eq, Structural)]
pub enum ConfigError {
    MissingDiscordToken,
    MissingApiKey,
    MissingChannelId,
    InvalidChannelId,
}

/// The default cron schedule: every day at 15:00 UTC (10:00 AM Eastern).
pub open spec fn default_cron_schedule() -> Seq<char> {
    "0 0 15 * * *"@
}

impl ConfigError {
    /// The error message, naming the environment variable at fault.
    pub open spec fn message_text(self) -> Seq<char> {
        match self {
            ConfigError::MissingDiscordToken => "DISCORD_TOKEN env var is required"@,
            ConfigError::MissingApiKey => "BALLDONTLIE_API_KEY env var is required"@,
            ConfigError::MissingChannelId => "CHANNEL_ID env var is required"@,
            ConfigError::InvalidChannelId => "CHANNEL_ID must be a valid u64"@,
        }
    }

    pub fn message(&self) -> (m: String)
        ensures
            m@ == self.message_text(),
    {
        let text = match self {
            ConfigError::MissingDiscordToken => "DISCORD_TOKEN env var is required",
            ConfigError::MissingApiKey => "BALLDONTLIE_API_KEY env var is required",
            ConfigError::MissingChannelId => "CHANNEL_ID env var is required",
            ConfigError::InvalidChannelId => "CHANNEL_ID must be a valid u64",
        };
        let mut m = String::new();
        m.append(text);
        assert(m@ =~= self.message_text());
        m
    }
}

// ---------------------------------------------------------------------
// Unsigned decimal numbers, as `str::parse` reads them for unsigned types
// ---------------------------------------------------------------------

pub open spec fn is_digit(c: char) -> bool {
    '0' <= c <= '9'
}

/// The value of a sequence of decimal digits.
pub open spec fn digits_value(d: Seq<char>) -> nat
    decreases d.len(),
{
    if d.len() == 0 {
        0
    } else {
        digits_value(d.drop_last()) * 10 + ((d.last() as int) - ('0' as int)) as nat
    }
}

/// The number written in `s`: an optional `+` followed by one or more
/// decimal digits and nothing else (no sign `-`, no spaces); `None` for
/// any other text.
pub open spec fn unsigned_value(s: Seq<char>) -> Option<nat> {
    let d = unsigned_digits(s);
    if d.len() > 0 && all_digits(d) {
        Some(digits_value(d))
    } else {
        None
    }
}

/// `s` without a leading `+`.
pub open spec fn unsigned_digits(s: Seq<char>) -> Seq<char> {
    if s.len() > 0 && s[0] == '+' { s.drop_first() } else { s }
}

pub open spec fn all_digits(d: Seq<char>) -> bool {
    forall|i: int| 0 <= i < d.len() ==> is_digit(#[trigger] d[i])
}

proof fn lemma_digits_value_grows(d: Seq<char>, i: int)
    requires
        0 <= i <= d.len(),
        forall|k: int| 0 <= k < d.len() ==> is_digit(#[trigger] d[k]),
    ensures
        digits_value(d.take(i)) <= digits_value(d),
    decreases d.len(),
{
    if i < d.len() {
        assert(d.drop_last().take(i) =~= d.take(i));
        assert forall|k: int| 0 <= k < d.drop_last().len() implies is_digit(#[trigger] d.drop_last()[k]) by {
            assert(d.drop_last()[k] == d[k]);
        }
        lemma_digits_value_grows(d.drop_last(), i);
    } else {
        assert(d.take(i) =~= d);
    }
}

/// Reads an unsigned decimal number no greater than `max` (see
/// `unsigned_value`).
pub fn parse_unsigned(s: &str, max: u64) -> (r: Option<u64>)
    ensures
        r == (match unsigned_value(s@) {
            Some(v) => if v <= max { Some(v as u64) } else { None },
            None => None,
        }),
{
    let n = s.unicode_len();
    let mut start: usize = 0;
    if n > 0 && s.get_char(0) == '+' {
        start = 1;
    }
    let ghost d = unsigned_digits(s@);
    assert(d =~= s@.subrange(start as int, n as int));
    if start == n {
        return None;
    }
    let mut value: u64 = 0;
    let mut i: usize = start;
    while i < n
        invariant
            n == s@.len(),
            start <= i <= n,
            d == unsigned_digits(s@),
            d =~= s@.subrange(start as int, n as int),
            d.len() > 0,
            forall|k: int| 0 <= k < i - start ==> is_digit(#[trigger] d[k]),
            value as nat == digits_value(d.take(i - start)),
            value <= max,
        decreases n - i,
    {
        let c = s.get_char(i);
        assert(c == d[i - start]);
        if !('0' <= c && c <= '9') {
            proof {
                let k = i - start;
                assert(!is_digit(d[k]));
                assert(!all_digits(d));
                assert(unsigned_value(s@) is None);
            }
            return None;
        }
        let digit: u64 = (c as u32 - '0' as u32) as u64;
        assert(d.take(i - start + 1).drop_last() =~= d.take(i - start));
        assert(d.take(i - start + 1).last() == c);
        assert(digits_value(d.take(i - start + 1)) == value * 10 + digit);
        let grown = value.checked_mul(10);
        let next = match grown {
            Some(g) => g.checked_add(digit),
            None => None,
        };
        match next {
            Some(v) => {
                if v > max {
                    proof {
                        lemma_rest_digits_or_fail(d, (i - start + 1) as int, max as nat);
                    }
                    return None;
                }
                value = v;
            },
            None => {
                proof {
                    lemma_rest_digits_or_fail(d, (i - start + 1) as int, max as nat);
                }
                return None;
            },
        }
        i = i + 1;
    }
    assert(d.take(n - start) =~= d);
    Some(value)
}

/// Once a prefix of digits exceeds `max`, the text either is no number or
/// is a number above `max`.
proof fn lemma_rest_digits_or_fail(d: Seq<char>, i: int, max: nat)
    requires
        0 < i <= d.len(),
        forall|k: int| 0 <= k < i ==> is_digit(#[trigger] d[k]),
        digits_value(d.take(i)) > max,
    ensures
        d.len() > 0 && all_digits(d) ==> digits_value(d) > max,
{
    if all_digits(d) {
        lemma_digits_value_grows(d, i);
    }
}

/// Reads a `u64` as `str::parse::<u64>` does.
pub fn parse_u64(s: &str) -> (r: Option<u64>)
    ensures
        r == parsed_u64(s@),
{
    parse_unsigned(s, u64::MAX)
}

/// Reads a `u32` as `str::parse::<u32>` does.
pub fn parse_u32(s: &str) -> (r: Option<u32>)
    ensures
        r == parsed_u32(s@),
{
    match parse_unsigned(s, 0xffff_ffff) {
        Some(v) => Some(v as u32),
        None => None,
    }
}

/// `s` read as a `u64` (see `unsigned_value`).
pub open spec fn parsed_u64(s: Seq<char>) -> Option<u64> {
    match unsigned_value(s) {
        Some(v) => if v <= u64::MAX { Some(v as u64) } else { None },
        None => None,
    }
}

/// `s` read as a `u32` (see `unsigned_value`).
pub open spec fn parsed_u32(s: Seq<char>) -> Option<u32> {
    match unsigned_value(s) {
        Some(v) => if v <= u32::MAX { Some(v as u32) } else { None },
        None => None,
    }
}

/// The first problem among the required values, checked in order: the
/// token, the API key, the channel ID's presence, then its form.
pub open spec fn config_error(
    discord_token: &Option<String>,
    balldontlie_api_key: &Option<String>,
    channel_id: &Option<String>,
) -> Option<ConfigError> {
    if discord_token is None {
        Some(ConfigError::MissingDiscordToken)
    } else if balldontlie_api_key is None {
        Some(ConfigError::MissingApiKey)
    } else if channel_id is None {
        Some(ConfigError::MissingChannelId)
    } else if parsed_u64(channel_id.unwrap()@) is None {
        Some(ConfigError::InvalidChannelId)
    } else {
        None
    }
}

impl Config {
    /// Builds the configuration from the values of the environment
    /// variables `DISCORD_TOKEN`, `BALLDONTLIE_API_KEY`, `CHANNEL_ID`,
    /// `CRON_SCHEDULE` and `MLB_SEASON` (`None` for one that is unset).
    ///
    /// The first three are required and the channel ID must be a `u64`;
    /// the cron schedule defaults to "0 0 15 * * *"; a season that is not a
    /// `u32` is ignored.
    pub fn from_values(
        discord_token: Option<String>,
        balldontlie_api_key: Option<String>,
        channel_id: Option<String>,
        cron_schedule: Option<String>,
        mlb_season: Option<String>,
    ) -> (r: Result<Config, ConfigError>)
        ensures
            r is Err <==> config_error(&discord_token, &balldontlie_api_key, &channel_id) is Some,
            r matches Err(e) ==> config_error(&discord_token, &balldontlie_api_key, &channel_id) == Some(e),
            r matches Ok(cfg) ==> {
                &&& cfg.discord_token == discord_token.unwrap()
                &&& cfg.balldontlie_api_key == balldontlie_api_key.unwrap()
                &&& Some(cfg.channel_id) == parsed_u64(channel_id.unwrap()@)
                &&& cfg.cron_schedule@ == (match cron_schedule {
                    Some(c) => c@,
                    None => default_cron_schedule(),
                })
                &&& cfg.mlb_season == (match mlb_season {
                    Some(m) => parsed_u32(m@),
                    None => None,
                })
            },
    {
        let discord_token = match discord_token {
            Some(t) => t,
            None => return Err(ConfigError::MissingDiscordToken),
        };
        let balldontlie_api_key = match balldontlie_api_key {
            Some(k) => k,
            None => return Err(ConfigError::MissingApiKey),
        };
        let channel_id_raw = match channel_id {
            Some(c) => c,
            None => return Err(ConfigError::MissingChannelId),
        };
        let channel_id = match parse_u64(channel_id_raw.as_str()) {
            Some(id) => id,
            None => return Err(ConfigError::InvalidChannelId),
        };
        let cron_schedule = match cron_schedule {
            Some(c) => c,
            None => {
                let mut c = String::new();
                c.append("0 0 15 * * *");
                assert(c@ =~= default_cron_schedule());
                c
            },
        };
        let mlb_season = match mlb_season {
            Some(m) => parse_u32(m.as_str()),
            None => None,
        };
        Ok(Config { discord_token, balldontlie_api_key, channel_id, cron_schedule, mlb_season })
    }
}

// ---------------------------------------------------------------------
// Seasons
// ---------------------------------------------------------------------

/// The MLB season of a date: the season runs from March to October within
/// one calendar year, so March through December belong to that year's
/// season and January and February to the previous year's (the year before
/// year 0 wraps around, as `u32` arithmetic does without overflow checks).
pub open spec fn season_of(year: i32, month: u32) -> u32 {
    if month >= 3 {
        year as u32
    } else if year as u32 == 0 {
        u32::MAX
    } else {
        (year as u32 - 1) as u32
    }
}

/// The MLB season of a calendar year and month.
pub fn season_for_date(year: i32, month: u32) -> (s: u32)
    ensures
        s == season_of(year, month),
{
    let y = year as u32;
    if month >= 3 {
        y
    } else {
        y.wrapping_sub(1)
    }
}

/// The current MLB season, from the current UTC date.
pub fn current_mlb_season() -> (s: u32)
    ensures
        exists|year: i32, month: u32| 1 <= month <= 12 && s == season_of(year, month),
{
    let (year, month) = crate::clock::utc_now_year_month();
    season_for_date(year, month)
}

/// The season to use: the override when one is given, else the current one.
pub fn season_or_current(season_override: Option<u32>) -> (s: u32)
    ensures
        season_override matches Some(o) ==> s == o,
        season_override is None ==> exists|year: i32, month: u32| 1 <= month <= 12 && s == season_of(year, month),
{
    match season_override {
        Some(o) => o,
        None => current_mlb_season(),
    }
}

} // verus!
