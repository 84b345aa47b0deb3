# mlb_standings_bot

The verified core of a Discord bot that posts MLB standings computed from
balldontlie game data.

- `src/` — the library, verified with Verus:
  - `compute` — win-loss tallies, division tables ranked by record with
    games behind the leader, wild card races, and the laws they obey.
  - `format` — the text tables and the content of the Discord embeds.
  - `cache` — the standings cache's state: freshness, refresh plans,
    merging fetched games by id, the latest completed game's date.
  - `config` — configuration from raw environment values; the season.
  - `text`, `models`, `clock`, `discord`, `scheduler` — supporting pieces
    and the calls into chrono and serenity.
- `app/` — the unverified shell: environment access, the async cache with
  its locks and clock, the cron job posting to Discord, serde models.
- `tests/` — tests of the library.
