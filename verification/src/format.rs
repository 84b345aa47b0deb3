//! Standings as text: games-behind and percentage columns, the division
//! and wild card tables, and the Discord embeds that carry them.

use vstd::prelude::*;

use serenity::builder::CreateEmbed;

use crate::clock::{format_timestamp, timestamp_text, utc_now_secs, utc_stamped};
use crate::compute::{DivisionStandings, Standings, TeamRecord, WildCardStandings, WILD_CARD_SPOTS};
use crate::discord::{
    colour_new, colour_with, coloured, described, embed_colour, embed_description, embed_footer,
    embed_new, embed_title, footed, footer_new, footer_with, titled,
};
use crate::config::{all_digits, digits_value, is_digit, parsed_u32, unsigned_digits};
use crate::text::{
    digit_char,
    decimal, decimal_string, join_lines, pad_left, pad_right, push_char, push_decimal,
    push_pad_left, push_pad_right, push_repeated, repeated,
};

verus! {

// ---------------------------------------------------------------------
// Columns
// ---------------------------------------------------------------------

/// The season as displayed, e.g. "2025" (a season lies within one
/// calendar year).
pub fn season_display(season: u32) -> (s: String)
    ensures
        s@ == decimal(season as nat),
{
    decimal_string(season as u64)
}

/// Games behind as displayed, from a count of half games: "-" for none,
/// a trailing ".5" for a half game, no decimals for whole games, and a
/// leading "-" for a team ahead of the reference team.
pub open spec fn gb_text(halves: int) -> Seq<char> {
    if halves == 0 {
        "-"@
    } else {
        let mag: nat = if halves < 0 { (-halves) as nat } else { halves as nat };
        (if halves < 0 { "-"@ } else { Seq::empty() }) + decimal(mag / 2) + (if mag % 2 == 1 {
            ".5"@
        } else {
            Seq::empty()
        })
    }
}

/// Formats games behind, given in half games.
pub fn format_gb(halves: i64) -> (s: String)
    ensures
        s@ == gb_text(halves as int),
{
    let mut s = String::new();
    if halves == 0 {
        s.append("-");
        assert(s@ =~= gb_text(halves as int));
        return s;
    }
    if halves < 0 {
        s.append("-");
    }
    let wide: i128 = halves as i128;
    let mag: u64 = if wide < 0 { (-wide) as u64 } else { wide as u64 };
    push_decimal(&mut s, mag / 2);
    if mag % 2 == 1 {
        s.append(".5");
    }
    assert(s@ =~= gb_text(halves as int));
    s
}

/// `n * 2^k`.
pub open spec fn times_pow2(n: nat, k: nat) -> nat
    decreases k,
{
    if k == 0 {
        n
    } else {
        2 * times_pow2(n, (k - 1) as nat)
    }
}

/// The binade of `n / 2000` (for `0 < n < 2000`): the least `s >= 1` with
/// `2^-s <= n / 2000`, found by searching upwards from `s`.
pub open spec fn binade_from(n: nat, s: nat) -> nat
    decreases 11 - s,
{
    if s >= 11 || times_pow2(n, s) >= 2000 {
        s
    } else {
        binade_from(n, s + 1)
    }
}

/// Whether the `f64` nearest to `n / 2000` (for `0 < n < 2000`) lies above
/// it. With `2^-s <= n / 2000 < 2^(1-s)`, that `f64` is `M * 2^-(52 + s)`
/// for the integer `M` nearest to `n * 2^(52 + s) / 2000`; it lies above
/// when the fraction dropped exceeds one half.
pub open spec fn nearest_double_above(n: nat) -> bool {
    times_pow2(n, 52 + binade_from(n, 1)) % 2000 > 1000
}

/// Which way `{:.3}` rounds an `f64` quotient that is exactly `n / 2000`
/// (`n` odd, halfway between two thousandths): when `n / 2000` is itself an
/// `f64` (`n` a multiple of 125) the tie goes to the even thousandth;
/// otherwise the division rounds to the nearest `f64`, which lies strictly
/// on one side of the tie, and the display follows it.
pub open spec fn tie_rounds_up(n: nat) -> bool {
    if n % 125 == 0 {
        ((n - 1) / 2) % 2 == 1
    } else {
        nearest_double_above(n)
    }
}

/// Winning percentage in thousandths, as `{:.3}` displays the `f64`
/// quotient `wins / (wins + losses)`; 0 for a team without decided games.
/// Away from ties this is the nearest thousandth of the exact ratio (the
/// `f64` lies far closer to the ratio than any tie does, for counts within
/// `u32`); at an exact tie it rounds as `tie_rounds_up` says.
pub open spec fn pct_milli(wins: nat, losses: nat) -> nat {
    let t = wins + losses;
    if t == 0 {
        0
    } else {
        let q = (1000 * wins) / t;
        let r = (1000 * wins) % t;
        if 2 * r > t {
            q + 1
        } else if 2 * r < t {
            q
        } else if tie_rounds_up(2 * q + 1) {
            q + 1
        } else {
            q
        }
    }
}

/// Whether the `f64` nearest to `n / 2000` lies above it (see
/// `nearest_double_above`).
fn nearest_double_above_exec(n: u64) -> (up: bool)
    requires
        0 < n < 2000,
    ensures
        up == nearest_double_above(n as nat),
{
    let mut x: u128 = n as u128;
    let mut s: u64 = 0;
    while s < 1 || (s < 11 && x < 2000)
        invariant
            0 < n < 2000,
            s <= 11,
            x == times_pow2(n as nat, s as nat),
            x < 4000,
            s >= 1 ==> binade_from(n as nat, 1) == binade_from(n as nat, s as nat),
        decreases 11 - s,
    {
        x = 2 * x;
        s = s + 1;
    }
    assert(binade_from(n as nat, s as nat) == s);
    proof {
        lemma_two_pow_52();
        lemma_times_pow2_monotone(0, 52);
    }
    let mut j: u64 = 0;
    while j < 52
        invariant
            j <= 52,
            x == times_pow2(n as nat, (s + j) as nat),
            x < 4000 * times_pow2(1, j as nat),
            times_pow2(1, j as nat) <= times_pow2(1, 52),
            times_pow2(1, 52) == 0x10_0000_0000_0000,
        decreases 52 - j,
    {
        proof {
            lemma_times_pow2_monotone(j as nat + 1, 52);
        }
        x = 2 * x;
        j = j + 1;
    }
    x % 2000 > 1000
}

proof fn lemma_two_pow_52()
    ensures
        times_pow2(1, 52) == 0x10_0000_0000_0000,
{
    reveal_with_fuel(times_pow2, 53);
}

proof fn lemma_times_pow2_monotone(j: nat, k: nat)
    requires
        j <= k,
    ensures
        times_pow2(1, j) <= times_pow2(1, k),
    decreases k - j,
{
    if j < k {
        lemma_times_pow2_monotone(j, (k - 1) as nat);
    }
}

/// A percentage in thousandths as displayed: "0.667", "1.000".
pub open spec fn pct_text(m: nat) -> Seq<char> {
    decimal(m / 1000) + "."@ + decimal((m % 1000) / 100) + decimal((m % 100) / 10) + decimal(m % 10)
}

proof fn lemma_pct_milli_bound(wins: nat, losses: nat)
    ensures
        pct_milli(wins, losses) <= 1000,
{
    let t = wins + losses;
    if t > 0 {
        let q = (1000 * wins) / t;
        let r = (1000 * wins) % t;
        assert(q * t + r == 1000 * wins && 0 <= r < t) by (nonlinear_arith)
            requires t > 0, q == (1000 * wins) / t, r == (1000 * wins) % t;
        assert(q <= 1000 && (q == 1000 ==> r == 0)) by (nonlinear_arith)
            requires q * t + r == 1000 * wins, 0 <= r < t, wins <= t, t > 0;
    }
}

/// The displayed percentage is the nearest thousandth: it differs from
/// `1000 * wins / (wins + losses)` by at most half a thousandth.
pub proof fn lemma_pct_milli_nearest(wins: nat, losses: nat)
    requires
        wins + losses > 0,
    ensures
        ({
            let t = wins + losses;
            let m = pct_milli(wins, losses);
            &&& 2 * (1000 * wins - m * t) <= t
            &&& 2 * (m * t - 1000 * wins) <= t
        }),
{
    let t = wins + losses;
    let q = (1000 * wins) / t;
    let r = (1000 * wins) % t;
    assert(q * t + r == 1000 * wins && 0 <= r < t) by (nonlinear_arith)
        requires t > 0, q == (1000 * wins) / t, r == (1000 * wins) % t;
    let m = pct_milli(wins, losses);
    if m == q {
        assert(m * t == q * t);
        assert(2 * r <= t);
    } else {
        assert(m == q + 1);
        assert(m * t == q * t + t) by (nonlinear_arith)
            requires m == q + 1;
        assert(2 * r >= t);
    }
}

impl TeamRecord {
    /// Winning percentage in thousandths (see `pct_milli`).
    pub fn win_pct_milli(&self) -> (m: u64)
        ensures
            m == pct_milli(self.wins as nat, self.losses as nat),
            m <= 1000,
    {
        proof {
            lemma_pct_milli_bound(self.wins as nat, self.losses as nat);
        }
        let t: u64 = self.wins as u64 + self.losses as u64;
        if t == 0 {
            return 0;
        }
        let w: u64 = self.wins as u64;
        let q: u64 = (1000 * w) / t;
        let r: u64 = (1000 * w) % t;
        if 2 * r > t {
            q + 1
        } else if 2 * r < t {
            q
        } else {
            assert(q < 1000) by (nonlinear_arith)
                requires
                    q == (1000 * w as int) / (t as int),
                    r == (1000 * w as int) % (t as int),
                    2 * r == t,
                    t > 0,
                    w <= t,
            {
                assert(q * t + r == 1000 * w);
            }
            let n: u64 = 2 * q + 1;
            let up = if n % 125 == 0 { q % 2 == 1 } else { nearest_double_above_exec(n) };
            if up {
                q + 1
            } else {
                q
            }
        }
    }
}

fn push_pct(s: &mut String, m: u64)
    requires
        m <= 1000,
    ensures
        final(s)@ == old(s)@ + pct_text(m as nat),
{
    push_decimal(s, m / 1000);
    s.append(".");
    push_decimal(s, (m % 1000) / 100);
    push_decimal(s, (m % 100) / 10);
    push_decimal(s, m % 10);
    assert(s@ =~= old(s)@ + pct_text(m as nat));
}

proof fn lemma_digit_char_value(k: int)
    requires
        0 <= k < 10,
    ensures
        (digit_char(k) as int) - ('0' as int) == k,
        is_digit(digit_char(k)),
{
}

/// Every character of `decimal(n)` is a digit, and the digits read back as
/// `n`.
proof fn lemma_decimal_digits(n: nat)
    ensures
        all_digits(decimal(n)),
        digits_value(decimal(n)) == n,
        decimal(n).len() > 0,
    decreases n,
{
    let d = decimal(n);
    lemma_digit_char_value((n % 10) as int);
    if n < 10 {
        assert(d.drop_last() =~= Seq::<char>::empty());
        assert(digits_value(d) == digits_value(d.drop_last()) * 10 + n);
    } else {
        lemma_decimal_digits(n / 10);
        assert(d.drop_last() =~= decimal(n / 10));
        assert(d.last() == digit_char((n % 10) as int));
        assert(digits_value(d) == digits_value(decimal(n / 10)) * 10 + (n % 10));
        assert((n / 10) * 10 + n % 10 == n);
        assert forall|i: int| 0 <= i < d.len() implies is_digit(#[trigger] d[i]) by {
            if i < d.len() - 1 {
                assert(d[i] == decimal(n / 10)[i]);
            }
        }
    }
}

/// The season as displayed reads back, as `str::parse::<u32>` reads it, as
/// the season itself; it starts with a digit other than `0` unless the
/// season is 0 (no sign, no leading zero, nothing after the digits).
pub proof fn lemma_season_display_parses(season: u32)
    ensures
        parsed_u32(decimal(season as nat)) == Some(season),
        is_digit(decimal(season as nat)[0]),
        season > 0 ==> decimal(season as nat)[0] != '0',
{
    lemma_decimal_digits(season as nat);
    lemma_decimal_leading(season as nat);
    assert(unsigned_digits(decimal(season as nat)) == decimal(season as nat));
}

proof fn lemma_decimal_leading(n: nat)
    ensures
        decimal(n).len() > 0,
        n > 0 ==> decimal(n)[0] != '0',
        n < 10 ==> decimal(n)[0] == digit_char(n as int),
        is_digit(decimal(n)[0]),
    decreases n,
{
    if n >= 10 {
        lemma_decimal_leading(n / 10);
        assert(decimal(n)[0] == decimal(n / 10)[0]);
    }
}

// ---------------------------------------------------------------------
// Tables
// ---------------------------------------------------------------------

/// The column header: `#`, `Team`, `W`, `L`, `PCT`, `GB`.
pub open spec fn header_line() -> Seq<char> {
    pad_right("#"@, 4) + " "@ + pad_right("Team"@, 4) + " "@ + pad_left("W"@, 3) + " "@
        + pad_left("L"@, 3) + "  "@ + pad_left("PCT"@, 5) + "  "@ + pad_left("GB"@, 4)
}

/// The rule under the header: 30 box-drawing horizontals.
pub open spec fn rule_line() -> Seq<char> {
    repeated('\u{2500}', 30)
}

/// The dashed line under the last wild card spot.
pub open spec fn cutoff_line() -> Seq<char> {
    repeated('\u{2504}', 30)
}

/// A team's row: position, abbreviation, wins, losses, percentage, games
/// behind.
pub open spec fn row_line(position: nat, r: TeamRecord) -> Seq<char> {
    pad_right(decimal(position), 4) + " "@ + pad_right(r.team.abbreviation@, 4) + " "@
        + pad_left(decimal(r.wins as nat), 3) + " "@ + pad_left(decimal(r.losses as nat), 3) + "  "@
        + pct_text(pct_milli(r.wins as nat, r.losses as nat)) + "  "@
        + pad_left(gb_text(r.games_behind_halves as int), 4)
}

/// The rows of `records`, numbered from 1.
pub open spec fn rows(records: Seq<TeamRecord>) -> Seq<Seq<char>> {
    Seq::new(records.len(), |i: int| row_line((i + 1) as nat, records[i]))
}

/// The lines of a division table: header, rule, one row per team.
pub open spec fn division_lines(records: Seq<TeamRecord>) -> Seq<Seq<char>> {
    seq![header_line(), rule_line()] + rows(records)
}

/// The first `n` rows of a wild card table, each followed by the cutoff
/// line when it holds the last wild card spot and more teams follow.
pub open spec fn wild_card_rows(records: Seq<TeamRecord>, spots: nat, n: nat) -> Seq<Seq<char>>
    decreases n,
{
    if n == 0 {
        Seq::empty()
    } else {
        let before = wild_card_rows(records, spots, (n - 1) as nat).push(
            row_line(n, records[n - 1]),
        );
        if n == spots && n < records.len() {
            before.push(cutoff_line())
        } else {
            before
        }
    }
}

/// The lines of a wild card table: header, rule, one row per team, and the
/// cutoff line after the last wild card spot when more teams follow.
pub open spec fn wild_card_lines(records: Seq<TeamRecord>, spots: nat) -> Seq<Seq<char>> {
    seq![header_line(), rule_line()] + wild_card_rows(records, spots, records.len())
}

proof fn lemma_join_push(lines: Seq<Seq<char>>, x: Seq<char>)
    requires
        lines.len() >= 1,
    ensures
        join_lines(lines.push(x)) == join_lines(lines) + seq!['\n'] + x,
{
    assert(lines.push(x).drop_last() =~= lines);
}

/// Whether a wild card table has a cutoff line: there is a spot, and more
/// teams than spots.
pub open spec fn has_cutoff(records: Seq<TeamRecord>, spots: nat) -> bool {
    0 < spots < records.len()
}

/// Where team `j`'s row stands among the rows: after the cutoff line when
/// the team is beyond the last spot.
pub open spec fn row_slot(records: Seq<TeamRecord>, spots: nat, j: int) -> int {
    if has_cutoff(records, spots) && j >= spots { j + 1 } else { j }
}

proof fn lemma_row_not_cutoff(position: nat, r: TeamRecord)
    ensures
        row_line(position, r) != cutoff_line(),
{
    lemma_decimal_leading(position);
    let d = decimal(position);
    let p = pad_right(d, 4);
    assert(p[0] == d[0]);
    let row = row_line(position, r);
    assert(row[0] == p[0]);
    assert(cutoff_line()[0] == '\u{2504}');
}

proof fn lemma_wild_card_rows_shape(records: Seq<TeamRecord>, spots: nat, n: nat)
    requires
        n <= records.len(),
    ensures
        ({
            let w = wild_card_rows(records, spots, n);
            let cut = 1 <= spots <= n && spots < records.len();
            &&& w.len() == n + (if cut { 1int } else { 0 })
            &&& forall|j: int|
                0 <= j < n ==> w[if cut && j >= spots { j + 1 } else { j }] == row_line(
                    (j + 1) as nat,
                    #[trigger] records[j],
                )
            &&& forall|i: int| 0 <= i < w.len() ==> (#[trigger] w[i] == cutoff_line() <==> cut && i == spots)
        }),
    decreases n,
{
    if n > 0 {
        let m = (n - 1) as nat;
        lemma_wild_card_rows_shape(records, spots, m);
        lemma_row_not_cutoff(n, records[n - 1]);
        let prev = wild_card_rows(records, spots, m);
        let before = prev.push(row_line(n, records[n - 1]));
        assert forall|i: int| 0 <= i < prev.len() implies before[i] == prev[i] by {}
        if n == spots && n < records.len() {
            let w = before.push(cutoff_line());
            assert forall|i: int| 0 <= i < prev.len() implies w[i] == prev[i] by {}
        }
    }
}

/// A wild card table has its cutoff line exactly once when there is a spot
/// and more teams than spots, directly after the row numbered by the spot
/// count, and nowhere otherwise; below the header and rule, every team's
/// row keeps its place, numbered from 1, shifted past the cutoff line.
pub proof fn lemma_wild_card_cutoff(records: Seq<TeamRecord>, spots: nat)
    ensures
        ({
            let lines = wild_card_lines(records, spots);
            &&& lines.len() == records.len() + 2 + (if has_cutoff(records, spots) { 1int } else { 0 })
            &&& forall|i: int|
                0 <= i < lines.len() ==> (#[trigger] lines[i] == cutoff_line() <==> has_cutoff(
                    records,
                    spots,
                ) && i == spots + 2)
            &&& forall|j: int|
                0 <= j < records.len() ==> lines[row_slot(records, spots, j) + 2] == row_line(
                    (j + 1) as nat,
                    #[trigger] records[j],
                )
        }),
{
    reveal_strlit("#");
    let n = records.len();
    lemma_wild_card_rows_shape(records, spots, n);
    let w = wild_card_rows(records, spots, n);
    let lines = wild_card_lines(records, spots);
    assert(header_line()[0] == '#');
    assert(rule_line()[0] == '\u{2500}');
    assert(cutoff_line()[0] == '\u{2504}');
    assert(lines[0] == header_line());
    assert(lines[1] == rule_line());
    assert forall|i: int| 0 <= i < w.len() implies lines[i + 2] == w[i] by {}
    assert forall|i: int|
        0 <= i < lines.len() implies (#[trigger] lines[i] == cutoff_line() <==> has_cutoff(records, spots)
        && i == spots + 2) by {
        if i >= 2 {
            assert(lines[i] == w[i - 2]);
        }
    }
    assert forall|j: int| 0 <= j < records.len() implies lines[row_slot(records, spots, j) + 2] == row_line(
        (j + 1) as nat,
        #[trigger] records[j],
    ) by {
        assert(lines[row_slot(records, spots, j) + 2] == w[row_slot(records, spots, j)]);
    }
}

fn push_header(s: &mut String)
    ensures
        final(s)@ == old(s)@ + header_line(),
{
    let mut t = String::new();
    push_pad_right(&mut t, "#", 4);
    assert(t@ =~= pad_right("#"@, 4));
    t.append(" ");
    push_pad_right(&mut t, "Team", 4);
    t.append(" ");
    push_pad_left(&mut t, "W", 3);
    t.append(" ");
    push_pad_left(&mut t, "L", 3);
    t.append("  ");
    push_pad_left(&mut t, "PCT", 5);
    t.append("  ");
    push_pad_left(&mut t, "GB", 4);
    s.append(t.as_str());
}

fn push_row(s: &mut String, position: u64, r: &TeamRecord)
    ensures
        final(s)@ == old(s)@ + row_line(position as nat, *r),
{
    let mut t = String::new();
    push_pad_right(&mut t, decimal_string(position).as_str(), 4);
    assert(t@ =~= pad_right(decimal(position as nat), 4));
    t.append(" ");
    push_pad_right(&mut t, r.team.abbreviation.as_str(), 4);
    t.append(" ");
    push_pad_left(&mut t, decimal_string(r.wins as u64).as_str(), 3);
    t.append(" ");
    push_pad_left(&mut t, decimal_string(r.losses as u64).as_str(), 3);
    t.append("  ");
    push_pct(&mut t, r.win_pct_milli());
    t.append("  ");
    push_pad_left(&mut t, format_gb(r.games_behind_halves).as_str(), 4);
    s.append(t.as_str());
}

/// Header and rule: the first two lines of every table.
fn table_start() -> (s: String)
    ensures
        s@ == join_lines(seq![header_line(), rule_line()]),
{
    let mut s = String::new();
    push_header(&mut s);
    push_char(&mut s, '\n');
    push_repeated(&mut s, '\u{2500}', 30);
    proof {
        let two = seq![header_line(), rule_line()];
        assert(two.drop_last() =~= seq![header_line()]);
        assert(join_lines(seq![header_line()]) == header_line());
        assert(two.last() == rule_line());
        assert(s@ =~= join_lines(two.drop_last()) + seq!['\n'] + two.last());
    }
    s
}

/// A division table: header, rule, and one row per team.
pub fn build_division_table(records: &[TeamRecord]) -> (table: String)
    ensures
        table@ == join_lines(division_lines(records@)),
{
    let mut s = table_start();
    let ghost start = seq![header_line(), rule_line()];
    let mut i: usize = 0;
    while i < records.len()
        invariant
            start == seq![header_line(), rule_line()],
            i <= records@.len(),
            s@ == join_lines(start + rows(records@).take(i as int)),
        decreases records.len() - i,
    {
        proof {
            lemma_join_push(start + rows(records@).take(i as int), row_line((i + 1) as nat, records@[i as int]));
            assert(start + rows(records@).take(i + 1) =~= (start + rows(records@).take(i as int)).push(
                row_line((i + 1) as nat, records@[i as int]),
            ));
        }
        push_char(&mut s, '\n');
        push_row(&mut s, i as u64 + 1, &records[i]);
        i = i + 1;
    }
    assert(rows(records@).take(records@.len() as int) =~= rows(records@));
    s
}

/// A wild card table: header, rule, one row per team, and a dashed line
/// after the last of `wc_spots` spots when more teams follow.
pub fn build_wild_card_table(records: &[TeamRecord], wc_spots: usize) -> (table: String)
    ensures
        table@ == join_lines(wild_card_lines(records@, wc_spots as nat)),
{
    let mut s = table_start();
    let ghost start = seq![header_line(), rule_line()];
    let mut i: usize = 0;
    while i < records.len()
        invariant
            start == seq![header_line(), rule_line()],
            i <= records@.len(),
            s@ == join_lines(start + wild_card_rows(records@, wc_spots as nat, i as nat)),
        decreases records.len() - i,
    {
        let ghost before = start + wild_card_rows(records@, wc_spots as nat, i as nat);
        let ghost row = row_line((i + 1) as nat, records@[i as int]);
        proof {
            lemma_join_push(before, row);
        }
        push_char(&mut s, '\n');
        push_row(&mut s, i as u64 + 1, &records[i]);
        if i + 1 == wc_spots && i + 1 < records.len() {
            proof {
                lemma_join_push(before.push(row), cutoff_line());
            }
            push_char(&mut s, '\n');
            push_repeated(&mut s, '\u{2504}', 30);
        }
        proof {
            let after = wild_card_rows(records@, wc_spots as nat, (i + 1) as nat);
            if i + 1 == wc_spots && i + 1 < records.len() {
                assert(start + after =~= before.push(row).push(cutoff_line()));
            } else {
                assert(start + after =~= before.push(row));
            }
        }
        i = i + 1;
    }
    s
}

// ---------------------------------------------------------------------
// Embeds
// ---------------------------------------------------------------------

/// AL embed colour (MLB navy).
pub const AL_COLOUR: u32 = 0x002D72;

/// NL embed colour (MLB red).
pub const NL_COLOUR: u32 = 0xD50032;

/// The embed colour of a league: navy for "American", red otherwise.
pub open spec fn colour_of(league: Seq<char>) -> u32 {
    if league == "American"@ { AL_COLOUR } else { NL_COLOUR }
}

/// The embed colour of a league.
pub fn league_colour(league: &str) -> (c: u32)
    ensures
        c == colour_of(league@),
{
    if crate::text::str_eq(league, "American") {
        AL_COLOUR
    } else {
        NL_COLOUR
    }
}

/// "AL East — 2025" and the like.
pub open spec fn embed_title_text(name: Seq<char>, season: Seq<char>) -> Seq<char> {
    name + " \u{2014} "@ + season
}

/// The table in a code block.
pub open spec fn embed_description_text(table: Seq<char>) -> Seq<char> {
    "```\n"@ + table + "\n```"@
}

pub open spec fn embed_footer_text(timestamp: Seq<char>) -> Seq<char> {
    "Updated "@ + timestamp
}

/// What an embed shows: title, description, side colour and footer.
#[derive(Debug)]
pub struct EmbedContent {
    pub title: String,
    pub description: String,
    pub colour: u32,
    pub footer: String,
}

fn embed_content(name: &str, league: &str, table: String, season_str: &str, timestamp: &str) -> (e: EmbedContent)
    ensures
        e.title@ == embed_title_text(name@, season_str@),
        e.description@ == embed_description_text(table@),
        e.colour == colour_of(league@),
        e.footer@ == embed_footer_text(timestamp@),
{
    let mut title = String::new();
    title.append(name);
    title.append(" \u{2014} ");
    title.append(season_str);
    assert(title@ =~= embed_title_text(name@, season_str@));
    let mut description = String::new();
    description.append("```\n");
    description.append(table.as_str());
    description.append("\n```");
    assert(description@ =~= embed_description_text(table@));
    let mut footer = String::new();
    footer.append("Updated ");
    footer.append(timestamp);
    assert(footer@ =~= embed_footer_text(timestamp@));
    EmbedContent { title, description, colour: league_colour(league), footer }
}

/// What a division's embed shows.
pub fn division_embed_content(div: &DivisionStandings, season_str: &str, timestamp: &str) -> (e: EmbedContent)
    ensures
        e.title@ == embed_title_text(div.name@, season_str@),
        e.description@ == embed_description_text(join_lines(division_lines(div.teams@))),
        e.colour == colour_of(div.league@),
        e.footer@ == embed_footer_text(timestamp@),
{
    let table = build_division_table(div.teams.as_slice());
    embed_content(div.name.as_str(), div.league.as_str(), table, season_str, timestamp)
}

/// What a wild card race's embed shows.
pub fn wild_card_embed_content(wc: &WildCardStandings, season_str: &str, timestamp: &str) -> (e: EmbedContent)
    ensures
        e.title@ == embed_title_text(wc.name@, season_str@),
        e.description@ == embed_description_text(join_lines(wild_card_lines(wc.teams@, WILD_CARD_SPOTS as nat))),
        e.colour == colour_of(wc.league@),
        e.footer@ == embed_footer_text(timestamp@),
{
    let table = build_wild_card_table(wc.teams.as_slice(), WILD_CARD_SPOTS);
    embed_content(wc.name.as_str(), wc.league.as_str(), table, season_str, timestamp)
}

/// `start` with its title, description, side colour and footer set, in
/// that order, by serenity's embed setters.
pub open spec fn dressed(
    start: CreateEmbed,
    title: Seq<char>,
    description: Seq<char>,
    colour: u32,
    footer: Seq<char>,
) -> CreateEmbed {
    footed(
        coloured(described(titled(start, title), description), colour_with(colour)),
        footer_with(footer),
    )
}

/// `e` is a new embed with the given title, description, side colour and
/// footer text set on it.
pub open spec fn embed_shows(
    e: CreateEmbed,
    title: Seq<char>,
    description: Seq<char>,
    colour: u32,
    footer: Seq<char>,
) -> bool {
    exists|start: CreateEmbed| e == #[trigger] dressed(start, title, description, colour, footer)
}

/// The serenity embed showing `content`.
pub fn embed_from(content: EmbedContent) -> (e: CreateEmbed)
    ensures
        embed_shows(e, content.title@, content.description@, content.colour, content.footer@),
{
    let ghost (title, description, colour, footer) = (
        content.title@,
        content.description@,
        content.colour,
        content.footer@,
    );
    let start = embed_new();
    let e = embed_title(start, content.title);
    let e = embed_description(e, content.description);
    let e = embed_colour(e, colour_new(content.colour));
    let e = embed_footer(e, footer_new(content.footer));
    assert(e == dressed(start, title, description, colour, footer));
    e
}

/// A Discord embed for a division's standings.
pub fn build_division_embed(div: &DivisionStandings, season_str: &str, timestamp: &str) -> (e: CreateEmbed)
    ensures
        embed_shows(
            e,
            embed_title_text(div.name@, season_str@),
            embed_description_text(join_lines(division_lines(div.teams@))),
            colour_of(div.league@),
            embed_footer_text(timestamp@),
        ),
{
    embed_from(division_embed_content(div, season_str, timestamp))
}

/// A Discord embed for a wild card race.
pub fn build_wild_card_embed(wc: &WildCardStandings, season_str: &str, timestamp: &str) -> (e: CreateEmbed)
    ensures
        embed_shows(
            e,
            embed_title_text(wc.name@, season_str@),
            embed_description_text(join_lines(wild_card_lines(wc.teams@, WILD_CARD_SPOTS as nat))),
            colour_of(wc.league@),
            embed_footer_text(timestamp@),
        ),
{
    embed_from(wild_card_embed_content(wc, season_str, timestamp))
}

/// What the standings embeds show, at the given timestamp: one embed per
/// division, then one per wild card race, titled with the season.
pub fn standings_embed_contents(standings: &Standings, timestamp: &str) -> (contents: Vec<EmbedContent>)
    ensures
        contents@.len() == standings.divisions@.len() + standings.wild_cards@.len(),
        forall|k: int|
            0 <= k < standings.divisions@.len() ==> {
                let e = #[trigger] contents@[k];
                let d = standings.divisions@[k];
                &&& e.title@ == embed_title_text(d.name@, decimal(standings.season as nat))
                &&& e.description@ == embed_description_text(join_lines(division_lines(d.teams@)))
                &&& e.colour == colour_of(d.league@)
                &&& e.footer@ == embed_footer_text(timestamp@)
            },
        forall|k: int|
            0 <= k < standings.wild_cards@.len() ==> {
                let e = #[trigger] contents@[standings.divisions@.len() + k];
                let w = standings.wild_cards@[k];
                &&& e.title@ == embed_title_text(w.name@, decimal(standings.season as nat))
                &&& e.description@ == embed_description_text(
                    join_lines(wild_card_lines(w.teams@, WILD_CARD_SPOTS as nat)),
                )
                &&& e.colour == colour_of(w.league@)
                &&& e.footer@ == embed_footer_text(timestamp@)
            },
{
    let season_str = season_display(standings.season);
    let mut contents: Vec<EmbedContent> = Vec::new();
    let mut i: usize = 0;
    while i < standings.divisions.len()
        invariant
            season_str@ == decimal(standings.season as nat),
            i <= standings.divisions@.len(),
            contents@.len() == i,
            forall|k: int|
                0 <= k < i ==> {
                    let e = #[trigger] contents@[k];
                    let d = standings.divisions@[k];
                    &&& e.title@ == embed_title_text(d.name@, decimal(standings.season as nat))
                    &&& e.description@ == embed_description_text(join_lines(division_lines(d.teams@)))
                    &&& e.colour == colour_of(d.league@)
                    &&& e.footer@ == embed_footer_text(timestamp@)
                },
        decreases standings.divisions.len() - i,
    {
        contents.push(division_embed_content(&standings.divisions[i], season_str.as_str(), timestamp));
        i = i + 1;
    }
    let n = standings.divisions.len();
    let mut j: usize = 0;
    while j < standings.wild_cards.len()
        invariant
            season_str@ == decimal(standings.season as nat),
            n == standings.divisions@.len(),
            j <= standings.wild_cards@.len(),
            contents@.len() == n + j,
            forall|k: int|
                0 <= k < n ==> {
                    let e = #[trigger] contents@[k];
                    let d = standings.divisions@[k];
                    &&& e.title@ == embed_title_text(d.name@, decimal(standings.season as nat))
                    &&& e.description@ == embed_description_text(join_lines(division_lines(d.teams@)))
                    &&& e.colour == colour_of(d.league@)
                    &&& e.footer@ == embed_footer_text(timestamp@)
                },
            forall|k: int|
                0 <= k < j ==> {
                    let e = #[trigger] contents@[n + k];
                    let w = standings.wild_cards@[k];
                    &&& e.title@ == embed_title_text(w.name@, decimal(standings.season as nat))
                    &&& e.description@ == embed_description_text(
                        join_lines(wild_card_lines(w.teams@, WILD_CARD_SPOTS as nat)),
                    )
                    &&& e.colour == colour_of(w.league@)
                    &&& e.footer@ == embed_footer_text(timestamp@)
                },
        decreases standings.wild_cards.len() - j,
    {
        contents.push(wild_card_embed_content(&standings.wild_cards[j], season_str.as_str(), timestamp));
        j = j + 1;
    }
    contents
}

/// The serenity embeds showing `contents`, in order.
pub fn embeds_from(contents: Vec<EmbedContent>) -> (embeds: Vec<CreateEmbed>)
    ensures
        embeds@.len() == contents@.len(),
        forall|k: int|
            0 <= k < contents@.len() ==> embed_shows(
                #[trigger] embeds@[k],
                contents@[k].title@,
                contents@[k].description@,
                contents@[k].colour,
                contents@[k].footer@,
            ),
{
    let ghost cs = contents@;
    let mut embeds: Vec<CreateEmbed> = Vec::new();
    for c in it: contents.into_iter()
        invariant
            it.seq() == cs,
            embeds@.len() == it.index(),
            forall|k: int|
                0 <= k < it.index() ==> embed_shows(
                    #[trigger] embeds@[k],
                    cs[k].title@,
                    cs[k].description@,
                    cs[k].colour,
                    cs[k].footer@,
                ),
    {
        embeds.push(embed_from(c));
    }
    embeds
}

/// `embeds` shows `standings` with the footer stamped `timestamp`: one
/// embed per division, then one per wild card race, each titled with the
/// season as displayed.
pub open spec fn shows_standings(embeds: Seq<CreateEmbed>, standings: Standings, timestamp: Seq<char>) -> bool {
    let season = decimal(standings.season as nat);
    let n = standings.divisions@.len();
    &&& embeds.len() == n + standings.wild_cards@.len()
    &&& forall|k: int|
        0 <= k < n ==> {
            let d = standings.divisions@[k];
            embed_shows(
                #[trigger] embeds[k],
                embed_title_text(d.name@, season),
                embed_description_text(join_lines(division_lines(d.teams@))),
                colour_of(d.league@),
                embed_footer_text(timestamp),
            )
        }
    &&& forall|k: int|
        0 <= k < standings.wild_cards@.len() ==> {
            let w = standings.wild_cards@[k];
            embed_shows(
                #[trigger] embeds[n + k],
                embed_title_text(w.name@, season),
                embed_description_text(join_lines(wild_card_lines(w.teams@, WILD_CARD_SPOTS as nat))),
                colour_of(w.league@),
                embed_footer_text(timestamp),
            )
        }
}

/// `embeds` shows `standings` stamped with the text of some clock reading:
/// chrono's "%B %-d, %Y at %-I:%M %p UTC" text of an instant, which ends
/// with " UTC".
pub open spec fn shows_standings_stamped(embeds: Seq<CreateEmbed>, standings: Standings) -> bool {
    exists|secs: i64|
        #[trigger] timestamp_text(secs) matches Some(t) && utc_stamped(t) && shows_standings(
            embeds,
            standings,
            t,
        )
}

/// Discord embeds for the standings with the footer stamped `timestamp`:
/// one per division, then one per wild card race.
pub fn standings_embeds_at(standings: &Standings, timestamp: &str) -> (embeds: Vec<CreateEmbed>)
    ensures
        shows_standings(embeds@, *standings, timestamp@),
{
    let contents = standings_embed_contents(standings, timestamp);
    let embeds = embeds_from(contents);
    assert(shows_standings(embeds@, *standings, timestamp@));
    embeds
}

/// Discord embeds for the standings, stamped with the current time: one per
/// division, then one per wild card race (six and two for standings from
/// `compute_standings`, within Discord's limit of ten per message).
pub fn build_standings_embeds(standings: &Standings) -> (embeds: Vec<CreateEmbed>)
    ensures
        embeds@.len() == standings.divisions@.len() + standings.wild_cards@.len(),
        shows_standings_stamped(embeds@, *standings),
{
    let secs = utc_now_secs();
    let timestamp = match format_timestamp(secs) {
        Some(t) => t,
        None => {
            assert(false);
            String::new()
        },
    };
    let embeds = standings_embeds_at(standings, timestamp.as_str());
    assert(timestamp_text(secs) == Some(timestamp@));
    embeds
}

} // verus!
