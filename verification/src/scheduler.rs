//! The daily standings message.

use vstd::prelude::*;

use serenity::builder::{CreateEmbed, CreateMessage};

use crate::compute::Standings;
use crate::discord::{message_embeds, message_new, with_embeds};
use crate::format::{build_standings_embeds, shows_standings_stamped};

verus! {

/// `m` is a new message whose embeds were set, all at once, to embeds
/// showing `standings` stamped with the text of a clock reading.
pub open spec fn message_shows(m: CreateMessage, standings: Standings) -> bool {
    exists|start: CreateMessage, embeds: Seq<CreateEmbed>|
        #[trigger] with_embeds(start, embeds) == m && shows_standings_stamped(embeds, standings)
}

/// The Discord message carrying all standings embeds at once (set together,
/// so that none replaces another).
pub fn build_standings_message(standings: &Standings) -> (m: CreateMessage)
    ensures
        message_shows(m, *standings),
{
    let embeds = build_standings_embeds(standings);
    let ghost shown = embeds@;
    let start = message_new();
    let m = message_embeds(start, embeds);
    assert(with_embeds(start, shown) == m);
    m
}

} // verus!
