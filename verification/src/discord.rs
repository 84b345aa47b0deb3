//! Discord message builders from serenity. Verus sees their values as
//! opaque: each setter's result is named, and what goes into them is
//! computed and specified in `format`.

use vstd::prelude::*;

use serenity::all::Colour;
use serenity::builder::{CreateEmbed, CreateEmbedFooter, CreateMessage};

verus! {

#[verifier::external_type_specification]
#[verifier::external_body]
pub struct ExCreateEmbed(CreateEmbed);

#[verifier::external_type_specification]
#[verifier::external_body]
pub struct ExCreateEmbedFooter(CreateEmbedFooter);

#[verifier::external_type_specification]
#[verifier::external_body]
pub struct ExCreateMessage(CreateMessage);

#[verifier::external_type_specification]
#[verifier::external_body]
pub struct ExColour(Colour);

/// `CreateEmbed::new`: an embed with nothing set. Nothing is claimed of it.
#[verifier::external_body]
pub(crate) fn embed_new() -> CreateEmbed {
    CreateEmbed::new()
}

/// What `CreateEmbed::title` makes of `e`: `e` with its title set to `title`.
pub uninterp spec fn titled(e: CreateEmbed, title: Seq<char>) -> CreateEmbed;

/// What `CreateEmbed::description` makes of `e`: `e` with its description
/// set to `description`.
pub uninterp spec fn described(e: CreateEmbed, description: Seq<char>) -> CreateEmbed;

/// What `CreateEmbed::colour` makes of `e`: `e` with its side colour set to
/// `colour`.
pub uninterp spec fn coloured(e: CreateEmbed, colour: Colour) -> CreateEmbed;

/// What `CreateEmbed::footer` makes of `e`: `e` with its footer set to
/// `footer`.
pub uninterp spec fn footed(e: CreateEmbed, footer: CreateEmbedFooter) -> CreateEmbed;

/// What `CreateEmbedFooter::new` returns: a footer showing `text`.
pub uninterp spec fn footer_with(text: Seq<char>) -> CreateEmbedFooter;

/// What `Colour::new` returns: the colour with RGB value `value`.
pub uninterp spec fn colour_with(value: u32) -> Colour;

/// What `CreateMessage::embeds` makes of `m`: `m` with its embeds replaced
/// by `embeds`, in order.
pub uninterp spec fn with_embeds(m: CreateMessage, embeds: Seq<CreateEmbed>) -> CreateMessage;

/// `CreateEmbed::title`, which stores the title in the embed and hands the
/// embed back: the result is `titled` of the embed and the text.
#[verifier::external_body]
pub(crate) fn embed_title(e: CreateEmbed, title: String) -> (r: CreateEmbed)
    ensures
        r == titled(e, title@),
{
    e.title(title)
}

/// `CreateEmbed::description`, which stores the description in the embed
/// and hands the embed back: the result is `described` of the embed and the
/// text.
#[verifier::external_body]
pub(crate) fn embed_description(e: CreateEmbed, description: String) -> (r: CreateEmbed)
    ensures
        r == described(e, description@),
{
    e.description(description)
}

/// `CreateEmbed::colour`, which stores the colour in the embed and hands the
/// embed back: the result is `coloured` of the embed and the colour.
#[verifier::external_body]
pub(crate) fn embed_colour(e: CreateEmbed, colour: Colour) -> (r: CreateEmbed)
    ensures
        r == coloured(e, colour),
{
    e.colour(colour)
}

/// `CreateEmbed::footer`, which stores the footer in the embed and hands the
/// embed back: the result is `footed` of the embed and the footer.
#[verifier::external_body]
pub(crate) fn embed_footer(e: CreateEmbed, footer: CreateEmbedFooter) -> (r: CreateEmbed)
    ensures
        r == footed(e, footer),
{
    e.footer(footer)
}

/// `CreateEmbedFooter::new`, a footer holding the text and no icon: the
/// result is `footer_with` of the text.
#[verifier::external_body]
pub(crate) fn footer_new(text: String) -> (r: CreateEmbedFooter)
    ensures
        r == footer_with(text@),
{
    CreateEmbedFooter::new(text)
}

/// `Colour::new`, the colour wrapping the RGB value: the result is
/// `colour_with` of the value.
#[verifier::external_body]
pub(crate) fn colour_new(value: u32) -> (r: Colour)
    ensures
        r == colour_with(value),
{
    Colour::new(value)
}

/// `CreateMessage::new`: a message with nothing set. Nothing is claimed of
/// it.
#[verifier::external_body]
pub(crate) fn message_new() -> CreateMessage {
    CreateMessage::new()
}

/// `CreateMessage::embeds`, which replaces the message's embeds by `embeds`
/// and hands the message back: the result is `with_embeds` of the message
/// and the embeds in order.
#[verifier::external_body]
pub(crate) fn message_embeds(m: CreateMessage, embeds: Vec<CreateEmbed>) -> (r: CreateMessage)
    ensures
        r == with_embeds(m, embeds@),
{
    m.embeds(embeds)
}

} // verus!
