//! What a message holds: whether it is shown, its text, its attachments and
//! the model it is attributed to.

use crate::models::{chars, AssetPointer, AssetView, Content, Conversation, Message, MessageView,
    Part, PartView};
use crate::text::text_eq;
use vstd::prelude::*;

verus! {

/// Whether `c` is white space, as `char::is_whitespace` answers.
pub uninterp spec fn is_whitespace(c: char) -> bool;

/// A text that holds nothing but white space. The empty text is blank.
pub open spec fn blank(text: Seq<char>) -> bool {
    forall|i: int| 0 <= i < text.len() ==> is_whitespace(#[trigger] text[i])
}

/// The message's metadata mark it as hidden from the conversation.
pub open spec fn hidden(message: MessageView) -> bool {
    message.metadata matches Some(metadata)
        && metadata.is_visually_hidden_from_conversation == Some(true)
}

/// Every part is a fragment of text that is blank. So it is where there is
/// no part at all.
pub open spec fn without_content(parts: Seq<PartView>) -> bool {
    forall|i: int|
        0 <= i < parts.len() ==> (#[trigger] parts[i] matches PartView::Text(text) && blank(text))
}

/// The message is left out of a linearization: it is hidden, or it has no
/// content.
pub open spec fn skipped(message: MessageView) -> bool {
    hidden(message) || without_content(message.content.parts)
}

/// The text of the last part that is a fragment of text.
pub open spec fn last_text(parts: Seq<PartView>) -> Option<Seq<char>>
    decreases parts.len(),
{
    if parts.len() == 0 {
        None
    } else {
        match parts.last() {
            PartView::Text(text) => Some(text),
            _ => last_text(parts.drop_last()),
        }
    }
}

/// The attachment descriptors among the parts, in their order.
pub open spec fn attachments(parts: Seq<PartView>) -> Seq<AssetView>
    decreases parts.len(),
{
    if parts.len() == 0 {
        Seq::empty()
    } else {
        match parts.last() {
            PartView::Attachment(asset) => attachments(parts.drop_last()).push(asset),
            _ => attachments(parts.drop_last()),
        }
    }
}

/// The values of a list of attachment descriptors.
pub open spec fn asset_views(assets: Seq<AssetPointer>) -> Seq<AssetView> {
    assets.map_values(|asset: AssetPointer| asset@)
}

/// The model that a message is attributed to: none unless an assistant wrote
/// it; then the one that the message's own metadata name, else `fallback`.
pub open spec fn attributed_model(message: MessageView, fallback: Option<Seq<char>>) -> Option<
    Seq<char>,
> {
    if message.author.role == "assistant"@ {
        match message.metadata {
            Some(metadata) => match metadata.model_slug {
                Some(model) => Some(model),
                None => fallback,
            },
            None => fallback,
        }
    } else {
        None
    }
}

/// Calls `char::is_whitespace`: whether `c` has the Unicode property
/// White_Space. The answer is taken as a fixed property of the character.
#[verifier::external_body]
fn char_is_whitespace(c: char) -> (r: bool)
    ensures
        r == is_whitespace(c),
{
    c.is_whitespace()
}

/// Whether `text` holds nothing but white space.
pub fn is_blank(text: &str) -> (r: bool)
    ensures
        r == blank(text@),
{
    broadcast use vstd::string::group_string_axioms;

    for c in it: text.chars()
        invariant
            it.seq() == text@,
            forall|i: int| 0 <= i < it.index() ==> is_whitespace(#[trigger] text@[i]),
    {
        if !char_is_whitespace(c) {
            return false;
        }
    }
    true
}

/// A copy of an optional text.
pub fn copy_text(text: &Option<String>) -> (r: Option<String>)
    ensures
        r == *text,
{
    match text {
        Some(s) => Some(s.clone()),
        None => None,
    }
}

/// A copy of an attachment descriptor.
pub fn copy_asset(asset: &AssetPointer) -> (r: AssetPointer)
    ensures
        r == *asset,
{
    AssetPointer {
        asset_pointer: asset.asset_pointer.clone(),
        content_type: asset.content_type.clone(),
        size_bytes: asset.size_bytes,
        width: asset.width,
        height: asset.height,
        metadata: copy_text(&asset.metadata),
    }
}

/// Whether a message is left out of a linearization.
pub fn should_skip_message(msg: &Message) -> (r: bool)
    ensures
        r == skipped(msg@),
{
    if let Some(metadata) = &msg.metadata {
        if let Some(flag) = metadata.is_visually_hidden_from_conversation {
            if flag {
                return true;
            }
        }
    }
    let parts = &msg.content.parts;
    let mut i: usize = 0;
    while i < parts.len()
        invariant
            !hidden(msg@),
            parts == &msg.content.parts,
            i <= parts.len(),
            forall|k: int|
                0 <= k < i ==> (#[trigger] msg@.content.parts[k] matches PartView::Text(text)
                    && blank(text)),
        decreases parts.len() - i,
    {
        assert(msg@.content.parts[i as int] == parts@[i as int]@);
        match &parts[i] {
            Part::Text(text) => {
                if !is_blank(text.as_str()) {
                    return false;
                }
            },
            _ => {
                return false;
            },
        }
        i += 1;
    }
    true
}

/// Splits a message's content into its text and its attachment descriptors:
/// the text of the last text part, and the descriptors in their order.
pub fn extract_content_and_assets(content: &Content) -> (r: (Option<String>, Vec<AssetPointer>))
    ensures
        chars(r.0) == last_text(content@.parts),
        asset_views(r.1@) == attachments(content@.parts),
{
    let mut text_content: Option<String> = None;
    let mut assets: Vec<AssetPointer> = Vec::new();
    let parts = &content.parts;
    let mut i: usize = 0;
    while i < parts.len()
        invariant
            parts == &content.parts,
            i <= parts.len(),
            chars(text_content) == last_text(content@.parts.take(i as int)),
            asset_views(assets@) == attachments(content@.parts.take(i as int)),
        decreases parts.len() - i,
    {
        let ghost seen = asset_views(assets@);
        proof {
            assert(content@.parts.take(i + 1).drop_last() =~= content@.parts.take(i as int));
            assert(content@.parts.take(i + 1).last() == parts@[i as int]@);
        }
        match &parts[i] {
            Part::Text(text) => {
                text_content = Some(text.clone());
            },
            Part::Attachment(asset) => {
                assets.push(copy_asset(asset));
                assert(asset_views(assets@) =~= seen.push(asset@));
            },
            Part::Other => {},
        }
        i += 1;
    }
    proof {
        assert(content@.parts.take(parts@.len() as int) =~= content@.parts);
    }
    (text_content, assets)
}

/// The model that a message is attributed to.
pub fn extract_model_slug(msg: &Message, conv: &Conversation) -> (r: Option<String>)
    ensures
        chars(r) == attributed_model(msg@, chars(conv.model_slug)),
{
    if text_eq(msg.author.role.as_str(), "assistant") {
        if let Some(metadata) = &msg.metadata {
            if let Some(model) = &metadata.model_slug {
                return Some(model.clone());
            }
        }
        copy_text(&conv.model_slug)
    } else {
        None
    }
}

} // verus!
