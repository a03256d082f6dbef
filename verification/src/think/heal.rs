//! Healing of blocking Chat Completions messages.

use super::filter::{
    contains_think_markup, fresh_think, think_finish, think_push, Channels, ThinkSplit,
    ThinkStreamFilter,
};
use super::laws::law_text_without_tags_fires_nothing;
use crate::types::{content_of, ChatMessage, MessageContent, MessageView};
use vstd::prelude::*;
use vstd::string::*;

verus! {

/// The channels across which a whole text is split.
pub open spec fn split_whole(text: Seq<char>) -> Channels {
    let (st, now) = think_push(fresh_think(true), text);
    now.followed_by(think_finish(st))
}

/// Whether a whole text holds think markup that has a meaning.
pub open spec fn fires(text: Seq<char>) -> bool {
    think_push(fresh_think(true), text).0.fired
}

/// Whether a message with this text heals: it holds think markup that has a meaning,
/// and not only that.
pub open spec fn heals(text: Seq<char>) -> bool {
    fires(text) && split_whole(text) != Channels::none()
}

/// The message that healing makes of `m`: reasoning leaves the text and is added
/// to `reasoning_content`. A message without markup, or with nothing but markup,
/// stays as it is.
pub open spec fn think_healed(m: MessageView) -> MessageView {
    let split = split_whole(m.text());
    if heals(m.text()) {
        MessageView {
            content: content_of(split.text),
            reasoning_content: if split.reasoning.len() == 0 {
                m.reasoning_content
            } else {
                match m.reasoning_content {
                    Some(present) => Some(present + split.reasoning),
                    None => Some(split.reasoning),
                }
            },
            ..m
        }
    } else {
        m
    }
}

/// Heals a blocking Chat Completions assistant message in place: moves leaked
/// think markup out of the visible content and into `reasoning_content`. Says
/// whether the message healed, so that a caller can log it.
pub fn heal_chat_message(message: &mut ChatMessage) -> (r: bool)
    ensures
        final(message)@ == think_healed(old(message)@),
        r == heals(old(message)@.text()),
{
    let text: String = message.text_content().to_owned();
    if !contains_think_markup(text.as_str()) {
        proof {
            law_text_without_tags_fires_nothing(text@);
        }
        return false;
    }
    let mut filter: ThinkStreamFilter = ThinkStreamFilter::new(true);
    let mut split: ThinkSplit = filter.push(text.as_str());
    let fired: bool = filter.fired();
    let tail: ThinkSplit = filter.finish();
    split.reasoning.append(tail.reasoning.as_str());
    split.text.append(tail.text.as_str());
    assert(split@ =~= split_whole(text@));
    if !fired || split.is_empty() {
        return false;
    }
    message.content = if split.text.as_str().is_empty() {
        None
    } else {
        Some(MessageContent::Text(split.text))
    };
    if !split.reasoning.as_str().is_empty() {
        message.reasoning_content = match message.reasoning_content.take() {
            Some(present) => {
                let mut grown: String = present;
                grown.append(split.reasoning.as_str());
                Some(grown)
            },
            None => Some(split.reasoning),
        };
    }
    true
}

} // verus!
