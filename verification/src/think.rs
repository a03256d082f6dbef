//! Healing for reasoning models that leak `<think>` markup into text content.
//!
//! Thinking models are supposed to expose chain of thought in a separate
//! `reasoning_content` (or `reasoning`) field. Deployments without a matching
//! reasoning parser let the raw chat-template markup land in the assistant
//! `content` instead:
//!
//! ```text
//! <think>The user said hi. I should greet them back.</think>Hello!
//! ```
//!
//! This module splits the markup back out, so that thinking goes to the reasoning
//! channel and never reaches the visible message.
//!
//! Some chat templates pre-fill the opening `<think>` into the prompt, so the
//! model only ever emits the *closing* tag. A `</think>` seen before any visible
//! text has been emitted is therefore treated as terminating an implicit
//! reasoning block.

pub mod filter;
pub mod heal;
pub mod laws;
pub mod opening;

pub use self::filter::{contains_think_markup, ThinkSplit, ThinkStreamFilter};
pub use self::heal::heal_chat_message;
