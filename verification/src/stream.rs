//! Translation of an upstream Chat Completions SSE stream into a Responses API SSE
//! stream.
//!
//! Events emitted:
//!
//! * `response.created`: sent immediately with the response id allocated before
//! * `response.output_text.delta`: one per non-empty text chunk from upstream. The
//!   first chunks wait as long as they may turn out to be reasoning, and so does an
//!   end of text that may begin markup
//! * `response.reasoning_summary_text.delta`: one per non-empty piece of reasoning
//! * `response.output_item.added` and `response.output_item.done`: around reasoning
//!   and around tool calls, and before a message that does not come first
//! * `response.custom_tool_call_input.delta`: the text for a tool of free text
//! * `response.completed`: final event with the full accumulated response
//! * `response.failed`: in its place, where the stream is cut off
//! * `error`: where upstream gives no stream

pub mod chunks;
pub mod events;
pub mod laws;
pub mod pieces;
pub mod sent;
pub mod state;
pub mod translation;
pub mod turns;

pub use self::events::SseEvent;
pub use self::state::{Next, Upstream};
pub use self::translation::{Step, StreamTranslation};
