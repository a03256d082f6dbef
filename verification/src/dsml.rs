//! Healing for leaked DeepSeek DSML tool-call markup.
//!
//! DeepSeek models write tool calls as DSML markup, which the provider is supposed
//! to parse into structured `tool_calls`. Intermittently the raw markup leaks into
//! the assistant `content` instead:
//!
//! ```text
//! <｜DSML｜tool_calls>
//! <｜DSML｜invoke name="shell">
//! <｜DSML｜parameter name="command" string="true">ls</｜DSML｜parameter>
//! </｜DSML｜invoke>
//! </｜DSML｜tool_calls>
//! ```
//!
//! This module parses leaked DSML back into structured tool calls and strips the
//! markup from the visible text. Malformed calls fail closed: they stay in the
//! text, and nothing inside them is executed.
//!
//! # Dialects
//!
//! Some models leak a *doubled* delimiter and write parameters as self-closing
//! `invoke` tags whose value sits in the `string` attribute:
//!
//! ```text
//! <｜｜DSML｜｜tool_calls>
//! <｜｜DSML｜｜invoke name="exec_command">
//! <｜｜DSML｜｜invoke name="cmd" string="echo alpha" />
//! </｜｜DSML｜｜invoke>
//! </｜｜DSML｜｜tool_calls>
//! ```
//!
//! Both delimiters are handled, and parameters are read by *shape* rather than by
//! tag name: a self-closing tag has no body, so its value can only live in an
//! attribute.
//!
//! # Layout
//!
//! * [`grammar`]: the markup, and what healing a text means
//! * [`parser`]: reading the calls out of a text
//! * [`stream`]: healing text that arrives in pieces
//! * [`heal`]: healing a message
//! * [`laws`], [`structure`], [`written`], [`several`], [`nested`], [`envelopes`],
//!   [`shift`], [`stability`]: what holds of healing

pub mod envelopes;
pub mod grammar;
pub mod heal;
pub mod laws;
pub mod nested;
pub mod parser;
pub mod several;
pub mod shift;
pub mod stability;
pub mod stream;
pub mod structure;
pub mod written;

pub use self::grammar::DsmlDialect;
pub use self::heal::heal_chat_message;
pub use self::parser::{parse_leaked_tool_calls, DsmlToolCall};
pub use self::stream::DsmlStreamFilter;
