//! A bridge from the Responses API to Chat Completions.
//!
//! The library holds everything that the bridge decides and computes. What it does
//! is stated in the contracts of its functions, over the characters of texts
//! (`Seq<char>`), the messages of conversations and the compact text of JSON
//! values; the functions named `law_…` state what holds of it as a whole.
//!
//! * [`translate`]: requests and responses from one protocol to the other
//! * [`stream`]: a streamed response from one protocol to the other
//! * [`session`]: conversations, by response id
//! * [`relay`]: what is sent upstream, and how its answer is passed on
//! * [`dsml`]: tool calls that leaked into the text
//! * [`think`]: reasoning that leaked into the text
//! * [`quirks`]: which workarounds are enabled
//! * [`tools`], [`output`]: the tools of a request, and the output of a response
//! * [`body`]: a response as JSON
//! * [`types`]: the requests and responses themselves
//! * [`json`], [`ids`]: the calls into `serde_json` and `uuid`
//! * [`text`], [`tags`]: searching text, also while it grows
//! * [`laws`]: what callers can rely on, request by request and turn by turn

pub mod body;
pub mod dsml;
pub mod ids;
pub mod json;
pub mod laws;
pub mod output;
pub mod quirks;
pub mod relay;
pub mod session;
pub mod stream;
pub mod tags;
pub mod text;
pub mod think;
pub mod tools;
pub mod translate;
pub mod types;
