//! What callers can rely on, stated field by field: what becomes of each tool, each
//! item of the input, each tool call and each piece of a stream.

pub mod answers;
pub mod healing;
pub mod lists;
pub mod markup;
pub mod offered;
pub mod relaying;
pub mod repairs;
pub mod requests;
pub mod views;
pub mod wire;
