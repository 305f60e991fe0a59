//! The compatibility harness for kime, as a verified library.
//!
//! `text` holds the character-level rules the harness relies on (whitespace, integer parsing,
//! decimal formatting), `json` a model of the JSON values that the rules read, `contract` the
//! response rules clients depend on, and `live` the plain HTTP client's framing and the decisions
//! of a live run.

pub mod text;
pub mod json;
pub mod contract;
pub mod live;
pub mod fixtures;
