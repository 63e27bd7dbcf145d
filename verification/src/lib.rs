//! Core of a chat command bot: dice rolling for a tabletop ruleset,
//! token-bucket admission control, a keyed entity store, and the
//! dispatcher that ties them together — each with machine-checked
//! contracts.

pub mod dice;
pub mod dispatch;
pub mod kv;
pub mod limiter;
pub mod store;
pub mod text;
