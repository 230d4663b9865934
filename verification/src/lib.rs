//! Reaction-role mapping engine: an in-memory store of guild, message, role
//! and emoji associations, an emoji-key normalizer, a selector-command parser,
//! and the reconciliation rules that keep cached role lists in sync with role
//! lifecycle events.

pub mod dispatch;
pub mod emoji;
pub mod selector;
pub mod store;
pub mod text;
