//! Deterministic testing harness: typed-value normalisation, actions, the
//! reorder buffer, the node-side driver protocol and the trace player.
pub mod action;
pub mod canon;
pub mod driver;
pub mod error;
pub mod incoming;
pub mod json;
pub mod kind;
pub mod normalize;
pub mod order;
pub mod player;
pub mod reorder;
pub mod text;
