//! Speed-enforcement coordination service, with the small sibling services
//! that share its codebase.
//!
//! The heart of the crate is the speed daemon: the binary frame codec
//! ([`codec`]), the per-connection role state machine ([`session`]), the
//! heartbeat schedule ([`heartbeat`]), the ticket computation ([`engine`])
//! and the shared road registry ([`registry`]).  Around it stand the
//! simpler collaborators: a price-message parser ([`prices`]), the chat
//! relay's name validation ([`chat`]), the prime-checking responder
//! ([`prime`]) and the proxy's line rewriter ([`rewrite`]).

pub mod chat;
pub mod codec;
pub mod engine;
pub mod heartbeat;
pub mod prices;
pub mod prime;
pub mod registry;
pub mod rewrite;
pub mod session;
pub mod text;
pub mod wire;
