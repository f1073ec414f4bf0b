//! A promise/continuation runtime for tick-driven, cooperatively scheduled
//! hosts.
//!
//! Application code builds a [`promise::Promise`] value — a description of a
//! chain of continuations — and hands it to an engine, which owns the
//! registry of pending continuations and drives them with the four primitive
//! operations: register, resolve, reject and discard.  Combinators (`then`,
//! `map`, `catch`, `repeat`, `any`, `all`) build new promises out of existing
//! ones while preserving cancellation: discarding a promise discards every
//! promise nested beneath it.

pub mod command;
pub mod engine;
pub mod id;
pub mod laws;
pub mod once;
pub mod promise;
pub mod request;
pub mod script;
pub mod state;
pub mod table;
pub mod timer;
pub mod thunk;
pub mod val;
