//! Synchronises a key-value state across places, with one master and any number of replicas.
//!
//! A [`StateMap`] is built with its initial keys and values, which every party must agree
//! on, and then frozen: freezing computes a SHA-256 digest of the initial state, which
//! identifies the map. Only the master changes values afterwards, and each change is
//! recorded as a [`Diff`] in the master's history, under an increasing update id. Replicas
//! fetch diffs from the master through a [`Remote`] and apply them.
//!
//! The [`tcp`] module holds the messages of a protocol between a state server and its
//! remotes, and the decisions of both; the transport is left to the caller.
pub mod diff;
pub mod digest;
pub mod entries;
pub mod event;
pub mod keys;
pub mod laws;
pub mod remote;
pub mod statemap;
pub mod tcp;

pub use diff::Diff;
pub use event::Event;
pub use remote::{DummyRemote, EventBroadcaster, Remote};
pub use statemap::{StateMap, StateMapError, StateMapKey, StateMapModifier, StateMapValue};
