//! Persistence and collaboration core for document-style applications whose
//! state is a graph of individually addressable objects.
//!
//! - `datum`, `codec`: the self-describing value model and its MessagePack
//!   bytes.
//! - `object`, `keyset`: the object store with its persistence bookkeeping.
//! - `delta`: reversible micro-mutations and the recorder that captures them.
//! - `operation`, `action`: operations, their inverses, undo and redo.
//! - `message`, `keychain`, `collab`, `local`, `server`: the wire protocol,
//!   key issuance, and the three kinds of participant.
//! - `serialization`: data, shallow and deep encodings of object graphs.
//! - `tree`: create, delete and transfer for objects kept in trees.

pub mod datum;
mod rmpv_types;
pub mod codec;
pub mod keyset;
pub mod object;
pub mod delta;
pub mod message;
pub mod operation;
pub mod keychain;
pub mod collab;
pub mod action;
pub mod serialization;
pub mod local;
pub mod server;
pub mod tree;
