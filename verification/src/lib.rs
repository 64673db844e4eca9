//! Snowball: a coin-mixing session in which wallets jointly build one
//! transaction whose inputs and outputs cannot be linked.
//!
//! The crate holds the session state machine and the byte-level rules it
//! rests on. Curve arithmetic, range proofs and transport are the caller's:
//! the session asks for them through [`types::Action`] and is told the
//! result through the matching method.
//!
//! - [`participant`], [`bytes`]: identities and their order.
//! - [`hashing`]: the hash function and what is hashed with it.
//! - [`scalar`]: the scalar field.
//! - [`dicemix`]: the cloaked exchange of rows and scalars.
//! - [`blame`]: what a participant contributed, read with its secret.
//! - [`message`], [`wire`]: messages and their bytes.
//! - [`model`]: what each step of a session does, in plain values.
//! - [`session`]: the session itself.
//! - [`sound`], [`laws`]: what holds at every step, and of the protocol.

pub mod blame;
pub mod bytes;
pub mod dicemix;
pub mod error;
pub mod hashing;
pub mod laws;
pub mod leader;
pub mod lists;
pub mod message;
pub mod model;
pub mod participant;
pub mod scalar;
pub mod session;
pub mod sound;
pub mod types;
pub mod wire;
