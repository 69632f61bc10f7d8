//! Group key agreement and the confidential instruction pipeline of an
//! enclave that shares encrypted application state with its peers.
//!
//! The members of a group keep a key tree over their roster
//! ([`group_state`]). A handshake ([`handshake`]) moves the tree from one
//! epoch to the next and gives every member the root secret of the new
//! epoch, from which each derives the same ratcheting key chains
//! ([`application`]). An enclave holds its group state, its key chains and
//! the state of each user address in one context ([`context`]), on which the
//! instruction pipeline runs: it checks the capability of a caller
//! ([`crypto`]), runs a state transition function ([`stf`]) against the state
//! store ([`kvs`]), and seals what leaves the enclave. The calls of the host
//! are in [`ecalls`]; what the states of an application have in common is in
//! [`traits`]; what the library believes of the cryptographic primitives is
//! in [`primitives`].

pub mod application;
pub mod bytes;
pub mod context;
pub mod crypto;
pub mod ecalls;
pub mod error;
pub mod group_state;
pub mod handshake;
pub mod kvs;
pub mod primitives;
pub mod secrets;
pub mod state_type;
pub mod stf;
pub mod test_utils;
pub mod traits;
pub mod tree_math;
