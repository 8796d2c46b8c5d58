//! Background messaging core of a peer-to-peer chat application that routes
//! traffic over an anonymizing overlay network via per-user hidden services.
//!
//! The crate holds the verified logic of the daemon: the null-terminated frame
//! codec, canonical payload serialization with detached signatures, the
//! symmetric ratchet, the persistence facade over the relational store, the
//! command router, and the subscriber bookkeeping of the local IPC server.
//! Network and socket I/O live outside, in the surrounding process.

use vstd::prelude::*;

pub mod frame;
pub mod json;
pub mod text;
pub mod error;
pub mod ui_focus;
pub mod db;
pub mod crypto;
pub mod message;
pub mod ratchet;
pub mod ipc;
pub mod identity;
pub mod dispatch;
pub mod rpc;

verus! {

/// Virtual port on which peer streams are accepted; all other ports are
/// rejected by tearing down the circuit.
pub const PEER_VIRTUAL_PORT: u16 = 80;

/// True exactly for the one virtual port that carries peer chat streams.
pub fn accepts_virtual_port(port: u16) -> (r: bool)
    ensures
        r == (port == PEER_VIRTUAL_PORT),
{
    port == PEER_VIRTUAL_PORT
}

} // verus!
