//! One slot of the pool: a connection, or room for one.

use vstd::prelude::*;

verus! {

/// A slot of the pool. It is occupied exactly when it holds a stream: there
/// is no second flag that could disagree.
#[derive(Clone, Copy, Debug, PartialEq, Eq)]
pub struct Client {
    /// The slot's identity, given once when the slot is made.
    pub id: usize,
    /// The four octets of the peer's IPv4 address, as taken at accept time.
    /// They are kept for display and mean nothing while the slot is empty.
    pub addr: [u8; 4],
    /// The handle of the accepted stream, or `None` while the slot is empty.
    pub socket: Option<u64>,
}

impl Client {
    /// Whether the slot holds a connection.
    pub open spec fn occupied(&self) -> bool {
        self.socket is Some
    }

    /// The empty slot with identity `id`.
    pub open spec fn vacant(id: usize) -> Client {
        Client { id, addr: [0u8, 0u8, 0u8, 0u8], socket: None }
    }

    /// An empty slot with identity `id`.
    pub fn empty(id: usize) -> (client: Client)
        ensures
            client == Client::vacant(id),
    {
        Client { id, addr: [0u8, 0u8, 0u8, 0u8], socket: None }
    }

    /// Whether the slot holds a connection.
    pub fn is_occupied(&self) -> (occupied: bool)
        ensures
            occupied == self.occupied(),
    {
        self.socket.is_some()
    }
}

impl Default for Client {
    /// The empty slot with identity 0.
    fn default() -> (client: Client)
        ensures
            client == Client::vacant(0),
    {
        Client::empty(0)
    }
}

} // verus!
