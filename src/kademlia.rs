//! Messages and errors of the node-lookup protocol that peers exchange.
use vstd::prelude::*;

use vstd::string::StringExecFns;

verus! {

/// Identifier of a peer in the lookup protocol.
pub type IdType = u16;

/// A request one peer sends another.
#[derive(Clone, Copy, Debug, PartialEq, Eq, Structural)]
pub enum Msg {
    /// Is the receiver alive? Carries the sender's id.
    Ping { id: IdType },
    /// Which peers does the receiver know closest to `target`?
    FindNode { id: IdType, target: IdType },
}

/// A ping went unanswered.
#[derive(Clone, Copy, Debug, PartialEq, Eq, Structural)]
pub struct PingError;

/// Joining the network through a known peer failed.
#[derive(Clone, Copy, Debug, PartialEq, Eq, Structural)]
pub struct JoinError;

impl PingError {
    /// The error's text.
    pub fn message(&self) -> (r: String)
        ensures
            r@ == "ping error!"@,
    {
        String::from_str("ping error!")
    }
}

impl JoinError {
    /// The error's text.
    pub fn message(&self) -> (r: String)
        ensures
            r@ == "join error!"@,
    {
        String::from_str("join error!")
    }
}

} // verus!
