//! Messages sent by the robots to the base.

use vstd::prelude::*;

use crate::types::{Pos, ResourceKind};

verus! {

#[derive(Clone, Copy, PartialEq, Eq, Structural, Debug)]
pub enum Message {
    /// A robot saw a resource, with the quantity that is left there.
    FoundResource { pos: Pos, kind: ResourceKind, qty: u32 },
    /// A robot found an obstacle that was not known yet.
    FoundObstacle { pos: Pos },
    /// A collector takes a resource as its target.
    Claim { id: usize, pos: Pos },
    /// The resource is exhausted and leaves the shared knowledge.
    Deplete { pos: Pos },
    /// A collector unloaded some units at the base.
    Collected { kind: ResourceKind, amount: u32 },
}

impl Message {
    /// Whether the message updates the world's totals (and not the shared
    /// knowledge): the base applies it under the world's lock.
    pub fn concerns_world(&self) -> (b: bool)
        ensures
            b == (*self is Collected),
    {
        match self {
            Message::Collected { .. } => true,
            _ => false,
        }
    }
}

} // verus!
