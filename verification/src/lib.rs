//! Verified core of a zenoh router and of its CAN link: the CAN wire format,
//! the decisions of the CAN socket, protocol declarations, and the pure parts
//! of the routing tables.
pub mod can_link;
pub mod declare;
pub mod error;
pub mod frame;
pub mod handover;
pub mod network;
pub mod probe;
pub mod restree;
pub mod routes;
pub mod walker;

use vstd::prelude::*;

verus! {

} // verus!
