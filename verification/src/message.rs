//! Protocol messages: requests handled by sections and responses routed by
//! the network.

use vstd::prelude::*;
use crate::node::Node;
use crate::prefix::{Name, Prefix};
use crate::section::Section;

verus! {

/// A request delivered to one section.
#[derive(Clone, Copy, PartialEq, Eq, Structural, Debug)]
pub enum Request {
    /// A node attempting to join.
    Live(Node),
    /// A node has left.
    Dead(Name),
    /// Instruction to merge into the given parent prefix.
    Merge(Prefix),
    /// The source section asks the destination to reserve capacity.
    RelocateRequest { src: Prefix, dst: Name, node_name: Name },
    /// The destination confirms the reservation.
    RelocateAccept { dst: Name, node_name: Name },
    /// The destination declines the reservation.
    RelocateReject { dst: Name, node_name: Name },
    /// The actual hand-off of a node.
    Relocate { dst: Name, node: Node },
}

/// What a section hands back to the router.
#[derive(Debug)]
pub enum Response {
    /// Route the request to the section owning the prefix (or the section
    /// covering it).
    Send(Prefix, Request),
    /// A materialized merged section; the old prefix is to be deleted.
    Merge(Section, Prefix),
    /// Two materialized children; the old prefix is to be deleted.
    Split(Section, Section, Prefix),
    /// An infant join was refused.
    Reject(Node),
    /// Forward the node to the section matching `dst`.
    Relocate { dst: Name, node: Node },
    /// Forward the reservation request to the section matching `dst`.
    RelocateRequest { src: Prefix, dst: Name, node_name: Name },
}

/// Conditions queued requests satisfy: a joining node's name lies under the
/// section's prefix, and every prefix a request carries is well-formed.
pub open spec fn req_ok(p: Prefix, r: Request) -> bool {
    match r {
        Request::Live(node) => p.spec_matches(node.name),
        Request::Merge(parent) => parent.wf(),
        Request::RelocateRequest { src, .. } => src.wf(),
        _ => true,
    }
}

} // verus!
