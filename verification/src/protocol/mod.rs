//! The seam between the simulation and the comms protocol running on it.
use vstd::prelude::*;

use crate::balloon::Balloon;
use crate::link_detection::NodeKey;
use crate::mesh_adjacency::{MeshAdjacency, Topology};
use crate::protocol::dv_dtn::bundle::Channel;
use crate::tower::Tower;

pub mod choice;
pub mod dv_dtn;
pub mod epidemic;
pub mod mesh;
pub mod readiness;
pub mod stats;

pub use choice::ProtocolSpec;
pub use mesh::MeshProtocol;

verus! {

/// Everything a protocol may read to advance one comms round.
#[derive(Clone, Copy)]
pub struct StepCtx<'a> {
    pub round: u64,
    /// The visible slice. Index `i` is the same node as the protocol's own
    /// node `i`.
    pub balloons: &'a [Balloon],
    pub towers: &'a [Tower],
    pub adj: &'a MeshAdjacency,
}

/// The mathematical content of a `StepCtx`.
#[verifier::ext_equal]
pub struct Scene {
    pub round: u64,
    pub balloons: Seq<Balloon>,
    pub towers: Seq<Tower>,
    pub topo: Topology,
}

impl View for StepCtx<'_> {
    type V = Scene;

    open spec fn view(&self) -> Scene {
        Scene {
            round: self.round,
            balloons: self.balloons@,
            towers: self.towers@,
            topo: self.adj@,
        }
    }
}

/// What kind of transmission an event was.
#[derive(Debug, Clone, Copy, PartialEq, Eq, Structural)]
pub enum EventKind {
    /// An unsolicited route advertisement.
    RouteAd,
    /// On-demand discovery: a request flooding outward...
    RouteRequest,
    /// ...and the reply coming back.
    RouteReply,
    /// Payload moving one hop.
    Bundle,
    /// A receipt moving one hop.
    Ack,
    /// A neighbour-table or digest exchange.
    Gossip,
}

/// One transmission that actually happened this round.
#[derive(Debug, Clone, Copy, PartialEq, Eq, Structural)]
pub struct CommsEvent {
    pub kind: EventKind,
    pub from: NodeKey,
    pub to: NodeKey,
    /// How many records rode this one transmission.
    pub payload: u32,
    /// Which tower's wave this belongs to, where that means anything.
    pub tower_id: Option<u32>,
    pub hop_count: Option<u32>,
    /// Monotonic per-wave counter.
    pub epoch: Option<u64>,
}

/// The protocol's published per-node view, copied onto the wire each tick.
#[derive(Debug, Clone, Copy, PartialEq, Eq, Structural)]
pub struct NodeCommsView {
    /// Hops to a tower as this node believes. `None` means that no route is
    /// known, and under a protocol without routes it is always `None`.
    pub route_hops: Option<u32>,
    /// How this node's most recent resolved payload actually got through.
    pub last_channel: Option<Channel>,
}

/// What a protocol can express. What it cannot, a client hides rather than
/// show a value with no meaning behind it.
#[derive(Debug)]
pub struct Capabilities {
    pub name: &'static str,
    pub label: &'static str,
    /// Whether a node holds a belief about its route.
    pub route_belief: bool,
    /// Whether a payload has a single recorded path.
    pub next_hop_paths: bool,
    /// Whether an origin can learn that its payload landed.
    pub acks: bool,
    pub satellite_fallback: bool,
    /// The kinds of transmission it makes.
    pub event_kinds: Vec<EventKind>,
}

/// The mathematical content of a `Capabilities`.
#[verifier::ext_equal]
pub struct CapabilitiesModel {
    pub name: Seq<char>,
    pub label: Seq<char>,
    pub route_belief: bool,
    pub next_hop_paths: bool,
    pub acks: bool,
    pub satellite_fallback: bool,
    pub event_kinds: Seq<EventKind>,
}

impl View for Capabilities {
    type V = CapabilitiesModel;

    open spec fn view(&self) -> CapabilitiesModel {
        CapabilitiesModel {
            name: self.name@,
            label: self.label@,
            route_belief: self.route_belief,
            next_hop_paths: self.next_hop_paths,
            acks: self.acks,
            satellite_fallback: self.satellite_fallback,
            event_kinds: self.event_kinds@,
        }
    }
}

} // verus!
