//! The grid of the aggregation sweep, and how its finished rows are known.
use vstd::prelude::*;
use vstd::string::*;

use crate::protocol::dv_dtn::params::AckPolicy;
use crate::text;

verus! {

/// One cell of the grid.
#[derive(Debug, Clone, Copy, PartialEq, Eq, Structural)]
pub struct Combo {
    pub seed: u64,
    pub n: u32,
    pub ack: AckPolicy,
    pub tower_contact: u64,
    pub mesh_hop: u64,
}

/// What an ack policy is called.
pub open spec fn ack_text(a: AckPolicy) -> Seq<char> {
    match a {
        AckPolicy::SourceRouted => "source-routed"@,
        AckPolicy::Digest => "digest"@,
    }
}

/// What an ack policy is called.
pub fn ack_name(a: AckPolicy) -> (s: &'static str)
    ensures
        s@ == ack_text(a),
{
    match a {
        AckPolicy::SourceRouted => "source-routed",
        AckPolicy::Digest => "digest",
    }
}

impl Combo {
    /// What the cell's row begins with.
    pub fn key(&self) -> (s: String)
        ensures
            s@ == text::decimal(self.seed as nat) + ","@ + text::decimal(self.n as nat) + ","@
                + ack_text(self.ack) + ","@ + text::decimal(self.tower_contact as nat) + ","@
                + text::decimal(self.mesh_hop as nat),
    {
        let mut s: String = String::new();
        text::push_decimal(&mut s, self.seed);
        s.append(",");
        text::push_decimal(&mut s, self.n as u64);
        s.append(",");
        s.append(ack_name(self.ack));
        s.append(",");
        text::push_decimal(&mut s, self.tower_contact);
        s.append(",");
        text::push_decimal(&mut s, self.mesh_hop);
        assert(s@ =~= text::decimal(self.seed as nat) + ","@ + text::decimal(self.n as nat) + ","@
            + ack_text(self.ack) + ","@ + text::decimal(self.tower_contact as nat) + ","@
            + text::decimal(self.mesh_hop as nat));
        s
    }
}

} // verus!
