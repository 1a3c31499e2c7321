//! Whichever protocol is running, behind one face.
use vstd::prelude::*;

use crate::chance;
use crate::sim::LastBundleView;
use crate::telemetry::TelemetryRecord;

use super::choice::ProtocolSpec;
use super::dv_dtn;
use super::dv_dtn::beacon;
use super::dv_dtn::bundle_round;
use super::dv_dtn::dv_round;
use super::dv_dtn::dv_round::{Draws, DvModel};
use super::dv_dtn::params::DvDtnParams;
use super::dv_dtn::{DvDtn, NodeModel};
use super::epidemic;
use super::epidemic::params::EpidemicParams;
use super::epidemic::spray_round;
use super::epidemic::spray_round::EpiModel;
use super::epidemic::Epidemic;
use super::stats;
use super::stats::{StatValue, StatsTable};
use super::{Capabilities, CommsEvent, NodeCommsView, Scene, StepCtx};

verus! {

/// A protocol that owns everything about how balloons discover routes and move
/// data, including all of its own per-node state.
pub enum MeshProtocol {
    DvDtn(DvDtn),
    Epidemic(Epidemic),
}

/// Whether a protocol has been put together from a choice and not run yet.
pub open spec fn pristine(choice: ProtocolSpec, protocol: MeshProtocol) -> bool {
    match (choice, protocol) {
        (ProtocolSpec::DvDtn(p), MeshProtocol::DvDtn(d)) => d@ == dv_dtn::blank() && d.params == p,
        (ProtocolSpec::Epidemic(p), MeshProtocol::Epidemic(e)) => e.params == p && e.nodes@.len()
            == 0 && e.stats == epidemic::stats::no_stats() && e.latencies@.len() == 0,
        _ => false,
    }
}

/// Whether a node is as it was spawned.
pub open spec fn new_dv(node: NodeModel, params: DvDtnParams) -> bool {
    exists|wake: u64, first: u64|
        wake < params.beacon_interval_rounds && first < params.bundle_interval_rounds && node
            == #[trigger] dv_dtn::spawned(wake, first)
}

/// Whether a node is as it was spawned.
pub open spec fn new_epi(node: EpiModel, params: EpidemicParams) -> bool {
    exists|wake: u64, first: u64|
        wake < params.wake_interval_rounds && first < params.bundle_interval_rounds && node
            == #[trigger] epidemic::fresh_node(wake, first)
}

impl ProtocolSpec {
    /// The protocol chosen, not having done anything yet.
    pub fn build(&self) -> (r: MeshProtocol)
        ensures
            pristine(*self, r),
    {
        match self {
            ProtocolSpec::DvDtn(p) => MeshProtocol::DvDtn(DvDtn::with_params(*p)),
            ProtocolSpec::Epidemic(p) => MeshProtocol::Epidemic(Epidemic::with_params(*p)),
        }
    }
}

impl MeshProtocol {
    /// How many nodes there are.
    pub open spec fn size(self) -> nat {
        match self {
            MeshProtocol::DvDtn(d) => d.nodes@.len(),
            MeshProtocol::Epidemic(e) => e.nodes@.len(),
        }
    }

    /// The published view of a node.
    pub open spec fn view_of(self, i: int) -> NodeCommsView {
        match self {
            MeshProtocol::DvDtn(d) => if 0 <= i < d.nodes@.len() {
                NodeCommsView {
                    route_hops: match d.nodes@[i].belief {
                        Some(b) => Some(b.hop_count),
                        None => None,
                    },
                    last_channel: d.nodes@[i].last_channel,
                }
            } else {
                NodeCommsView { route_hops: None, last_channel: None }
            },
            MeshProtocol::Epidemic(e) => NodeCommsView {
                route_hops: None,
                last_channel: if 0 <= i < e.nodes@.len() {
                    e.nodes@[i].last_channel
                } else {
                    None
                },
            },
        }
    }

    /// Whether the protocol's parameters let nodes be spawned.
    pub open spec fn can_spawn(self) -> bool {
        match self {
            MeshProtocol::DvDtn(d) => d.params.beacon_interval_rounds > 0
                && d.params.bundle_interval_rounds > 0,
            MeshProtocol::Epidemic(e) => e.params.wake_interval_rounds > 0
                && e.params.bundle_interval_rounds > 0,
        }
    }

    /// Whether the chances that await a protocol are those of a seed.
    pub open spec fn seeded_with(self, seed: u64) -> bool {
        match self {
            MeshProtocol::DvDtn(d) => d.rng == chance::generator(seed),
            MeshProtocol::Epidemic(e) => e.rng == chance::generator(seed),
        }
    }

    /// Whether two protocols differ at most in the chances that await them.
    pub open spec fn alike(self, after: MeshProtocol) -> bool {
        match (self, after) {
            (MeshProtocol::DvDtn(a), MeshProtocol::DvDtn(b)) => b@ == a@ && b.params == a.params,
            (MeshProtocol::Epidemic(a), MeshProtocol::Epidemic(b)) => b.state() == a.state()
                && b.params == a.params,
            _ => false,
        }
    }

    /// Whether this protocol has been told of a new tower.
    pub open spec fn gained(self, after: MeshProtocol, id: u32) -> bool {
        match (self, after) {
            (MeshProtocol::DvDtn(a), MeshProtocol::DvDtn(b)) => b@ == (DvModel {
                towers: a@.towers.insert(id, beacon::fresh_tower()),
                ..a@
            }) && b.params == a.params,
            (MeshProtocol::Epidemic(a), MeshProtocol::Epidemic(b)) => b == a,
            _ => false,
        }
    }

    /// Whether this protocol has been told that a tower is gone.
    pub open spec fn lost(self, after: MeshProtocol, id: u32) -> bool {
        match (self, after) {
            (MeshProtocol::DvDtn(a), MeshProtocol::DvDtn(b)) => b@ == (DvModel {
                towers: a@.towers.remove(id),
                ..a@
            }) && b.params == a.params,
            (MeshProtocol::Epidemic(a), MeshProtocol::Epidemic(b)) => b == a,
            _ => false,
        }
    }

    /// Whether this protocol has been kept from originating anything more.
    pub open spec fn halted(self, after: MeshProtocol) -> bool {
        match (self, after) {
            (MeshProtocol::DvDtn(a), MeshProtocol::DvDtn(b)) => b@ == (DvModel {
                nodes: a@.nodes.map_values(
                    |n: NodeModel| NodeModel { next_bundle_round: u64::MAX, ..n },
                ),
                ..a@
            }) && b.params == a.params,
            (MeshProtocol::Epidemic(a), MeshProtocol::Epidemic(b)) => epidemic::models(b.nodes@)
                == epidemic::models(a.nodes@).map_values(
                |n: EpiModel| EpiModel { next_bundle_round: u64::MAX, ..n },
            ) && b.params == a.params && b.stats == a.stats && b.latencies == a.latencies,
            _ => false,
        }
    }

    /// Whether this is what was last resolved for a node.
    pub open spec fn recalls(self, i: int, r: Option<LastBundleView>) -> bool {
        match self {
            MeshProtocol::DvDtn(d) => match r {
                Some(v) => 0 <= i < d@.nodes.len() && d@.nodes[i].last_resolved is Some && v@
                    == dv_dtn::shown(d@.nodes[i].last_resolved->Some_0),
                None => !(0 <= i < d@.nodes.len()) || d@.nodes[i].last_resolved is None,
            },
            MeshProtocol::Epidemic(_) => r is None,
        }
    }

    /// Whether this protocol, cleared, has been given so many fresh nodes.
    pub open spec fn restocked(self, after: MeshProtocol, n: nat) -> bool {
        match (self, after) {
            (MeshProtocol::DvDtn(a), MeshProtocol::DvDtn(b)) => {
                &&& b.params == a.params
                &&& b@ == (DvModel { nodes: b@.nodes, ..a@ })
                &&& b@.nodes.len() == n
                &&& forall|i: int| 0 <= i < n ==> #[trigger] new_dv(b@.nodes[i], a.params)
            },
            (MeshProtocol::Epidemic(a), MeshProtocol::Epidemic(b)) => {
                &&& b.params == a.params
                &&& b.stats == a.stats
                &&& b.latencies == a.latencies
                &&& b.nodes@.len() == n
                &&& forall|i: int| 0 <= i < n ==> #[trigger] new_epi(b.nodes@[i]@, a.params)
            },
            _ => false,
        }
    }

    /// Whether this protocol has been given one fresh node.
    pub open spec fn spawned(self, after: MeshProtocol) -> bool {
        match (self, after) {
            (MeshProtocol::DvDtn(a), MeshProtocol::DvDtn(b)) => b.params == a.params && exists|
                wake: u64,
                first: u64,
            |
                wake < a.params.beacon_interval_rounds && first < a.params.bundle_interval_rounds
                    && b@ == (DvModel {
                    nodes: a@.nodes.push(#[trigger] dv_dtn::spawned(wake, first)),
                    ..a@
                }),
            (MeshProtocol::Epidemic(a), MeshProtocol::Epidemic(b)) => b.params == a.params
                && b.stats == a.stats && b.latencies == a.latencies && exists|
                wake: u64,
                first: u64,
            |
                wake < a.params.wake_interval_rounds && first < a.params.bundle_interval_rounds
                    && epidemic::models(b.nodes@) == epidemic::models(a.nodes@).push(
                    #[trigger] epidemic::fresh_node(wake, first),
                ),
            _ => false,
        }
    }

    /// What a round demands.
    pub open spec fn fits(self, s: Scene) -> bool {
        match self {
            MeshProtocol::DvDtn(d) => dv_round::dv_fits(
                d@,
                s.balloons,
                s.towers,
                d.params,
                s.round,
            ),
            MeshProtocol::Epidemic(e) => spray_round::round_fits(e.state(), e.params, s.round),
        }
    }

    /// Whether this is what a round leads to, for some draws.
    pub open spec fn stepped(
        self,
        after: MeshProtocol,
        s: Scene,
        events: Seq<CommsEvent>,
    ) -> bool {
        match (self, after) {
            (MeshProtocol::DvDtn(d), MeshProtocol::DvDtn(e)) => e.params == d.params && exists|
                draws: Draws,
            |
                draws.fit(s.towers.len(), s.balloons.len(), d.params)
                    && dv_dtn::outcome_of(e@, events) == #[trigger] dv_round::dv_round(
                    d@,
                    s.balloons,
                    s.towers,
                    s.topo,
                    d.params,
                    s.round,
                    draws,
                ),
            (MeshProtocol::Epidemic(d), MeshProtocol::Epidemic(e)) => e.params == d.params
                && exists|draws: Seq<u64>, picks: Seq<u64>|
                spray_round::chances_fit(d.state(), s.balloons, d.params, draws, picks)
                    && e.outcome(events)
                    == #[trigger] spray_round::spray_round(
                    d.state(),
                    s.balloons,
                    s.topo,
                    d.params,
                    s.round,
                    draws,
                    picks,
                ),
            _ => false,
        }
    }

    /// Payloads held by the first `visible` nodes.
    pub open spec fn held(self, visible: usize) -> nat {
        match self {
            MeshProtocol::DvDtn(d) => bundle_round::queued(
                d@.nodes,
                dv_dtn::up_to(visible, d@.nodes),
            ),
            MeshProtocol::Epidemic(e) => spray_round::copies_held(
                epidemic::models(e.nodes@),
                if visible < e.nodes@.len() {
                    visible as nat
                } else {
                    e.nodes@.len()
                },
            ),
        }
    }

    /// Payloads held by nodes with nowhere to send them.
    pub open spec fn held_back(self, visible: usize) -> nat {
        match self {
            MeshProtocol::DvDtn(d) => dv_dtn::held_back(
                d@.nodes,
                dv_dtn::up_to(visible, d@.nodes),
            ),
            MeshProtocol::Epidemic(_) => 0,
        }
    }

    /// Payloads delivered so far.
    pub open spec fn landed(self) -> int {
        match self {
            MeshProtocol::DvDtn(d) => d.stats.delivered as int,
            MeshProtocol::Epidemic(e) => e.stats.delivered as int,
        }
    }

    /// Payloads that have left circulation one way or another.
    pub open spec fn settled(self) -> int {
        match self {
            MeshProtocol::DvDtn(d) => d@.tally.resolved(),
            MeshProtocol::Epidemic(e) => e.stats.delivered + e.stats.satellite,
        }
    }

    pub fn spec_name(&self) -> (r: &'static str)
        ensures
            r@ == (match self {
                MeshProtocol::DvDtn(_) => "dv-dtn"@,
                MeshProtocol::Epidemic(_) => "epidemic"@,
            }),
    {
        match self {
            MeshProtocol::DvDtn(d) => d.spec_name(),
            MeshProtocol::Epidemic(e) => e.spec_name(),
        }
    }

    pub fn capabilities(&self) -> (r: Capabilities)
        ensures
            r@ == (match self {
                MeshProtocol::DvDtn(d) => dv_dtn::capabilities_of(d.params),
                MeshProtocol::Epidemic(_) => epidemic::capabilities_of(),
            }),
    {
        match self {
            MeshProtocol::DvDtn(d) => d.capabilities(),
            MeshProtocol::Epidemic(e) => e.capabilities(),
        }
    }

    /// Makes the draws to come those of a seed.
    pub fn reseed(&mut self, seed: u64)
        ensures
            old(self).alike(*final(self)),
            final(self).seeded_with(seed),
    {
        match self {
            MeshProtocol::DvDtn(d) => d.reseed(seed),
            MeshProtocol::Epidemic(e) => e.reseed(seed),
        }
    }

    pub fn clear_nodes(&mut self)
        ensures
            final(self).size() == 0,
            match (*old(self), *final(self)) {
                (MeshProtocol::DvDtn(a), MeshProtocol::DvDtn(b)) => b@ == (DvModel {
                    nodes: Seq::empty(),
                    ..a@
                }) && b.params == a.params,
                (MeshProtocol::Epidemic(a), MeshProtocol::Epidemic(b)) => b.stats == a.stats
                    && b.latencies == a.latencies && b.params == a.params,
                _ => false,
            },
    {
        match self {
            MeshProtocol::DvDtn(d) => {
                d.clear_nodes();
                assert(d@.nodes.len() == 0);
            },
            MeshProtocol::Epidemic(e) => e.clear_nodes(),
        }
    }

    /// Adds state for one newly spawned balloon.
    pub fn spawn_node(&mut self)
        requires
            old(self).can_spawn(),
        ensures
            final(self).size() == old(self).size() + 1,
            final(self).can_spawn(),
            old(self).spawned(*final(self)),
    {
        match self {
            MeshProtocol::DvDtn(d) => {
                let ghost before = d@.nodes;
                d.spawn_node();
                assert(d@.nodes.len() == before.len() + 1);
            },
            MeshProtocol::Epidemic(e) => {
                let ghost before = epidemic::models(e.nodes@);
                e.spawn_node();
                assert(epidemic::models(e.nodes@).len() == before.len() + 1);
            },
        }
    }

    pub fn add_tower(&mut self, id: u32)
        ensures
            final(self).size() == old(self).size(),
            old(self).gained(*final(self), id),
    {
        match self {
            MeshProtocol::DvDtn(d) => {
                let ghost before = d@.nodes;
                d.add_tower(id);
                assert(d@.nodes.len() == before.len());
            },
            MeshProtocol::Epidemic(e) => e.add_tower(id),
        }
    }

    pub fn remove_tower(&mut self, id: u32)
        ensures
            final(self).size() == old(self).size(),
            old(self).lost(*final(self), id),
    {
        match self {
            MeshProtocol::DvDtn(d) => {
                let ghost before = d@.nodes;
                d.remove_tower(id);
                assert(d@.nodes.len() == before.len());
            },
            MeshProtocol::Epidemic(e) => e.remove_tower(id),
        }
    }

    /// Advances one comms round.
    pub fn step(&mut self, ctx: StepCtx<'_>) -> (events: Vec<CommsEvent>)
        requires
            old(self).fits(ctx@),
        ensures
            old(self).stepped(*final(self), ctx@, events@),
    {
        match self {
            MeshProtocol::DvDtn(d) => {
                let ghost before = *d;
                let events: Vec<CommsEvent> = d.step(ctx);
                proof {
                    let s = ctx@;
                    let draws = choose|draws: Draws|
                        draws.fit(ctx.towers@.len(), ctx.balloons@.len(), before.params)
                            && dv_dtn::outcome_of(d@, events@) == #[trigger] dv_round::dv_round(
                            before@,
                            ctx.balloons@,
                            ctx.towers@,
                            ctx.adj@,
                            before.params,
                            ctx.round,
                            draws,
                        );
                    assert(dv_dtn::outcome_of(d@, events@) == dv_round::dv_round(
                        before@,
                        s.balloons,
                        s.towers,
                        s.topo,
                        before.params,
                        s.round,
                        draws,
                    ));
                }
                events
            },
            MeshProtocol::Epidemic(e) => {
                let ghost before = *e;
                let events: Vec<CommsEvent> = e.step(ctx);
                proof {
                    let s = ctx@;
                    let (draws, picks) = choose|draws: Seq<u64>, picks: Seq<u64>|
                        spray_round::chances_fit(
                            before.state(),
                            ctx.balloons@,
                            before.params,
                            draws,
                            picks,
                        ) && e.outcome(events@) == #[trigger] spray_round::spray_round(
                            before.state(),
                            ctx.balloons@,
                            ctx.adj@,
                            before.params,
                            ctx.round,
                            draws,
                            picks,
                        );
                    assert(e.outcome(events@) == spray_round::spray_round(
                        before.state(),
                        s.balloons,
                        s.topo,
                        before.params,
                        s.round,
                        draws,
                        picks,
                    ));
                }
                events
            },
        }
    }

    pub fn node_view(&self, i: usize) -> (r: NodeCommsView)
        ensures
            r == self.view_of(i as int),
    {
        match self {
            MeshProtocol::DvDtn(d) => d.node_view(i),
            MeshProtocol::Epidemic(e) => e.node_view(i),
        }
    }

    /// Payloads held across the visible slice.
    pub fn carrying(&self, visible: usize) -> (r: u64)
        ensures
            r == stats::capped(self.held(visible) as int),
    {
        match self {
            MeshProtocol::DvDtn(d) => d.carrying(visible),
            MeshProtocol::Epidemic(e) => e.carrying(visible),
        }
    }

    /// Payloads held by a node that has nowhere to send them.
    pub fn stranded(&self, visible: usize) -> (r: u64)
        ensures
            r == stats::capped(self.held_back(visible) as int),
    {
        match self {
            MeshProtocol::DvDtn(d) => d.stranded(visible),
            MeshProtocol::Epidemic(e) => e.stranded(visible),
        }
    }

    pub fn delivered(&self) -> (r: u64)
        ensures
            r == self.landed(),
    {
        match self {
            MeshProtocol::DvDtn(d) => d.delivered(),
            MeshProtocol::Epidemic(e) => e.delivered(),
        }
    }

    /// Everything that has left circulation one way or another.
    pub fn resolved(&self) -> (r: u64)
        ensures
            r == stats::capped(self.settled()),
    {
        match self {
            MeshProtocol::DvDtn(d) => d.resolved(),
            MeshProtocol::Epidemic(e) => e.resolved(),
        }
    }

    pub fn last_bundle(&self, i: usize) -> (r: Option<LastBundleView>)
        ensures
            self.recalls(i as int, r),
    {
        match self {
            MeshProtocol::DvDtn(d) => d.last_bundle(i),
            MeshProtocol::Epidemic(e) => e.last_bundle(i),
        }
    }

    /// The telemetry of a node, newest first.
    pub open spec fn log_of(self, i: int) -> Seq<TelemetryRecord> {
        if 0 <= i < self.size() {
            match self {
                MeshProtocol::DvDtn(d) => d.nodes@[i].log@.reverse(),
                MeshProtocol::Epidemic(e) => e.nodes@[i].log@.reverse(),
            }
        } else {
            Seq::empty()
        }
    }

    pub fn log(&self, i: usize) -> (r: Vec<TelemetryRecord>)
        ensures
            r@ == self.log_of(i as int),
    {
        match self {
            MeshProtocol::DvDtn(d) => d.log(i),
            MeshProtocol::Epidemic(e) => e.log(i),
        }
    }

    /// Stops all origination.
    pub fn halt_origination(&mut self)
        ensures
            old(self).halted(*final(self)),
    {
        match self {
            MeshProtocol::DvDtn(d) => d.halt_origination(),
            MeshProtocol::Epidemic(e) => e.halt_origination(),
        }
    }

    /// Whether the counters add up within their type.
    pub open spec fn tabulable(self) -> bool {
        match self {
            MeshProtocol::DvDtn(d) => d@.tally.resolved() <= u64::MAX && d@.tally.stalls()
                <= u64::MAX && d.params.beacon_interval_rounds > 0 && d.linkstate.records_redundant
                + d.linkstate.records_useful <= u64::MAX,
            MeshProtocol::Epidemic(e) => e.stats.delivered + e.stats.satellite <= u64::MAX,
        }
    }

    /// The protocol's counters, each under its name.
    pub open spec fn table(self) -> Seq<(Seq<char>, StatValue)> {
        match self {
            MeshProtocol::DvDtn(d) => dv_dtn::table_of(d.stats, d.params, d.linkstate@),
            MeshProtocol::Epidemic(e) => e.stats.table(e.latencies@),
        }
    }

    /// The protocol's counters as a keyed table.
    pub fn stats(&self) -> (r: StatsTable)
        requires
            self.tabulable(),
        ensures
            r@ == self.table(),
    {
        match self {
            MeshProtocol::DvDtn(d) => d.stats(),
            MeshProtocol::Epidemic(e) => e.stats(),
        }
    }
}

/// A fresh pool with one more fresh node is a fresh pool.
pub(crate) proof fn lemma_one_more(
    start: MeshProtocol,
    before: MeshProtocol,
    after: MeshProtocol,
    n: nat,
)
    requires
        start.restocked(before, n),
        before.spawned(after),
    ensures
        start.restocked(after, n + 1),
{
    match (start, before, after) {
        (MeshProtocol::DvDtn(s), MeshProtocol::DvDtn(a), MeshProtocol::DvDtn(b)) => {
            let (wake, first) = choose|wake: u64, first: u64|
                wake < a.params.beacon_interval_rounds && first < a.params.bundle_interval_rounds
                    && b@ == (DvModel {
                    nodes: a@.nodes.push(#[trigger] dv_dtn::spawned(wake, first)),
                    ..a@
                });
            assert forall|i: int| 0 <= i < n + 1 implies #[trigger] new_dv(
                b@.nodes[i],
                s.params,
            ) by {
                if i < n {
                    assert(new_dv(a@.nodes[i], s.params));
                } else {
                    assert(b@.nodes[i] == dv_dtn::spawned(wake, first));
                }
            }
        },
        (MeshProtocol::Epidemic(s), MeshProtocol::Epidemic(a), MeshProtocol::Epidemic(b)) => {
            let (wake, first) = choose|wake: u64, first: u64|
                wake < a.params.wake_interval_rounds && first < a.params.bundle_interval_rounds
                    && epidemic::models(b.nodes@) == epidemic::models(a.nodes@).push(
                    #[trigger] epidemic::fresh_node(wake, first),
                );
            assert(epidemic::models(b.nodes@).len() == n + 1);
            assert forall|i: int| 0 <= i < n + 1 implies #[trigger] new_epi(
                b.nodes@[i]@,
                s.params,
            ) by {
                assert(b.nodes@[i]@ == epidemic::models(b.nodes@)[i]);
                if i < n {
                    assert(a.nodes@[i]@ == epidemic::models(a.nodes@)[i]);
                    assert(new_epi(a.nodes@[i]@, s.params));
                } else {
                    assert(b.nodes@[i]@ == epidemic::fresh_node(wake, first));
                }
            }
        },
        _ => {},
    }
}

} // verus!
