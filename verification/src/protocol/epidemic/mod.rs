//! Binary spray-and-wait: replication instead of routing. A record starts with
//! a budget of copies; a holder hands half of what it has to a neighbour that
//! lacks the record, and whoever meets a tower delivers.
use std::collections::VecDeque;

use rand::rngs::StdRng;
use vstd::prelude::*;

use crate::balloon::Balloon;
use crate::chance;
use crate::link_detection::NodeKey;
use crate::mesh_adjacency::MeshAdjacency;
use crate::protocol::dv_dtn::beacon;
use crate::protocol::dv_dtn::bundle::{AckState, Channel, OutstandingBundle, ResolvedBundle};
use crate::protocol::dv_dtn::bundle_round;
use crate::protocol::stats as tables;
use crate::protocol::stats::StatsTable;
use crate::protocol::{Capabilities, CapabilitiesModel, CommsEvent, EventKind, NodeCommsView,
    StepCtx};
use crate::sim::LastBundleView;
use crate::telemetry;
use crate::telemetry::TelemetryRecord;

use params::EpidemicParams;
use spray_round::{EpiModel, Spray, SprayGather, SprayState};
use stats::EpidemicStats;

pub mod late_laws;
pub mod params;
pub mod spray_counts;
pub mod spray_laws;
pub mod spray_round;
pub mod spread_laws;
pub mod stats;

verus! {

/// One copy of one telemetry record, in transit. It has no path: under
/// replication there is no single route that a record took.
#[derive(Debug, Clone, Copy, PartialEq, Eq, Structural)]
pub struct Copy_ {
    pub origin_id: u32,
    pub seq: u64,
    pub created_at_round: u64,
    pub record: TelemetryRecord,
    /// Copies this holder may still hand out. One means the wait phase.
    pub copies: u32,
}

impl Copy_ {
    pub fn age(&self, round: u64) -> (r: u64)
        ensures
            r == spray_round::copy_age(*self, round),
    {
        round.saturating_sub(self.created_at_round)
    }
}

#[derive(Debug, Clone)]
pub struct EpiNode {
    pub held: VecDeque<Copy_>,
    pub next_wake_round: u64,
    pub next_bundle_round: u64,
    pub bundle_seq: u64,
    pub log: VecDeque<TelemetryRecord>,
    /// The origin's own view. It only ever stops pending by timing out.
    pub outstanding: Option<OutstandingBundle>,
    pub last_resolved: Option<ResolvedBundle>,
    pub last_channel: Option<Channel>,
    /// The records of this origin that have an outcome, in the order in which
    /// they came by it. Another copy of one of them changes nothing.
    pub settled: Vec<u64>,
}

impl View for EpiNode {
    type V = EpiModel;

    open spec fn view(&self) -> EpiModel {
        EpiModel {
            held: self.held@,
            next_wake_round: self.next_wake_round,
            next_bundle_round: self.next_bundle_round,
            bundle_seq: self.bundle_seq,
            log: self.log@,
            outstanding: match self.outstanding {
                Some(o) => Some(o@),
                None => None,
            },
            last_resolved: match self.last_resolved {
                Some(r) => Some(r@),
                None => None,
            },
            last_channel: self.last_channel,
            settled: self.settled@,
        }
    }
}

/// The models of a list of nodes.
pub open spec fn models(nodes: Seq<EpiNode>) -> Seq<EpiModel> {
    nodes.map_values(|n: EpiNode| n@)
}

/// A node that has not done anything yet, with its first slots.
pub open spec fn fresh_node(next_wake_round: u64, next_bundle_round: u64) -> EpiModel {
    EpiModel {
        held: Seq::empty(),
        next_wake_round,
        next_bundle_round,
        bundle_seq: 0,
        log: Seq::empty(),
        outstanding: None,
        last_resolved: None,
        last_channel: None,
        settled: Seq::empty(),
    }
}

impl Default for EpiNode {
    fn default() -> (r: EpiNode)
        ensures
            r@ == fresh_node(0, 0),
    {
        let r: EpiNode = EpiNode {
            held: VecDeque::new(),
            next_wake_round: 0,
            next_bundle_round: 0,
            bundle_seq: 0,
            log: VecDeque::new(),
            outstanding: None,
            last_resolved: None,
            last_channel: None,
            settled: Vec::new(),
        };
        assert(r@ =~~= fresh_node(0, 0));
        r
    }
}

/// The place of a record in a log.
fn place_in_log(log: &VecDeque<TelemetryRecord>, seq: u64) -> (r: Option<usize>)
    ensures
        match r {
            Some(p) => p < log@.len() && bundle_round::record_place(log@, 0, seq) == Some(p as int),
            None => bundle_round::record_place(log@, 0, seq) is None,
        },
{
    let mut k: usize = 0;
    while k < log.len()
        invariant
            k <= log@.len(),
            bundle_round::record_place(log@, 0, seq) == bundle_round::record_place(
                log@,
                k as int,
                seq,
            ),
        decreases log@.len() - k,
    {
        if log[k].seq == seq {
            return Some(k);
        }
        k = k + 1;
    }
    None
}

/// Whether a record is among those that have an outcome.
fn is_settled(settled: &Vec<u64>, seq: u64) -> (r: bool)
    ensures
        r == settled@.contains(seq),
{
    let mut k: usize = 0;
    while k < settled.len()
        invariant
            k <= settled@.len(),
            forall|x: int| 0 <= x < k ==> #[trigger] settled@[x] != seq,
        decreases settled@.len() - k,
    {
        if settled[k] == seq {
            assert(settled@[k as int] == seq);
            return true;
        }
        k = k + 1;
    }
    false
}

/// Notes the outcome of one of an origin's records, and tells whether it is the
/// first for that record. The origin is not told.
fn record_outcome(nodes: &mut Vec<EpiNode>, origin_id: u32, seq: u64, channel: Channel) -> (r: bool)
    ensures
        models(final(nodes)@) == spray_round::with_outcome(
            models(old(nodes)@),
            origin_id,
            seq,
            channel,
        ),
        r == spray_round::is_first(models(old(nodes)@), origin_id, seq),
{
    let ghost before = models(nodes@);
    let idx: usize = origin_id as usize;
    if idx >= nodes.len() {
        return false;
    }
    assert(before[idx as int] == nodes@[idx as int]@);
    if is_settled(&nodes[idx].settled, seq) {
        return false;
    }
    nodes[idx].settled.push(seq);
    nodes[idx].last_channel = Some(channel);
    nodes[idx].last_resolved = Some(
        ResolvedBundle {
            seq,
            state: AckState::Pending,
            channel: Some(channel),
            tower_id: None,
            path: Vec::new(),
            ack_hops_completed: None,
        },
    );
    if let Some(p) = place_in_log(&nodes[idx].log, seq) {
        let mut record: TelemetryRecord = nodes[idx].log[p];
        record.channel = Some(channel);
        let _ = nodes[idx].log.remove(p);
        nodes[idx].log.insert(p, record);
        assert(nodes@[idx as int].log@ =~= before[idx as int].log.update(p as int, record));
    }
    assert(nodes@[idx as int]@ =~~= spray_round::noted(before[idx as int], seq, channel));
    assert(models(nodes@) =~~= spray_round::with_outcome(before, origin_id, seq, channel));
    true
}

/// Parts the copies held into those still alive and those gone.
fn part_copies(held: &VecDeque<Copy_>, round: u64, max_age: u64) -> (r: (
    VecDeque<Copy_>,
    Vec<Copy_>,
))
    ensures
        r.0@ == spray_round::live_copies(held@, held@.len(), round, max_age),
        r.1@ == spray_round::late_copies(held@, held@.len(), round, max_age),
        r.0@.len() <= held@.len(),
        r.1@.len() <= held@.len(),
{
    let mut live: VecDeque<Copy_> = VecDeque::new();
    let mut late: Vec<Copy_> = Vec::new();
    let mut k: usize = 0;
    while k < held.len()
        invariant
            k <= held@.len(),
            live@ == spray_round::live_copies(held@, k as nat, round, max_age),
            late@ == spray_round::late_copies(held@, k as nat, round, max_age),
            live@.len() <= k,
            late@.len() <= k,
        decreases held@.len() - k,
    {
        let c: Copy_ = held[k];
        if c.age(round) > max_age {
            late.push(c);
        } else {
            live.push_back(c);
        }
        k = k + 1;
    }
    (live, late)
}

/// What a round works on.
struct Round {
    nodes: Vec<EpiNode>,
    stats: EpidemicStats,
    latencies: Vec<u64>,
    events: Vec<CommsEvent>,
}

impl View for Round {
    type V = SprayState;

    closed spec fn view(&self) -> SprayState {
        SprayState {
            nodes: models(self.nodes@),
            stats: self.stats,
            latencies: self.latencies@,
            events: self.events@,
        }
    }
}

/// Whether two lists of nodes hold the same copies.
spec fn same_held(a: Seq<EpiModel>, b: Seq<EpiModel>) -> bool {
    &&& a.len() == b.len()
    &&& forall|j: int| 0 <= j < a.len() ==> (#[trigger] b[j]).held == a[j].held
}

impl Round {
    /// Drops the late copies of one node.
    fn expire_node(&mut self, i: usize, round: u64, max_age: u64)
        requires
            i < old(self)@.nodes.len(),
            old(self)@.stats.room(old(self)@.nodes[i as int].held.len() as int),
        ensures
            final(self)@ == spray_round::node_expired(old(self)@, i as int, round, max_age),
            old(self)@.stats.grown(
                final(self)@.stats,
                old(self)@.nodes[i as int].held.len() as int,
            ),
            final(self)@.nodes.len() == old(self)@.nodes.len(),
            forall|j: int|
                0 <= j < old(self)@.nodes.len() && j != i ==> (#[trigger] final(self)@.nodes[j]).held
                    == old(self)@.nodes[j].held,
            final(self)@.nodes[i as int].held.len() <= old(self)@.nodes[i as int].held.len(),
    {
        let ghost s0 = self@;
        let (live, late) = part_copies(&self.nodes[i].held, round, max_age);
        let ghost start = SprayState {
            nodes: s0.nodes.update(i as int, EpiModel { held: live@, ..s0.nodes[i as int] }),
            ..s0
        };
        self.nodes[i].held = live;
        assert(self@ =~~= start);
        let mut k: usize = 0;
        while k < late.len()
            invariant
                k <= late@.len(),
                late@.len() <= s0.nodes[i as int].held.len(),
                s0.stats.room(s0.nodes[i as int].held.len() as int),
                start.stats == s0.stats,
                self@ == spray_round::copies_expired(start, late@, k as nat),
                s0.stats.grown(self@.stats, k as int),
                same_held(start.nodes, self@.nodes),
            decreases late@.len() - k,
        {
            let c: Copy_ = late[k];
            let ghost before = self@;
            let first: bool = record_outcome(
                &mut self.nodes,
                c.origin_id,
                c.seq,
                Channel::Satellite,
            );
            self.stats.copies_expired = self.stats.copies_expired + 1;
            if first {
                self.stats.satellite = self.stats.satellite + 1;
            }
            assert(self@ =~~= spray_round::copy_expired(before, c));
            k = k + 1;
        }
    }

    /// Drops late copies from the first `m` nodes.
    fn expire(&mut self, m: usize, round: u64, max_age: u64)
        requires
            m <= old(self)@.nodes.len(),
            old(self)@.stats.room(spray_round::copies_held(old(self)@.nodes, m as nat) as int),
        ensures
            final(self)@ == spray_round::nodes_expired(old(self)@, round, max_age, m as nat),
            old(self)@.stats.grown(
                final(self)@.stats,
                spray_round::copies_held(old(self)@.nodes, m as nat) as int,
            ),
            final(self)@.nodes.len() == old(self)@.nodes.len(),
            forall|j: int|
                0 <= j < old(self)@.nodes.len() ==> (#[trigger] final(self)@.nodes[j]).held.len()
                    <= old(self)@.nodes[j].held.len(),
    {
        let ghost s0 = self@;
        let mut i: usize = 0;
        while i < m
            invariant
                i <= m,
                m <= s0.nodes.len(),
                s0.stats.room(spray_round::copies_held(s0.nodes, m as nat) as int),
                self@ == spray_round::nodes_expired(s0, round, max_age, i as nat),
                s0.stats.grown(self@.stats, spray_round::copies_held(s0.nodes, i as nat) as int),
                self@.nodes.len() == s0.nodes.len(),
                forall|j: int|
                    i <= j < s0.nodes.len() ==> (#[trigger] self@.nodes[j]).held
                        == s0.nodes[j].held,
                forall|j: int|
                    0 <= j < s0.nodes.len() ==> (#[trigger] self@.nodes[j]).held.len()
                        <= s0.nodes[j].held.len(),
            decreases m - i,
        {
            proof {
                lemma_held_grows(s0.nodes, (i + 1) as nat, m as nat);
            }
            assert(self@.nodes[i as int].held == s0.nodes[i as int].held);
            self.expire_node(i, round, max_age);
            i = i + 1;
        }
    }
}

proof fn lemma_held_grows(nodes: Seq<EpiModel>, k: nat, m: nat)
    requires
        k <= m,
    ensures
        spray_round::copies_held(nodes, k) <= spray_round::copies_held(nodes, m),
    decreases m - k,
{
    if k < m {
        lemma_held_grows(nodes, k, (m - 1) as nat);
    }
}


/// Ends the wait of a node that has waited too long.
fn give_up(n: &mut EpiNode, round: u64, max_age: u64)
    ensures
        final(n)@ == spray_round::given_up(old(n)@, round, max_age),
{
    let ghost before = n@;
    if let Some(o) = n.outstanding.as_mut() {
        if o.state == AckState::Pending && round.saturating_sub(o.created_at_round) > max_age {
            o.state = AckState::TimedOut;
        }
    }
    assert(n@ =~~= spray_round::given_up(before, round, max_age));
}

impl Round {
    /// Ends waits and moves those awake on to their next slot.
    fn wake(&mut self, m: usize, params: &EpidemicParams, round: u64, draws: &Vec<u64>) -> (up: Vec<
        bool,
    >)
        requires
            m <= old(self)@.nodes.len(),
            m <= draws@.len(),
            beacon::drawn(draws@, params.wake_jitter_rounds),
            beacon::schedule_fits(round, params.wake_interval_rounds, params.wake_jitter_rounds),
        ensures
            final(self)@ == spray_round::woken(old(self)@, *params, round, draws@, m as nat),
            up@ == spray_round::wake_set(old(self)@.nodes, m as nat, round),
            same_held(old(self)@.nodes, final(self)@.nodes),
            final(self)@.stats == old(self)@.stats,
            final(self)@.latencies == old(self)@.latencies,
            final(self)@.events == old(self)@.events,
    {
        let ghost s0 = self@;
        let mut up: Vec<bool> = Vec::new();
        let mut i: usize = 0;
        while i < m
            invariant
                i <= m,
                m <= s0.nodes.len(),
                m <= draws@.len(),
                beacon::drawn(draws@, params.wake_jitter_rounds),
                beacon::schedule_fits(
                    round,
                    params.wake_interval_rounds,
                    params.wake_jitter_rounds,
                ),
                up@.len() == i,
                forall|j: int|
                    0 <= j < i ==> #[trigger] up@[j] == spray_round::is_up(s0.nodes[j], round),
                self@.nodes.len() == s0.nodes.len(),
                self@.stats == s0.stats,
                self@.latencies == s0.latencies,
                self@.events == s0.events,
                forall|j: int|
                    0 <= j < i ==> #[trigger] self@.nodes[j] == spray_round::rescheduled(
                        spray_round::given_up(s0.nodes[j], round, params.bundle_max_age_rounds),
                        *params,
                        round,
                        draws@[j],
                    ),
                forall|j: int| i <= j < s0.nodes.len() ==> #[trigger] self@.nodes[j] == s0.nodes[j],
            decreases m - i,
        {
            let ghost before = self@.nodes;
            assert(before[i as int] == s0.nodes[i as int]);
            give_up(&mut self.nodes[i], round, params.bundle_max_age_rounds);
            let due: bool = round >= self.nodes[i].next_wake_round;
            if due {
                assert(draws@[i as int] <= 2 * params.wake_jitter_rounds);
                let next: u64 = beacon::next_slot_for(
                    round,
                    params.wake_interval_rounds,
                    params.wake_jitter_rounds,
                    draws[i],
                );
                self.nodes[i].next_wake_round = next;
            }
            up.push(due);
            assert(self@.nodes =~~= before.update(i as int, self@.nodes[i as int]));
            i = i + 1;
        }
        assert(self@ =~~= spray_round::woken(s0, *params, round, draws@, m as nat));
        assert(up@ =~= spray_round::wake_set(s0.nodes, m as nat, round));
        up
    }

    /// Hands the first copy that a node holds to a tower.
    fn land_copy(&mut self, i: usize, round: u64)
        requires
            i < old(self)@.nodes.len(),
            old(self)@.nodes[i as int].held.len() > 0,
            old(self)@.stats.room(1),
        ensures
            final(self)@ == spray_round::copy_landed(old(self)@, i as int, round),
            old(self)@.stats.grown(final(self)@.stats, 1),
            final(self)@.nodes.len() == old(self)@.nodes.len(),
            forall|j: int|
                0 <= j < old(self)@.nodes.len() && j != i ==> (#[trigger] final(self)@.nodes[j]).held
                    == old(self)@.nodes[j].held,
            final(self)@.nodes[i as int].held.len() == old(self)@.nodes[i as int].held.len() - 1,
    {
        let ghost s0 = self@;
        if let Some(c) = self.nodes[i].held.pop_front() {
            let ghost taken = self@.nodes;
            assert(taken =~~= s0.nodes.update(
                i as int,
                EpiModel {
                    held: s0.nodes[i as int].held.subrange(
                        1,
                        s0.nodes[i as int].held.len() as int,
                    ),
                    ..s0.nodes[i as int]
                },
            ));
            assert(c == s0.nodes[i as int].held[0]);
            let age: u64 = c.age(round);
            if record_outcome(&mut self.nodes, c.origin_id, c.seq, Channel::Radio) {
                self.stats.delivered = self.stats.delivered + 1;
                self.stats.delivery_latency.record(age);
                self.latencies.push(age);
            } else {
                self.stats.duplicate_arrivals = self.stats.duplicate_arrivals + 1;
            }
            assert(self@ =~~= spray_round::copy_landed(s0, i as int, round));
        }
    }

    /// One node's tower contact, if it is awake and has one.
    fn contact(
        &mut self,
        i: usize,
        balloons: &[Balloon],
        adj: &MeshAdjacency,
        params: &EpidemicParams,
        up: &Vec<bool>,
        round: u64,
    )
        requires
            i < old(self)@.nodes.len(),
            i < balloons@.len(),
            i < up@.len(),
            old(self)@.stats.room(old(self)@.nodes[i as int].held.len() as int),
        ensures
            final(self)@ == spray_round::delivery(
                old(self)@,
                balloons@,
                adj@,
                *params,
                up@,
                round,
                i as int,
            ),
            old(self)@.stats.grown(
                final(self)@.stats,
                old(self)@.nodes[i as int].held.len() as int,
            ),
            final(self)@.nodes.len() == old(self)@.nodes.len(),
            forall|j: int|
                0 <= j < old(self)@.nodes.len() && j != i ==> (#[trigger] final(self)@.nodes[j]).held
                    == old(self)@.nodes[j].held,
    {
        if !up[i] {
            return;
        }
        if let Some(tower_id) = adj.tower_in_range(i) {
            let ghost s0 = self@;
            let held: usize = self.nodes[i].held.len();
            let take: usize = if held < params.tower_contact {
                held
            } else {
                params.tower_contact
            };
            assert(take == spray_round::contact_size(s0.nodes[i as int], *params));
            if take > 0 {
                self.events.push(
                    CommsEvent {
                        kind: EventKind::Bundle,
                        from: NodeKey::Balloon(balloons[i].id),
                        to: NodeKey::Tower(tower_id),
                        payload: take as u32,
                        tower_id: Some(tower_id),
                        hop_count: None,
                        epoch: None,
                    },
                );
            }
            let ghost start = self@;
            let mut k: usize = 0;
            while k < take
                invariant
                    k <= take,
                    i < start.nodes.len(),
                    take <= start.nodes[i as int].held.len(),
                    start.stats.room(start.nodes[i as int].held.len() as int),
                    self@ == spray_round::copies_landed(start, i as int, round, k as nat),
                    start.stats.grown(self@.stats, k as int),
                    self@.nodes.len() == start.nodes.len(),
                    self@.nodes[i as int].held.len() == start.nodes[i as int].held.len() - k,
                    forall|j: int|
                        0 <= j < start.nodes.len() && j != i ==> (#[trigger] self@.nodes[j]).held
                            == start.nodes[j].held,
                decreases take - k,
            {
                self.land_copy(i, round);
                k = k + 1;
            }
        }
    }

    /// The tower contacts of the first `m` nodes.
    fn deliver(
        &mut self,
        m: usize,
        balloons: &[Balloon],
        adj: &MeshAdjacency,
        params: &EpidemicParams,
        up: &Vec<bool>,
        round: u64,
    )
        requires
            m <= old(self)@.nodes.len(),
            m <= balloons@.len(),
            m <= up@.len(),
            old(self)@.stats.room(spray_round::copies_held(old(self)@.nodes, m as nat) as int),
        ensures
            final(self)@ == spray_round::deliveries(
                old(self)@,
                balloons@,
                adj@,
                *params,
                up@,
                round,
                m as nat,
            ),
            old(self)@.stats.grown(
                final(self)@.stats,
                spray_round::copies_held(old(self)@.nodes, m as nat) as int,
            ),
            final(self)@.nodes.len() == old(self)@.nodes.len(),
    {
        let ghost s0 = self@;
        let mut i: usize = 0;
        while i < m
            invariant
                i <= m,
                m <= s0.nodes.len(),
                m <= balloons@.len(),
                m <= up@.len(),
                s0.stats.room(spray_round::copies_held(s0.nodes, m as nat) as int),
                self@ == spray_round::deliveries(
                    s0,
                    balloons@,
                    adj@,
                    *params,
                    up@,
                    round,
                    i as nat,
                ),
                s0.stats.grown(self@.stats, spray_round::copies_held(s0.nodes, i as nat) as int),
                self@.nodes.len() == s0.nodes.len(),
                forall|j: int|
                    i <= j < s0.nodes.len() ==> (#[trigger] self@.nodes[j]).held
                        == s0.nodes[j].held,
            decreases m - i,
        {
            proof {
                lemma_held_grows(s0.nodes, (i + 1) as nat, m as nat);
            }
            assert(self@.nodes[i as int].held == s0.nodes[i as int].held);
            self.contact(i, balloons, adj, params, up, round);
            i = i + 1;
        }
    }
}

/// The place of the first copy that may still be handed out.
fn place_to_spray(held: &VecDeque<Copy_>) -> (r: Option<usize>)
    ensures
        match r {
            Some(p) => p < held@.len() && held@[p as int].copies > 1 && spray_round::spray_place(
                held@,
                0,
            ) == Some(p as int),
            None => spray_round::spray_place(held@, 0) is None,
        },
{
    let mut k: usize = 0;
    while k < held.len()
        invariant
            k <= held@.len(),
            spray_round::spray_place(held@, 0) == spray_round::spray_place(held@, k as int),
        decreases held@.len() - k,
    {
        if held[k].copies > 1 {
            return Some(k);
        }
        k = k + 1;
    }
    None
}

/// The place of a record among the copies held.
fn place_of_copy(held: &VecDeque<Copy_>, origin_id: u32, seq: u64) -> (r: Option<usize>)
    ensures
        match r {
            Some(p) => p < held@.len() && spray_round::copy_place(held@, 0, origin_id, seq) == Some(
                p as int,
            ),
            None => spray_round::copy_place(held@, 0, origin_id, seq) is None,
        },
{
    let mut k: usize = 0;
    while k < held.len()
        invariant
            k <= held@.len(),
            spray_round::copy_place(held@, 0, origin_id, seq) == spray_round::copy_place(
                held@,
                k as int,
                origin_id,
                seq,
            ),
        decreases held@.len() - k,
    {
        if held[k].origin_id == origin_id && held[k].seq == seq {
            return Some(k);
        }
        k = k + 1;
    }
    None
}

/// The neighbours that lack a record.
fn those_lacking(nodes: &Vec<EpiNode>, list: &[u32], origin_id: u32, seq: u64) -> (r: Vec<u32>)
    ensures
        r@ == spray_round::candidates(models(nodes@), list@, list@.len(), origin_id, seq),
        forall|j: int| 0 <= j < r@.len() ==> (#[trigger] r@[j]) < nodes@.len(),
{
    let mut r: Vec<u32> = Vec::new();
    let mut k: usize = 0;
    while k < list.len()
        invariant
            k <= list@.len(),
            r@ == spray_round::candidates(models(nodes@), list@, k as nat, origin_id, seq),
            forall|j: int| 0 <= j < r@.len() ==> (#[trigger] r@[j]) < nodes@.len(),
        decreases list@.len() - k,
    {
        let nb: u32 = list[k];
        let idx: usize = nb as usize;
        if idx < nodes.len() {
            assert(models(nodes@)[idx as int] == nodes@[idx as int]@);
            if place_of_copy(&nodes[idx].held, origin_id, seq).is_none() {
                r.push(nb);
            }
        }
        k = k + 1;
    }
    r
}

/// A handover of copies.
struct SprayOut {
    from: usize,
    to: u32,
    copy: Copy_,
}

impl View for SprayOut {
    type V = Spray;

    closed spec fn view(&self) -> Spray {
        Spray { from: self.from as int, to: self.to, copy: self.copy }
    }
}

spec fn spray_models(out: Seq<SprayOut>) -> Seq<Spray> {
    out.map_values(|o: SprayOut| o@)
}

impl Round {
    spec fn gathered(self, out: Seq<SprayOut>) -> SprayGather {
        SprayGather { s: self@, sprays: spray_models(out) }
    }

    /// The neighbours that node `i` may spray to now. Empty if it sprays
    /// nothing this round.
    fn choices(&self, i: usize, adj: &MeshAdjacency, up: &Vec<bool>) -> (r: Vec<u32>)
        requires
            i < self@.nodes.len(),
            i < up@.len(),
        ensures
            r@ == spray_round::choices(self@.nodes, adj@, up@, i as int),
    {
        if !up[i] || adj.tower_in_range(i).is_some() {
            return Vec::new();
        }
        match place_to_spray(&self.nodes[i].held) {
            Some(p) => {
                let c: Copy_ = self.nodes[i].held[p];
                those_lacking(&self.nodes, adj.neighbors(i), c.origin_id, c.seq)
            },
            None => Vec::new(),
        }
    }

    /// Gathers what one node sprays.
    fn spray(
        &mut self,
        i: usize,
        adj: &MeshAdjacency,
        up: &Vec<bool>,
        picks: &Vec<u64>,
        out: &mut Vec<SprayOut>,
    )
        requires
            i < old(self)@.nodes.len(),
            i < up@.len(),
            i < picks@.len(),
            old(self)@.stats.room(1),
        ensures
            final(self).gathered(final(out)@) == spray_round::sprayed(
                old(self).gathered(old(out)@),
                adj@,
                up@,
                picks@,
                i as int,
            ),
            old(self)@.stats.grown(final(self)@.stats, 1),
            final(self)@.nodes.len() == old(self)@.nodes.len(),
            final(out)@.len() <= old(out)@.len() + 1,
            forall|j: int|
                0 <= j < final(out)@.len() ==> j < old(out)@.len() && final(out)@[j] == old(
                    out,
                )@[j] || (#[trigger] final(out)@[j])@.from == i,
    {
        let ghost s0 = self@;
        let ghost out0 = out@;
        if !up[i] || adj.tower_in_range(i).is_some() {
            return;
        }
        if let Some(p) = place_to_spray(&self.nodes[i].held) {
            let list: &[u32] = adj.neighbors(i);
            if list.len() == 0 {
                return;
            }
            let c: Copy_ = self.nodes[i].held[p];
            let able: Vec<u32> = those_lacking(&self.nodes, list, c.origin_id, c.seq);
            if able.len() == 0 {
                self.stats.no_candidate = self.stats.no_candidate + 1;
                assert(self@.nodes == s0.nodes);
                return;
            }
            let which: usize = (picks[i] % (able.len() as u64)) as usize;
            let to: u32 = able[which];
            let give: u32 = c.copies / 2;
            let kept: Copy_ = Copy_ { copies: c.copies - give, ..c };
            let _ = self.nodes[i].held.remove(p);
            self.nodes[i].held.insert(p, kept);
            assert(self.nodes@[i as int].held@ =~= s0.nodes[i as int].held.update(
                p as int,
                kept,
            ));
            out.push(SprayOut { from: i, to, copy: Copy_ { copies: give, ..c } });
            assert(spray_models(out@) =~= spray_models(out0).push(
                Spray { from: i as int, to, copy: Copy_ { copies: give, ..c } },
            ));
            assert(self@.nodes =~~= s0.nodes.update(
                i as int,
                EpiModel {
                    held: s0.nodes[i as int].held.update(p as int, kept),
                    ..s0.nodes[i as int]
                },
            ));
        }
    }
}

impl Round {
    /// Gathers what the first `m` nodes spray.
    fn spray_all(&mut self, m: usize, adj: &MeshAdjacency, up: &Vec<bool>, picks: &Vec<u64>) -> (
        out: Vec<SprayOut>)
        requires
            m <= old(self)@.nodes.len(),
            m <= up@.len(),
            m <= picks@.len(),
            old(self)@.stats.room(m as int),
        ensures
            final(self).gathered(out@) == spray_round::all_sprayed(
                SprayGather { s: old(self)@, sprays: Seq::empty() },
                adj@,
                up@,
                picks@,
                m as nat,
            ),
            old(self)@.stats.grown(final(self)@.stats, m as int),
            final(self)@.nodes.len() == old(self)@.nodes.len(),
            out@.len() <= m,
            forall|j: int| 0 <= j < out@.len() ==> (#[trigger] out@[j])@.from < m,
    {
        let ghost s0 = self@;
        let mut out: Vec<SprayOut> = Vec::new();
        assert(spray_models(out@) =~= Seq::empty());
        let mut i: usize = 0;
        while i < m
            invariant
                i <= m,
                m <= s0.nodes.len(),
                m <= up@.len(),
                m <= picks@.len(),
                s0.stats.room(m as int),
                self.gathered(out@) == spray_round::all_sprayed(
                    SprayGather { s: s0, sprays: Seq::empty() },
                    adj@,
                    up@,
                    picks@,
                    i as nat,
                ),
                s0.stats.grown(self@.stats, i as int),
                self@.nodes.len() == s0.nodes.len(),
                out@.len() <= i,
                forall|j: int| 0 <= j < out@.len() ==> (#[trigger] out@[j])@.from < m,
            decreases m - i,
        {
            self.spray(i, adj, up, picks, &mut out);
            i = i + 1;
        }
        out
    }

    /// Hands copies over, or back.
    fn hand(&mut self, balloons: &[Balloon], params: &EpidemicParams, h: &SprayOut)
        requires
            h@.from < old(self)@.nodes.len(),
            h@.from < balloons@.len(),
            old(self)@.stats.room(1),
        ensures
            final(self)@ == spray_round::copies_handed(old(self)@, balloons@, *params, h@),
            old(self)@.stats.grown(final(self)@.stats, 1),
            final(self)@.nodes.len() == old(self)@.nodes.len(),
    {
        let ghost s0 = self@;
        let to_idx: usize = h.to as usize;
        let has_room: bool = to_idx < self.nodes.len() && self.nodes[to_idx].held.len()
            < params.relay_queue_capacity;
        if !has_room {
            self.stats.blocked = self.stats.blocked + 1;
            if let Some(p) = place_of_copy(
                &self.nodes[h.from].held,
                h.copy.origin_id,
                h.copy.seq,
            ) {
                let mut c: Copy_ = self.nodes[h.from].held[p];
                c.copies = c.copies.saturating_add(h.copy.copies);
                let _ = self.nodes[h.from].held.remove(p);
                self.nodes[h.from].held.insert(p, c);
                assert(self.nodes@[h.from as int].held@ =~= s0.nodes[h.from as int].held.update(
                    p as int,
                    c,
                ));
            }
            assert(self@ =~~= spray_round::copies_handed(s0, balloons@, *params, h@));
            return;
        }
        self.events.push(
            CommsEvent {
                kind: EventKind::Bundle,
                from: NodeKey::Balloon(balloons[h.from].id),
                to: NodeKey::Balloon(h.to),
                payload: 1,
                tower_id: None,
                hop_count: None,
                epoch: None,
            },
        );
        self.stats.handoffs = self.stats.handoffs + 1;
        self.nodes[to_idx].held.push_back(h.copy);
        assert(self@ =~~= spray_round::copies_handed(s0, balloons@, *params, h@));
    }

    fn hand_all(&mut self, balloons: &[Balloon], params: &EpidemicParams, out: &Vec<SprayOut>)
        requires
            forall|j: int|
                0 <= j < out@.len() ==> (#[trigger] out@[j])@.from < old(self)@.nodes.len()
                    && out@[j]@.from < balloons@.len(),
            old(self)@.stats.room(out@.len() as int),
        ensures
            final(self)@ == spray_round::all_handed(
                old(self)@,
                balloons@,
                *params,
                spray_models(out@),
                out@.len(),
            ),
            old(self)@.stats.grown(final(self)@.stats, out@.len() as int),
            final(self)@.nodes.len() == old(self)@.nodes.len(),
    {
        let ghost s0 = self@;
        let mut k: usize = 0;
        while k < out.len()
            invariant
                k <= out@.len(),
                forall|j: int|
                    0 <= j < out@.len() ==> (#[trigger] out@[j])@.from < s0.nodes.len()
                        && out@[j]@.from < balloons@.len(),
                s0.stats.room(out@.len() as int),
                self@ == spray_round::all_handed(
                    s0,
                    balloons@,
                    *params,
                    spray_models(out@),
                    k as nat,
                ),
                s0.stats.grown(self@.stats, k as int),
                self@.nodes.len() == s0.nodes.len(),
            decreases out@.len() - k,
        {
            assert(spray_models(out@)[k as int] == out@[k as int]@);
            self.hand(balloons, params, &out[k]);
            k = k + 1;
        }
    }

    /// A new record from one node, if it is due and has room.
    fn originate(
        &mut self,
        i: usize,
        balloons: &[Balloon],
        params: &EpidemicParams,
        up: &Vec<bool>,
        round: u64,
    )
        requires
            i < old(self)@.nodes.len(),
            i < balloons@.len(),
            i < up@.len(),
            old(self)@.stats.room(1),
            old(self)@.nodes[i as int].bundle_seq < u64::MAX,
            round + params.bundle_interval_rounds <= u64::MAX,
        ensures
            final(self)@ == spray_round::origination(
                old(self)@,
                balloons@,
                *params,
                up@,
                round,
                i as int,
            ),
            old(self)@.stats.grown(final(self)@.stats, 1),
            final(self)@.nodes.len() == old(self)@.nodes.len(),
    {
        let ghost s0 = self@;
        if !up[i] {
            return;
        }
        let id: u32 = balloons[i].id;
        if round < self.nodes[i].next_bundle_round || self.nodes[i].held.len()
            >= params.relay_queue_capacity || holds_own(&self.nodes[i].held, id) {
            return;
        }
        let seq: u64 = self.nodes[i].bundle_seq;
        let record: TelemetryRecord = TelemetryRecord::sample(&balloons[i], seq, round);
        if self.nodes[i].log.len() >= params.comms_log_capacity {
            let _ = self.nodes[i].log.pop_front();
        }
        self.nodes[i].log.push_back(record);
        self.nodes[i].held.push_back(
            Copy_ {
                origin_id: id,
                seq,
                created_at_round: round,
                record,
                copies: params.copies,
            },
        );
        self.nodes[i].outstanding = Some(
            OutstandingBundle {
                seq,
                created_at_round: round,
                state: AckState::Pending,
                path: None,
                channel: None,
                tower_id: None,
                ack_hops_completed: None,
            },
        );
        self.nodes[i].bundle_seq = seq + 1;
        self.nodes[i].next_bundle_round = round + params.bundle_interval_rounds;
        self.stats.originated = self.stats.originated + 1;
        assert(self.nodes@[i as int]@ =~~= spray_round::originating(
            s0.nodes[i as int],
            balloons@[i as int],
            *params,
            round,
        ));
        assert(self@ =~~= spray_round::origination(
            s0,
            balloons@,
            *params,
            up@,
            round,
            i as int,
        ));
    }

    fn originate_all(
        &mut self,
        m: usize,
        balloons: &[Balloon],
        params: &EpidemicParams,
        up: &Vec<bool>,
        round: u64,
    )
        requires
            m <= old(self)@.nodes.len(),
            m <= balloons@.len(),
            m <= up@.len(),
            old(self)@.stats.room(m as int),
            forall|j: int|
                0 <= j < m ==> (#[trigger] old(self)@.nodes[j]).bundle_seq < u64::MAX,
            round + params.bundle_interval_rounds <= u64::MAX,
        ensures
            final(self)@ == spray_round::originations(
                old(self)@,
                balloons@,
                *params,
                up@,
                round,
                m as nat,
            ),
    {
        let ghost s0 = self@;
        let mut i: usize = 0;
        while i < m
            invariant
                i <= m,
                m <= s0.nodes.len(),
                m <= balloons@.len(),
                m <= up@.len(),
                s0.stats.room(m as int),
                forall|j: int| 0 <= j < m ==> (#[trigger] s0.nodes[j]).bundle_seq < u64::MAX,
                round + params.bundle_interval_rounds <= u64::MAX,
                self@ == spray_round::originations(
                    s0,
                    balloons@,
                    *params,
                    up@,
                    round,
                    i as nat,
                ),
                s0.stats.grown(self@.stats, i as int),
                self@.nodes.len() == s0.nodes.len(),
                forall|j: int| i <= j < s0.nodes.len() ==> #[trigger] self@.nodes[j] == s0.nodes[j],
            decreases m - i,
        {
            assert(self@.nodes[i as int] == s0.nodes[i as int]);
            self.originate(i, balloons, params, up, round);
            i = i + 1;
        }
    }
}

/// Whether a balloon holds a copy of a record of its own.
fn holds_own(held: &VecDeque<Copy_>, id: u32) -> (r: bool)
    ensures
        r == spray_round::holds_own(held@, id),
{
    let mut k: usize = 0;
    while k < held.len()
        invariant
            k <= held@.len(),
            forall|j: int| 0 <= j < k ==> (#[trigger] held@[j]).origin_id != id,
        decreases held@.len() - k,
    {
        if held[k].origin_id == id {
            assert(held@[k as int].origin_id == id);
            return true;
        }
        k = k + 1;
    }
    false
}

/// Nothing here has a route, a path or a receipt.
pub open spec fn capabilities_of() -> CapabilitiesModel {
    CapabilitiesModel {
        name: "epidemic"@,
        label: "Binary spray-and-wait (replication)"@,
        route_belief: false,
        next_hop_paths: false,
        acks: false,
        satellite_fallback: true,
        event_kinds: seq![EventKind::Bundle],
    }
}

/// Binary spray-and-wait over the fleet.
pub struct Epidemic {
    pub params: EpidemicParams,
    pub nodes: Vec<EpiNode>,
    pub stats: EpidemicStats,
    /// What each first arrival took, in rounds and in the order of arrival.
    pub latencies: Vec<u64>,
    pub rng: StdRng,
}

/// A round as far as the tower contacts.
struct Halfway {
    work: Round,
    up: Vec<bool>,
    m: usize,
}

proof fn lemma_fewer_held(a: Seq<EpiModel>, b: Seq<EpiModel>, k: nat)
    requires
        k <= a.len(),
        a.len() == b.len(),
        forall|j: int|
            0 <= j < a.len() ==> (#[trigger] b[j]).held.len() <= a[j].held.len(),
    ensures
        spray_round::copies_held(b, k) <= spray_round::copies_held(a, k),
    decreases k,
{
    if k > 0 {
        lemma_fewer_held(a, b, (k - 1) as nat);
    }
}

/// Adds up two growths.
proof fn lemma_growth_adds(a: EpidemicStats, b: EpidemicStats, c: EpidemicStats, x: int, y: int)
    requires
        a.grown(b, x),
        b.grown(c, y),
    ensures
        a.grown(c, x + y),
{
}

impl Epidemic {
    /// The state a round works on.
    pub open spec fn state(self) -> SprayState {
        SprayState {
            nodes: models(self.nodes@),
            stats: self.stats,
            latencies: self.latencies@,
            events: Seq::empty(),
        }
    }

    /// The outcome of a round that gave these events.
    pub open spec fn outcome(self, events: Seq<CommsEvent>) -> SprayState {
        SprayState {
            nodes: models(self.nodes@),
            stats: self.stats,
            latencies: self.latencies@,
            events,
        }
    }

    pub fn new() -> (r: Epidemic)
        ensures
            r.params == params::default_params(),
            r.nodes@ == Seq::<EpiNode>::empty(),
            r.stats == stats::no_stats(),
            r.latencies@ == Seq::<u64>::empty(),
    {
        Epidemic::with_params(EpidemicParams::default())
    }

    pub fn with_params(params: EpidemicParams) -> (r: Epidemic)
        ensures
            r.params == params,
            r.nodes@ == Seq::<EpiNode>::empty(),
            r.stats == stats::no_stats(),
            r.latencies@ == Seq::<u64>::empty(),
    {
        Epidemic {
            params,
            nodes: Vec::new(),
            stats: EpidemicStats::default(),
            latencies: Vec::new(),
            rng: chance::from_entropy(),
        }
    }

    /// Notes the outcome of one of an origin's records, and tells whether it is
    /// the first for that record: later ones leave everything as it is.
    pub fn record_outcome(&mut self, origin_id: u32, seq: u64, channel: Channel) -> (r: bool)
        ensures
            final(self).state().nodes == spray_round::with_outcome(
                old(self).state().nodes,
                origin_id,
                seq,
                channel,
            ),
            final(self).stats == old(self).stats,
            final(self).latencies == old(self).latencies,
            final(self).params == old(self).params,
            r == spray_round::is_first(old(self).state().nodes, origin_id, seq),
    {
        record_outcome(&mut self.nodes, origin_id, seq, channel)
    }

    pub fn spec_name(&self) -> (r: &'static str)
        ensures
            r@ == "epidemic"@,
    {
        "epidemic"
    }

    pub fn capabilities(&self) -> (r: Capabilities)
        ensures
            r@ == capabilities_of(),
    {
        let r: Capabilities = Capabilities {
            name: "epidemic",
            label: "Binary spray-and-wait (replication)",
            route_belief: false,
            next_hop_paths: false,
            acks: false,
            satellite_fallback: true,
            event_kinds: vec![EventKind::Bundle],
        };
        assert(r@ =~= capabilities_of());
        r
    }

    /// Makes the draws to come those of a seed.
    pub fn reseed(&mut self, seed: u64)
        ensures
            final(self).params == old(self).params,
            final(self).nodes == old(self).nodes,
            final(self).stats == old(self).stats,
            final(self).latencies == old(self).latencies,
            final(self).rng == chance::generator(seed),
    {
        self.rng = chance::seeded(seed);
    }

    pub fn clear_nodes(&mut self)
        ensures
            final(self).nodes@ == Seq::<EpiNode>::empty(),
            final(self).params == old(self).params,
            final(self).stats == old(self).stats,
            final(self).latencies == old(self).latencies,
    {
        self.nodes.clear();
    }

    /// Adds a node that is to wake and to originate first at the given rounds.
    pub fn spawn_node_at(&mut self, next_wake_round: u64, next_bundle_round: u64)
        ensures
            models(final(self).nodes@) == models(old(self).nodes@).push(
                fresh_node(next_wake_round, next_bundle_round),
            ),
            final(self).params == old(self).params,
            final(self).stats == old(self).stats,
            final(self).latencies == old(self).latencies,
    {
        let ghost before = models(self.nodes@);
        let mut node: EpiNode = EpiNode::default();
        node.next_wake_round = next_wake_round;
        node.next_bundle_round = next_bundle_round;
        assert(node@ =~~= fresh_node(next_wake_round, next_bundle_round));
        self.nodes.push(node);
        assert(models(self.nodes@) =~~= before.push(node@));
    }

    /// Adds a node with first slots drawn over one interval each.
    pub fn spawn_node(&mut self)
        requires
            old(self).params.wake_interval_rounds > 0,
            old(self).params.bundle_interval_rounds > 0,
        ensures
            exists|wake: u64, first: u64|
                wake < old(self).params.wake_interval_rounds && first < old(
                    self,
                ).params.bundle_interval_rounds && models(final(self).nodes@) == models(
                    old(self).nodes@,
                ).push(#[trigger] fresh_node(wake, first)),
            final(self).params == old(self).params,
            final(self).stats == old(self).stats,
            final(self).latencies == old(self).latencies,
    {
        let next_wake_round: u64 = chance::draw_up_to(
            &mut self.rng,
            self.params.wake_interval_rounds - 1,
        );
        let next_bundle_round: u64 = chance::draw_up_to(
            &mut self.rng,
            self.params.bundle_interval_rounds - 1,
        );
        self.spawn_node_at(next_wake_round, next_bundle_round);
    }

    /// Towers have no state of their own here.
    pub fn add_tower(&mut self, _id: u32)
        ensures
            *final(self) == *old(self),
    {
    }

    pub fn remove_tower(&mut self, _id: u32)
        ensures
            *final(self) == *old(self),
    {
    }

    /// Runs a round as far as the tower contacts.
    fn open_round(&mut self, ctx: StepCtx<'_>, draws: &Vec<u64>) -> (h: Halfway)
        requires
            spray_round::round_fits(old(self).state(), old(self).params, ctx.round),
            draws@.len() >= spray_round::taking_part(old(self).state().nodes, ctx.balloons@),
            beacon::drawn(draws@, old(self).params.wake_jitter_rounds),
        ensures
            final(self).params == old(self).params,
            h.m == spray_round::taking_part(old(self).state().nodes, ctx.balloons@),
            h.work@ == spray_round::spray_delivered(
                old(self).state(),
                ctx.balloons@,
                ctx.adj@,
                old(self).params,
                ctx.round,
                draws@,
            ),
            h.up@ == spray_round::spray_awake(
                old(self).state(),
                ctx.balloons@,
                old(self).params,
                ctx.round,
            ),
            old(self).stats.grown(
                h.work@.stats,
                (2 * spray_round::copies_held(
                    old(self).state().nodes,
                    old(self).state().nodes.len(),
                )) as int,
            ),
            spray_laws::same_seqs(old(self).state().nodes, h.work@.nodes),
    {
        let ghost s0 = self.state();
        let ghost held = spray_round::copies_held(s0.nodes, s0.nodes.len());
        let m: usize = if self.nodes.len() < ctx.balloons.len() {
            self.nodes.len()
        } else {
            ctx.balloons.len()
        };
        let params: EpidemicParams = self.params;
        let mut work: Round = Round {
            nodes: Vec::new(),
            stats: self.stats,
            latencies: Vec::new(),
            events: Vec::new(),
        };
        std::mem::swap(&mut work.nodes, &mut self.nodes);
        std::mem::swap(&mut work.latencies, &mut self.latencies);
        assert(work@ =~~= s0);
        proof {
            lemma_held_grows(s0.nodes, m as nat, s0.nodes.len());
        }
        work.expire(m, ctx.round, params.bundle_max_age_rounds);
        let ghost opened = work@;
        proof {
            spray_laws::lemma_expired_keep_seqs(
                s0,
                ctx.round,
                params.bundle_max_age_rounds,
                m as nat,
            );
            lemma_fewer_held(s0.nodes, opened.nodes, m as nat);
        }
        let up: Vec<bool> = work.wake(m, &params, ctx.round, draws);
        let ghost woken = work@;
        proof {
            lemma_fewer_held(opened.nodes, woken.nodes, m as nat);
        }
        work.deliver(m, ctx.balloons, ctx.adj, &params, &up, ctx.round);
        proof {
            spray_laws::lemma_deliveries_keep_seqs(
                woken,
                ctx.balloons@,
                ctx.adj@,
                params,
                up@,
                ctx.round,
                m as nat,
            );
            lemma_growth_adds(s0.stats, opened.stats, work@.stats, held as int, held as int);
        }
        Halfway { work, up, m }
    }

    /// Runs the rest of a round.
    fn close_round(&mut self, ctx: StepCtx<'_>, h: Halfway, picks: &Vec<u64>) -> (events: Vec<
        CommsEvent,
    >)
        requires
            h.m <= h.work@.nodes.len(),
            h.m <= ctx.balloons@.len(),
            h.m == h.up@.len(),
            h.m <= picks@.len(),
            h.work@.stats.room((3 * h.m) as int),
            forall|j: int|
                0 <= j < h.work@.nodes.len() ==> (#[trigger] h.work@.nodes[j]).bundle_seq
                    < u64::MAX,
            ctx.round + old(self).params.bundle_interval_rounds <= u64::MAX,
        ensures
            final(self).params == old(self).params,
            ({
                let g = spray_round::all_sprayed(
                    SprayGather { s: h.work@, sprays: Seq::empty() },
                    ctx.adj@,
                    h.up@,
                    picks@,
                    h.m as nat,
                );
                let handed = spray_round::all_handed(
                    g.s,
                    ctx.balloons@,
                    old(self).params,
                    g.sprays,
                    g.sprays.len(),
                );
                final(self).outcome(events@) == spray_round::originations(
                    handed,
                    ctx.balloons@,
                    old(self).params,
                    h.up@,
                    ctx.round,
                    h.m as nat,
                )
            }),
    {
        let params: EpidemicParams = self.params;
        let Halfway { mut work, up, m } = h;
        let ghost s1 = work@;
        let out: Vec<SprayOut> = work.spray_all(m, ctx.adj, &up, picks);
        let ghost s2 = work@;
        assert(spray_models(out@).len() == out@.len());
        work.hand_all(ctx.balloons, &params, &out);
        let ghost s3 = work@;
        proof {
            lemma_growth_adds(s1.stats, s2.stats, s3.stats, m as int, out@.len() as int);
            spray_laws::lemma_sprays_keep_seqs(
                SprayGather { s: s1, sprays: Seq::empty() },
                ctx.adj@,
                up@,
                picks@,
                m as nat,
                m as int,
            );
            spray_laws::lemma_handing_keeps_seqs(
                s2,
                ctx.balloons@,
                params,
                spray_models(out@),
                out@.len(),
            );
        }
        work.originate_all(m, ctx.balloons, &params, &up, ctx.round);
        let Round { nodes, stats, latencies, events } = work;
        self.nodes = nodes;
        self.stats = stats;
        self.latencies = latencies;
        events
    }

    /// One comms round for given jitter draws, one per node, and picks among
    /// the neighbours that lack a record, one per node and taken around the
    /// list.
    pub fn step_with(&mut self, ctx: StepCtx<'_>, draws: &Vec<u64>, picks: &Vec<u64>) -> (events:
        Vec<CommsEvent>)
        requires
            spray_round::round_fits(old(self).state(), old(self).params, ctx.round),
            draws@.len() >= spray_round::taking_part(old(self).state().nodes, ctx.balloons@),
            picks@.len() >= spray_round::taking_part(old(self).state().nodes, ctx.balloons@),
            beacon::drawn(draws@, old(self).params.wake_jitter_rounds),
        ensures
            final(self).params == old(self).params,
            final(self).outcome(events@) == spray_round::spray_round(
                old(self).state(),
                ctx.balloons@,
                ctx.adj@,
                old(self).params,
                ctx.round,
                draws@,
                picks@,
            ),
    {
        let h: Halfway = self.open_round(ctx, draws);
        self.close_round(ctx, h, picks)
    }

    /// One comms round.
    pub fn step(&mut self, ctx: StepCtx<'_>) -> (events: Vec<CommsEvent>)
        requires
            spray_round::round_fits(old(self).state(), old(self).params, ctx.round),
        ensures
            final(self).params == old(self).params,
            exists|draws: Seq<u64>, picks: Seq<u64>|
                spray_round::chances_fit(
                    old(self).state(),
                    ctx.balloons@,
                    old(self).params,
                    draws,
                    picks,
                ) && final(self).outcome(events@) == #[trigger] spray_round::spray_round(
                    old(self).state(),
                    ctx.balloons@,
                    ctx.adj@,
                    old(self).params,
                    ctx.round,
                    draws,
                    picks,
                ),
    {
        let jitter: u64 = self.params.wake_jitter_rounds;
        let mut draws: Vec<u64> = Vec::new();
        while draws.len() < self.nodes.len() && draws.len() < ctx.balloons.len()
            invariant
                draws@.len() <= self.nodes@.len(),
                draws@.len() <= ctx.balloons@.len(),
                beacon::drawn(draws@, jitter),
                2 * jitter <= u64::MAX,
                self.params == old(self).params,
                self.nodes == old(self).nodes,
                self.stats == old(self).stats,
                self.latencies == old(self).latencies,
            decreases self.nodes@.len() - draws@.len(),
        {
            let i: usize = draws.len();
            let draw: u64 = if ctx.round >= self.nodes[i].next_wake_round {
                chance::draw_up_to(&mut self.rng, 2 * jitter)
            } else {
                0
            };
            draws.push(draw);
        }
        let h: Halfway = self.open_round(ctx, &draws);
        let mut picks: Vec<u64> = Vec::new();
        while picks.len() < h.m
            invariant
                picks@.len() <= h.m,
                h.m <= h.work@.nodes.len(),
                h.m == h.up@.len(),
                self.params == old(self).params,
            decreases h.m - picks@.len(),
        {
            let able: Vec<u32> = h.work.choices(picks.len(), ctx.adj, &h.up);
            let pick: u64 = if able.len() > 0 {
                chance::draw_up_to(&mut self.rng, able.len() as u64 - 1)
            } else {
                0
            };
            picks.push(pick);
        }
        let events: Vec<CommsEvent> = self.close_round(ctx, h, &picks);
        assert(self.outcome(events@) == spray_round::spray_round(
            old(self).state(),
            ctx.balloons@,
            ctx.adj@,
            old(self).params,
            ctx.round,
            draws@,
            picks@,
        ));
        events
    }
}

impl Epidemic {
    /// The published view of a node. There is no route to have an opinion
    /// about, so none is ever claimed.
    pub fn node_view(&self, i: usize) -> (r: NodeCommsView)
        ensures
            r == (NodeCommsView {
                route_hops: None,
                last_channel: if i < self.nodes@.len() {
                    self.nodes@[i as int].last_channel
                } else {
                    None
                },
            }),
    {
        NodeCommsView {
            route_hops: None,
            last_channel: if i < self.nodes.len() {
                self.nodes[i].last_channel
            } else {
                None
            },
        }
    }

    /// Copies held across the visible slice.
    pub fn carrying(&self, visible: usize) -> (r: u64)
        ensures
            r == tables::capped(
                spray_round::copies_held(
                    models(self.nodes@),
                    if visible < self.nodes@.len() {
                        visible as nat
                    } else {
                        self.nodes@.len()
                    },
                ) as int,
            ),
    {
        let m: usize = if visible < self.nodes.len() {
            visible
        } else {
            self.nodes.len()
        };
        let ghost all = models(self.nodes@);
        let mut sum: u64 = 0;
        let mut i: usize = 0;
        while i < m
            invariant
                i <= m,
                m <= self.nodes@.len(),
                all == models(self.nodes@),
                sum == tables::capped(spray_round::copies_held(all, i as nat) as int),
            decreases m - i,
        {
            assert(all[i as int] == self.nodes@[i as int]@);
            sum = sum.saturating_add(self.nodes[i].held.len() as u64);
            i = i + 1;
        }
        sum
    }

    /// Nothing is ever stranded for want of a route: routes do not exist.
    pub fn stranded(&self, _visible: usize) -> (r: u64)
        ensures
            r == 0,
    {
        0
    }

    pub fn delivered(&self) -> (r: u64)
        ensures
            r == self.stats.delivered,
    {
        self.stats.delivered
    }

    pub fn resolved(&self) -> (r: u64)
        ensures
            r == tables::capped(self.stats.delivered + self.stats.satellite),
    {
        self.stats.resolved()
    }

    /// The canonical counters, and what replication specifically costs.
    pub fn stats(&self) -> (r: StatsTable)
        requires
            self.stats.delivered + self.stats.satellite <= u64::MAX,
        ensures
            r@ == self.stats.table(self.latencies@),
    {
        let st: &EpidemicStats = &self.stats;
        let r: StatsTable = StatsTable::new().count("originated", st.originated).count(
            "delivered",
            st.delivered,
        ).count("resolved", st.resolved()).ratio("completion_rate", st.completion_rate()).count(
            "satellite",
            st.satellite,
        ).count("blocked", st.blocked).count("duplicate_arrivals", st.duplicate_arrivals).count(
            "copies_expired",
            st.copies_expired,
        ).count("handoffs", st.handoffs).count("no_candidate", st.no_candidate).ratio(
            "handoffs_per_delivery",
            st.handoffs_per_delivery(),
        ).count("unresolved", st.unresolved()).ratio(
            "unresolved_share",
            st.unresolved_share(),
        ).ratio("delivered_per_originated", st.delivered_per_originated()).ratio(
            "satellite_share",
            st.satellite_share(),
        ).ratio("delivery_latency_mean", st.delivery_latency.mean()).ratio(
            "delivery_latency_p95",
            tables::ratio(tables::percentile(&self.latencies, 95), 1),
        );
        assert(r@ =~= self.stats.table(self.latencies@));
        r
    }

    /// No single path exists to replay.
    pub fn last_bundle(&self, _i: usize) -> (r: Option<LastBundleView>)
        ensures
            r is None,
    {
        None
    }

    /// A node's telemetry, newest first.
    pub fn log(&self, i: usize) -> (r: Vec<TelemetryRecord>)
        ensures
            r@ == (if i < self.nodes@.len() {
                self.nodes@[i as int].log@.reverse()
            } else {
                Seq::empty()
            }),
    {
        if i < self.nodes.len() {
            telemetry::newest_first(&self.nodes[i].log)
        } else {
            Vec::new()
        }
    }

    /// Stops all origination.
    pub fn halt_origination(&mut self)
        ensures
            models(final(self).nodes@) == models(old(self).nodes@).map_values(
                |n: EpiModel| EpiModel { next_bundle_round: u64::MAX, ..n },
            ),
            final(self).params == old(self).params,
            final(self).stats == old(self).stats,
            final(self).latencies == old(self).latencies,
    {
        let ghost before = models(self.nodes@);
        let mut i: usize = 0;
        while i < self.nodes.len()
            invariant
                i <= self.nodes@.len(),
                self.nodes@.len() == before.len(),
                self.params == old(self).params,
                self.stats == old(self).stats,
                self.latencies == old(self).latencies,
                forall|j: int|
                    0 <= j < i ==> (#[trigger] self.nodes@[j])@ == (EpiModel {
                        next_bundle_round: u64::MAX,
                        ..before[j]
                    }),
                forall|j: int| i <= j < before.len() ==> (#[trigger] self.nodes@[j])@ == before[j],
            decreases self.nodes@.len() - i,
        {
            self.nodes[i].next_bundle_round = u64::MAX;
            i = i + 1;
        }
        assert(models(self.nodes@) =~~= before.map_values(
            |n: EpiModel| EpiModel { next_bundle_round: u64::MAX, ..n },
        ));
    }
}
} // verus!
