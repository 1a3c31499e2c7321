//! Telemetry bundles: carried hop by hop along each holder's believed next
//! hop, acknowledged back along the recorded path, handed to satellite when
//! they run out of time.
use std::collections::VecDeque;

use vstd::prelude::*;

use crate::balloon::Balloon;
use crate::link_detection::NodeKey;
use crate::mesh_adjacency::MeshAdjacency;
use crate::protocol::{CommsEvent, EventKind};
use crate::telemetry::TelemetryRecord;

use super::bundle_round;
use super::bundle_round::{AckGather, AckMove, Gather, Handoff, RoundState};
use super::bundle_stats;
use super::bundle_stats::BundleStats;
use super::params::{AckPolicy, DvDtnParams, QueueDiscipline};
use super::DvNode;

verus! {

/// Rounds from `since` to `round`, zero if `since` is still to come.
pub open spec fn rounds_since(since: u64, round: u64) -> int {
    if round >= since {
        round - since
    } else {
        0
    }
}

/// One unit of telemetry in transit.
#[derive(Debug, Clone)]
pub struct Bundle {
    pub origin_id: u32,
    pub seq: u64,
    pub created_at_round: u64,
    /// What the origin measured: the copy that travels.
    pub record: TelemetryRecord,
    /// Every balloon that has held this bundle, in order, origin first.
    pub path: Vec<u32>,
}

/// The mathematical content of a `Bundle`.
#[verifier::ext_equal]
pub struct BundleModel {
    pub origin_id: u32,
    pub seq: u64,
    pub created_at_round: u64,
    pub record: TelemetryRecord,
    pub path: Seq<u32>,
}

impl View for Bundle {
    type V = BundleModel;

    open spec fn view(&self) -> BundleModel {
        BundleModel {
            origin_id: self.origin_id,
            seq: self.seq,
            created_at_round: self.created_at_round,
            record: self.record,
            path: self.path@,
        }
    }
}

impl BundleModel {
    /// Handoffs so far.
    pub open spec fn hops(self) -> int {
        if self.path.len() > 0 {
            self.path.len() - 1
        } else {
            0
        }
    }

    pub open spec fn age(self, round: u64) -> int {
        rounds_since(self.created_at_round, round)
    }
}

/// The models of a queue of bundles.
pub open spec fn bundles(q: Seq<Bundle>) -> Seq<BundleModel> {
    q.map_values(|b: Bundle| b@)
}

/// The models of a queue of acks.
pub open spec fn acks(q: Seq<Ack>) -> Seq<AckModel> {
    q.map_values(|a: Ack| a@)
}

impl Bundle {
    pub fn hops(&self) -> (r: usize)
        ensures
            r == self@.hops(),
    {
        self.path.len().saturating_sub(1)
    }

    pub fn age(&self, round: u64) -> (r: u64)
        ensures
            r == self@.age(round),
    {
        round.saturating_sub(self.created_at_round)
    }
}

/// A tower's receipt for one bundle, source-routed back along that bundle's
/// recorded path. It carries the bundle's `created_at_round`, so the round
/// trip shares the bundle's own age budget.
#[derive(Debug, Clone)]
pub struct Ack {
    pub origin_id: u32,
    pub seq: u64,
    pub created_at_round: u64,
    /// Stops remaining after the current holder, ending at the origin.
    pub remaining: VecDeque<u32>,
    /// The length of `remaining` at creation.
    pub total_hops: u32,
}

/// The mathematical content of an `Ack`.
#[verifier::ext_equal]
pub struct AckModel {
    pub origin_id: u32,
    pub seq: u64,
    pub created_at_round: u64,
    pub remaining: Seq<u32>,
    pub total_hops: u32,
}

impl View for Ack {
    type V = AckModel;

    open spec fn view(&self) -> AckModel {
        AckModel {
            origin_id: self.origin_id,
            seq: self.seq,
            created_at_round: self.created_at_round,
            remaining: self.remaining@,
            total_hops: self.total_hops,
        }
    }
}

impl AckModel {
    pub open spec fn age(self, round: u64) -> int {
        rounds_since(self.created_at_round, round)
    }

    /// How many hops back it has made.
    pub open spec fn hops_completed(self) -> u32 {
        self.total_hops.wrapping_sub((self.remaining.len() as usize) as u32)
    }
}

impl Ack {
    pub fn age(&self, round: u64) -> (r: u64)
        ensures
            r == self@.age(round),
    {
        round.saturating_sub(self.created_at_round)
    }

    fn hops_completed(&self) -> (r: u32)
        ensures
            r == self@.hops_completed(),
    {
        self.total_hops.wrapping_sub(self.remaining.len() as u32)
    }
}

/// What a balloon can conclude about its own most recent bundle.
#[derive(Debug, Clone, Copy, PartialEq, Eq, Structural)]
pub enum AckState {
    Pending,
    Acked,
    TimedOut,
}

/// How a bundle actually got to the ground.
#[derive(Debug, Clone, Copy, PartialEq, Eq, Structural)]
pub enum Channel {
    Radio,
    Satellite,
}

#[derive(Debug, Clone)]
pub struct OutstandingBundle {
    pub seq: u64,
    pub created_at_round: u64,
    pub state: AckState,
    /// The bundle's full recorded path once it itself resolved.
    pub path: Option<Vec<u32>>,
    /// How the bundle got through.
    pub channel: Option<Channel>,
    /// The tower that took delivery.
    pub tower_id: Option<u32>,
    /// How many hops of the reverse ack path completed before it was lost.
    pub ack_hops_completed: Option<u32>,
}

/// The mathematical content of an `OutstandingBundle`.
#[verifier::ext_equal]
pub struct OutstandingModel {
    pub seq: u64,
    pub created_at_round: u64,
    pub state: AckState,
    pub path: Option<Seq<u32>>,
    pub channel: Option<Channel>,
    pub tower_id: Option<u32>,
    pub ack_hops_completed: Option<u32>,
}

impl View for OutstandingBundle {
    type V = OutstandingModel;

    open spec fn view(&self) -> OutstandingModel {
        OutstandingModel {
            seq: self.seq,
            created_at_round: self.created_at_round,
            state: self.state,
            path: match self.path {
                Some(p) => Some(p@),
                None => None,
            },
            channel: self.channel,
            tower_id: self.tower_id,
            ack_hops_completed: self.ack_hops_completed,
        }
    }
}

/// A settled copy of an `OutstandingBundle`, taken when it stops pending.
#[derive(Debug, Clone)]
pub struct ResolvedBundle {
    pub seq: u64,
    pub state: AckState,
    pub channel: Option<Channel>,
    pub tower_id: Option<u32>,
    pub path: Vec<u32>,
    pub ack_hops_completed: Option<u32>,
}

/// The mathematical content of a `ResolvedBundle`.
#[verifier::ext_equal]
pub struct ResolvedModel {
    pub seq: u64,
    pub state: AckState,
    pub channel: Option<Channel>,
    pub tower_id: Option<u32>,
    pub path: Seq<u32>,
    pub ack_hops_completed: Option<u32>,
}

impl View for ResolvedBundle {
    type V = ResolvedModel;

    open spec fn view(&self) -> ResolvedModel {
        ResolvedModel {
            seq: self.seq,
            state: self.state,
            channel: self.channel,
            tower_id: self.tower_id,
            path: self.path@,
            ack_hops_completed: self.ack_hops_completed,
        }
    }
}

/// A delivery a tower took this round, for it to announce in later beacons.
#[derive(Debug, Clone, Copy, PartialEq, Eq, Structural)]
pub struct Delivery {
    pub tower_id: u32,
    pub origin_id: u32,
    pub seq: u64,
}

pub struct StepOutput {
    pub events: Vec<CommsEvent>,
    /// Empty unless deliveries are acknowledged by digest.
    pub deliveries: Vec<Delivery>,
}

/// The place in a queue of `len` of the `k`th bundle to be sent.
pub open spec fn nth_place(len: int, d: QueueDiscipline, k: int) -> int {
    match d {
        QueueDiscipline::Fifo => k,
        QueueDiscipline::Lifo => len - 1 - k,
    }
}

/// The first place in a queue, from `k` on, of the bundle of this identity.
pub open spec fn place_of(q: Seq<BundleModel>, k: int, origin_id: u32, seq: u64) -> Option<int>
    decreases q.len() - k,
{
    if k >= q.len() {
        None
    } else if q[k].origin_id == origin_id && q[k].seq == seq {
        Some(k)
    } else {
        place_of(q, k + 1, origin_id, seq)
    }
}

/// Which held bundle moves this slot: the oldest under FIFO, the newest under
/// LIFO.
pub fn peek(q: &VecDeque<Bundle>, d: QueueDiscipline) -> (r: Option<&Bundle>)
    ensures
        match r {
            Some(b) => q@.len() > 0 && *b == q@[nth_place(q@.len() as int, d, 0)],
            None => q@.len() == 0,
        },
{
    peek_nth(q, d, 0)
}

/// Takes the bundle that moves this slot out of the queue.
pub fn take(q: &mut VecDeque<Bundle>, d: QueueDiscipline) -> (r: Option<Bundle>)
    ensures
        match r {
            Some(b) => {
                let place = nth_place(old(q)@.len() as int, d, 0);
                &&& old(q)@.len() > 0
                &&& b == old(q)@[place]
                &&& final(q)@ == old(q)@.remove(place)
            },
            None => old(q)@.len() == 0 && final(q)@ == old(q)@,
        },
{
    remove_nth(q, d, 0)
}

/// The `k`th bundle a balloon would transmit, counting from whichever end its
/// discipline serves.
pub fn peek_nth(q: &VecDeque<Bundle>, d: QueueDiscipline, k: usize) -> (r: Option<&Bundle>)
    ensures
        match r {
            Some(b) => k < q@.len() && *b == q@[nth_place(q@.len() as int, d, k as int)],
            None => k >= q@.len(),
        },
{
    if k >= q.len() {
        return None;
    }
    match d {
        QueueDiscipline::Fifo => Some(&q[k]),
        QueueDiscipline::Lifo => {
            let place: usize = q.len() - 1 - k;
            Some(&q[place])
        },
    }
}

/// Takes out the `k`th bundle a balloon would transmit.
pub fn remove_nth(q: &mut VecDeque<Bundle>, d: QueueDiscipline, k: usize) -> (r: Option<Bundle>)
    ensures
        match r {
            Some(b) => {
                let place = nth_place(old(q)@.len() as int, d, k as int);
                &&& k < old(q)@.len()
                &&& b == old(q)@[place]
                &&& final(q)@ == old(q)@.remove(place)
            },
            None => k >= old(q)@.len() && final(q)@ == old(q)@,
        },
{
    if k >= q.len() {
        return None;
    }
    let place: usize = match d {
        QueueDiscipline::Fifo => k,
        QueueDiscipline::Lifo => q.len() - 1 - k,
    };
    q.remove(place)
}

/// Finds a specific bundle by identity.
pub fn position_of(q: &VecDeque<Bundle>, origin_id: u32, seq: u64) -> (r: Option<usize>)
    ensures
        match r {
            Some(p) => p < q@.len() && place_of(bundles(q@), 0, origin_id, seq) == Some(p as int),
            None => place_of(bundles(q@), 0, origin_id, seq) is None,
        },
{
    let mut k: usize = 0;
    while k < q.len()
        invariant
            k <= q@.len(),
            place_of(bundles(q@), 0, origin_id, seq) == place_of(
                bundles(q@),
                k as int,
                origin_id,
                seq,
            ),
        decreases q@.len() - k,
    {
        if q[k].origin_id == origin_id && q[k].seq == seq {
            return Some(k);
        }
        k = k + 1;
    }
    None
}

/// A copy of a list of ids.
pub(crate) fn copied(p: &Vec<u32>) -> (r: Vec<u32>)
    ensures
        r@ == p@,
{
    let r: Vec<u32> = p.clone();
    assert(r@ =~= p@);
    r
}

/// Freezes the outcome of a node's outstanding bundle once it no longer pends.
fn snapshot_resolved(b: &mut DvNode)
    ensures
        final(b)@ == bundle_round::settled(old(b)@),
{
    let ghost before = b@;
    let (seq, state, channel, tower_id, path, ack_hops_completed) = match &b.outstanding {
        None => {
            return;
        },
        Some(o) => {
            if o.state == AckState::Pending {
                return;
            }
            let path: Vec<u32> = match &o.path {
                Some(p) => copied(p),
                None => Vec::new(),
            };
            (o.seq, o.state, o.channel, o.tower_id, path, o.ack_hops_completed)
        },
    };
    let hops: Option<u32> = if path.len() == 0 {
        None
    } else {
        Some((path.len() - 1) as u32)
    };
    let mut k: usize = 0;
    let mut found: bool = false;
    while k < b.log.len() && !found
        invariant
            k <= b.log@.len(),
            b.log@ == before.log,
            bundle_round::record_place(before.log, 0, seq) == bundle_round::record_place(
                before.log,
                k as int,
                seq,
            ),
            found ==> k < b.log@.len() && before.log[k as int].seq == seq,
        decreases b.log@.len() - k + (if found {
            0int
        } else {
            1int
        }),
    {
        if b.log[k].seq == seq {
            found = true;
        } else {
            k = k + 1;
        }
    }
    if found {
        let mut record: TelemetryRecord = b.log[k];
        record.channel = channel;
        record.tower_id = tower_id;
        record.ack_state = state;
        record.hops = hops;
        record.ack_hops_completed = ack_hops_completed;
        let _ = b.log.remove(k);
        b.log.insert(k, record);
        assert(record == bundle_round::stamped(before.log[k as int], before.outstanding->Some_0));
        assert(b.log@ =~= before.log.update(k as int, record));
    }
    b.last_resolved = Some(
        ResolvedBundle { seq, state, channel, tower_id, path, ack_hops_completed },
    );
    assert(b@ =~~= bundle_round::settled(before));
}

/// Notes on the origin's node that its bundle went to satellite.
fn note_sent_up(nodes: &mut Vec<DvNode>, b: Bundle)
    ensures
        super::models(final(nodes)@) == bundle_round::note_sent_up(super::models(old(nodes)@), b@),
{
    let ghost before = super::models(nodes@);
    let idx: usize = b.origin_id as usize;
    if idx < nodes.len() {
        nodes[idx].last_channel = Some(Channel::Satellite);
        if let Some(o) = nodes[idx].outstanding.as_mut() {
            if o.seq == b.seq {
                o.path = Some(b.path);
                o.channel = Some(Channel::Satellite);
            }
        }
    }
    assert(super::models(nodes@) =~~= bundle_round::note_sent_up(before, b@));
}

/// Notes on the origin's node that a tower took its bundle.
fn note_landed(nodes: &mut Vec<DvNode>, b: &Bundle, tower_id: u32)
    ensures
        super::models(final(nodes)@) == bundle_round::note_landed(
            super::models(old(nodes)@),
            b@,
            tower_id,
        ),
{
    let ghost before = super::models(nodes@);
    let idx: usize = b.origin_id as usize;
    if idx < nodes.len() {
        nodes[idx].last_channel = Some(Channel::Radio);
        if let Some(o) = nodes[idx].outstanding.as_mut() {
            if o.seq == b.seq {
                o.path = Some(copied(&b.path));
                o.channel = Some(Channel::Radio);
                o.tower_id = Some(tower_id);
            }
        }
    }
    assert(super::models(nodes@) =~~= bundle_round::note_landed(before, b@, tower_id));
}

/// Records how far a bundle got before it was destroyed in the mesh.
fn record_dead_end(nodes: &mut Vec<DvNode>, origin_id: u32, seq: u64, path: Vec<u32>)
    ensures
        super::models(final(nodes)@) == bundle_round::note_dead_end(
            super::models(old(nodes)@),
            origin_id,
            seq,
            path@,
        ),
{
    let ghost before = super::models(nodes@);
    let idx: usize = origin_id as usize;
    let ghost shown = path@;
    if idx < nodes.len() {
        if let Some(o) = nodes[idx].outstanding.as_mut() {
            if o.seq == seq {
                o.path = Some(path);
            }
        }
    }
    assert(super::models(nodes@) =~~= bundle_round::note_dead_end(before, origin_id, seq, shown));
}

/// Notes on the origin's node how far a lost receipt had come.
fn note_receipt_lost(nodes: &mut Vec<DvNode>, origin_id: u32, seq: u64, hops: u32)
    ensures
        super::models(final(nodes)@) == bundle_round::note_receipt_lost(
            super::models(old(nodes)@),
            origin_id,
            seq,
            hops,
        ),
{
    let ghost before = super::models(nodes@);
    let idx: usize = origin_id as usize;
    if idx < nodes.len() {
        if let Some(o) = nodes[idx].outstanding.as_mut() {
            if o.seq == seq {
                o.ack_hops_completed = Some(hops);
            }
        }
    }
    assert(super::models(nodes@) =~~= bundle_round::note_receipt_lost(
        before,
        origin_id,
        seq,
        hops,
    ));
}

/// Tells a node that its bundle arrived, if it still waits for that one.
fn tell(b: &mut DvNode, seq: u64, round: u64, stats: &mut BundleStats)
    requires
        old(stats).acked < u64::MAX,
    ensures
        final(b)@ == bundle_round::told(old(b)@, seq),
        final(stats)@ == bundle_round::told_tally(old(stats)@, old(b)@, seq, round),
{
    let ghost before = b@;
    let ghost counted = stats@;
    stats.acked = stats.acked + 1;
    if let Some(o) = b.outstanding.as_mut() {
        if o.seq == seq && o.state == AckState::Pending {
            o.state = AckState::Acked;
            stats.ack_latency.record(round.saturating_sub(o.created_at_round));
        }
    }
    assert(stats@ =~~= bundle_round::told_tally(counted, before, seq, round));
    snapshot_resolved(b);
}

/// Parts a queue into the bundles that have time left and those that do not.
fn part_bundles(q: VecDeque<Bundle>, round: u64, max_age: u64) -> (r: (
    VecDeque<Bundle>,
    VecDeque<Bundle>,
))
    ensures
        bundles(r.0@) == bundle_round::live_bundles(bundles(q@), q@.len(), round, max_age),
        bundles(r.1@) == bundle_round::late_bundles(bundles(q@), q@.len(), round, max_age),
        r.0@.len() + r.1@.len() == q@.len(),
{
    let ghost all = bundles(q@);
    let mut rest: VecDeque<Bundle> = q;
    let total: usize = rest.len();
    let mut kept: VecDeque<Bundle> = VecDeque::new();
    let mut late: VecDeque<Bundle> = VecDeque::new();
    let mut k: usize = 0;
    while k < total
        invariant
            k <= total,
            total == all.len(),
            rest@.len() == total - k,
            forall|j: int| 0 <= j < rest@.len() ==> (#[trigger] rest@[j])@ == all[k + j],
            bundles(kept@) =~= bundle_round::live_bundles(all, k as nat, round, max_age),
            bundles(late@) =~= bundle_round::late_bundles(all, k as nat, round, max_age),
            kept@.len() + late@.len() == k,
        decreases total - k,
    {
        match rest.pop_front() {
            Some(b) => {
                if b.age(round) > max_age {
                    late.push_back(b);
                } else {
                    kept.push_back(b);
                }
            },
            None => {},
        }
        k = k + 1;
    }
    (kept, late)
}

/// Parts a queue into the acks that have time left and those that do not.
fn part_acks(q: VecDeque<Ack>, round: u64, max_age: u64) -> (r: (VecDeque<Ack>, VecDeque<Ack>))
    ensures
        acks(r.0@) == bundle_round::live_acks(acks(q@), q@.len(), round, max_age),
        acks(r.1@) == bundle_round::late_acks(acks(q@), q@.len(), round, max_age),
        r.0@.len() + r.1@.len() == q@.len(),
{
    let ghost all = acks(q@);
    let mut rest: VecDeque<Ack> = q;
    let total: usize = rest.len();
    let mut kept: VecDeque<Ack> = VecDeque::new();
    let mut late: VecDeque<Ack> = VecDeque::new();
    let mut k: usize = 0;
    while k < total
        invariant
            k <= total,
            total == all.len(),
            rest@.len() == total - k,
            forall|j: int| 0 <= j < rest@.len() ==> (#[trigger] rest@[j])@ == all[k + j],
            acks(kept@) =~= bundle_round::live_acks(all, k as nat, round, max_age),
            acks(late@) =~= bundle_round::late_acks(all, k as nat, round, max_age),
            kept@.len() + late@.len() == k,
        decreases total - k,
    {
        match rest.pop_front() {
            Some(a) => {
                if a.age(round) > max_age {
                    late.push_back(a);
                } else {
                    kept.push_back(a);
                }
            },
            None => {},
        }
        k = k + 1;
    }
    (kept, late)
}

/// What a round works on.
struct Work {
    nodes: Vec<DvNode>,
    stats: BundleStats,
    events: Vec<CommsEvent>,
    deliveries: Vec<Delivery>,
}

impl View for Work {
    type V = RoundState;

    closed spec fn view(&self) -> RoundState {
        RoundState {
            nodes: super::models(self.nodes@),
            tally: self.stats@,
            events: self.events@,
            deliveries: self.deliveries@,
        }
    }
}

impl Work {
    /// Late bundles go to satellite.
    fn expire_bundles(&mut self, round: u64, max_age: u64)
        requires
            old(self)@.tally.room(
                bundle_round::queued(old(self)@.nodes, old(self)@.nodes.len()) as int,
            ),
        ensures
            final(self)@ == bundle_round::bundles_expired(old(self)@, round, max_age),
            old(self)@.tally.grown(
                final(self)@.tally,
                bundle_round::queued(old(self)@.nodes, old(self)@.nodes.len()) as int,
            ),
    {
        let ghost s0 = self@;
        let ghost kept_all = Seq::new(
            s0.nodes.len(),
            |i: int| bundle_round::bundles_trimmed(s0.nodes[i], round, max_age),
        );
        let mut late: VecDeque<Bundle> = VecDeque::new();
        let mut i: usize = 0;
        while i < self.nodes.len()
            invariant
                i <= self.nodes.len(),
                self@.nodes.len() == s0.nodes.len(),
                self@.tally == s0.tally,
                self@.events == s0.events,
                self@.deliveries == s0.deliveries,
                forall|j: int|
                    0 <= j < i ==> #[trigger] self@.nodes[j] == bundle_round::bundles_trimmed(
                        s0.nodes[j],
                        round,
                        max_age,
                    ),
                forall|j: int| i <= j < s0.nodes.len() ==> #[trigger] self@.nodes[j] == s0.nodes[j],
                bundles(late@) == bundle_round::all_late_bundles(
                    s0.nodes,
                    i as nat,
                    round,
                    max_age,
                ),
                late@.len() <= bundle_round::queued(s0.nodes, i as nat),
            decreases self.nodes.len() - i,
        {
            let ghost before = self@.nodes;
            assert(self@.nodes[i as int] == s0.nodes[i as int]);
            let mut q: VecDeque<Bundle> = VecDeque::new();
            std::mem::swap(&mut q, &mut self.nodes[i].queue);
            let ghost held = q@;
            assert(bundles(held) == s0.nodes[i as int].queue);
            let (kept, mut gone) = part_bundles(q, round, max_age);
            let ghost gone_now = gone@;
            let ghost late_before = late@;
            self.nodes[i].queue = kept;
            late.append(&mut gone);
            assert(bundles(late@) =~= bundles(late_before) + bundles(gone_now));
            assert(self@.nodes =~~= before.update(
                i as int,
                bundle_round::bundles_trimmed(s0.nodes[i as int], round, max_age),
            ));
            i = i + 1;
        }
        assert(self@.nodes =~~= kept_all);
        let ghost gone = bundles(late@);
        let count: u64 = late.len() as u64;
        self.stats.satellite = self.stats.satellite + count;
        self.send_up(late);
        assert(self@ =~~= bundle_round::bundles_expired(s0, round, max_age));
    }

    fn send_up(&mut self, late: VecDeque<Bundle>)
        requires
            bundle_stats::hist_room(old(self)@.tally.satellite_hops, late@.len() as int),
            old(self)@.tally.satellite_hops.len() == 32,
        ensures
            final(self)@ == (RoundState {
                nodes: bundle_round::all_noted_sent_up(
                    old(self)@.nodes,
                    bundles(late@),
                    late@.len(),
                ),
                tally: (bundle_stats::Tally {
                    satellite_hops: bundle_round::hops_counted(
                        old(self)@.tally.satellite_hops,
                        bundles(late@),
                        late@.len(),
                    ),
                    ..old(self)@.tally
                }),
                ..old(self)@
            }),
            bundle_stats::hist_grown(
                old(self)@.tally.satellite_hops,
                final(self)@.tally.satellite_hops,
                late@.len() as int,
            ),
    {
        let ghost s0 = self@;
        let ghost list = bundles(late@);
        let total: usize = late.len();
        let mut rest: VecDeque<Bundle> = late;
        let mut k: usize = 0;
        while k < total
            invariant
                k <= total,
                total == list.len(),
                rest@.len() == total - k,
                forall|j: int| 0 <= j < rest@.len() ==> (#[trigger] rest@[j])@ == list[k + j],
                s0.tally.satellite_hops.len() == 32,
                bundle_stats::hist_room(s0.tally.satellite_hops, total as int),
                bundle_stats::hist_grown(
                    s0.tally.satellite_hops,
                    self@.tally.satellite_hops,
                    k as int,
                ),
                self@ == (RoundState {
                    nodes: bundle_round::all_noted_sent_up(s0.nodes, list, k as nat),
                    tally: (bundle_stats::Tally {
                        satellite_hops: bundle_round::hops_counted(
                            s0.tally.satellite_hops,
                            list,
                            k as nat,
                        ),
                        ..s0.tally
                    }),
                    ..s0
                }),
            decreases total - k,
        {
            let ghost before = self@;
            match rest.pop_front() {
                Some(b) => {
                    assert forall|j: int| 0 <= j < 32 implies #[trigger] self.stats.satellite_hops@[j]
                        + 1 <= u64::MAX by {
                        assert(s0.tally.satellite_hops[j] + total <= u64::MAX);
                        assert(before.tally.satellite_hops[j] <= s0.tally.satellite_hops[j] + k);
                    }
                    let hops: usize = b.hops();
                    bundle_stats::bump(&mut self.stats.satellite_hops, hops);
                    note_sent_up(&mut self.nodes, b);
                },
                None => {},
            }
            k = k + 1;
        }
    }
}

impl Work {
    /// Late acks are lost.
    fn expire_acks(&mut self, round: u64, max_age: u64)
        requires
            old(self)@.tally.room(
                bundle_round::acks_held(old(self)@.nodes, old(self)@.nodes.len()) as int,
            ),
        ensures
            final(self)@ == bundle_round::acks_expired(old(self)@, round, max_age),
            old(self)@.tally.grown(
                final(self)@.tally,
                bundle_round::acks_held(old(self)@.nodes, old(self)@.nodes.len()) as int,
            ),
    {
        let ghost s0 = self@;
        let ghost kept_all = Seq::new(
            s0.nodes.len(),
            |i: int| bundle_round::acks_trimmed(s0.nodes[i], round, max_age),
        );
        let mut late: VecDeque<Ack> = VecDeque::new();
        let mut i: usize = 0;
        while i < self.nodes.len()
            invariant
                i <= self.nodes.len(),
                self@.nodes.len() == s0.nodes.len(),
                self@.tally == s0.tally,
                self@.events == s0.events,
                self@.deliveries == s0.deliveries,
                forall|j: int|
                    0 <= j < i ==> #[trigger] self@.nodes[j] == bundle_round::acks_trimmed(
                        s0.nodes[j],
                        round,
                        max_age,
                    ),
                forall|j: int| i <= j < s0.nodes.len() ==> #[trigger] self@.nodes[j] == s0.nodes[j],
                acks(late@) == bundle_round::all_late_acks(s0.nodes, i as nat, round, max_age),
                late@.len() <= bundle_round::acks_held(s0.nodes, i as nat),
            decreases self.nodes.len() - i,
        {
            let ghost before = self@.nodes;
            assert(self@.nodes[i as int] == s0.nodes[i as int]);
            let mut q: VecDeque<Ack> = VecDeque::new();
            std::mem::swap(&mut q, &mut self.nodes[i].ack_queue);
            let ghost held = q@;
            assert(acks(held) == s0.nodes[i as int].ack_queue);
            let (kept, mut gone) = part_acks(q, round, max_age);
            let ghost gone_now = gone@;
            let ghost late_before = late@;
            self.nodes[i].ack_queue = kept;
            late.append(&mut gone);
            assert(acks(late@) =~= acks(late_before) + acks(gone_now));
            assert(self@.nodes =~~= before.update(
                i as int,
                bundle_round::acks_trimmed(s0.nodes[i as int], round, max_age),
            ));
            i = i + 1;
        }
        assert(self@.nodes =~~= kept_all);
        let ghost list = acks(late@);
        let count: u64 = late.len() as u64;
        self.stats.ack_lost = self.stats.ack_lost + count;
        let total: usize = late.len();
        let mut k: usize = 0;
        while k < total
            invariant
                k <= total,
                total == list.len(),
                late@.len() == total - k,
                forall|j: int| 0 <= j < late@.len() ==> (#[trigger] late@[j])@ == list[k + j],
                self@ == (RoundState {
                    nodes: bundle_round::all_noted_lost(kept_all, list, k as nat),
                    tally: (bundle_stats::Tally {
                        ack_lost: s0.tally.ack_lost + total,
                        ..s0.tally
                    }),
                    ..s0
                }),
            decreases total - k,
        {
            match late.pop_front() {
                Some(a) => {
                    let hops: u32 = a.hops_completed();
                    note_receipt_lost(&mut self.nodes, a.origin_id, a.seq, hops);
                },
                None => {},
            }
            k = k + 1;
        }
        assert(self@ =~~= bundle_round::acks_expired(s0, round, max_age));
    }

    /// Balloons that have waited too long give up on hearing back.
    fn end_waits(&mut self, round: u64, max_age: u64)
        ensures
            final(self)@ == bundle_round::waits_ended(old(self)@, round, max_age),
    {
        let ghost s0 = self@;
        let mut i: usize = 0;
        while i < self.nodes.len()
            invariant
                i <= self.nodes.len(),
                self@.nodes.len() == s0.nodes.len(),
                self@.tally == s0.tally,
                self@.events == s0.events,
                self@.deliveries == s0.deliveries,
                forall|j: int|
                    0 <= j < i ==> #[trigger] self@.nodes[j] == bundle_round::timed_out(
                        s0.nodes[j],
                        round,
                        max_age,
                    ),
                forall|j: int| i <= j < s0.nodes.len() ==> #[trigger] self@.nodes[j] == s0.nodes[j],
            decreases self.nodes.len() - i,
        {
            let ghost before = self@.nodes;
            assert(self@.nodes[i as int] == s0.nodes[i as int]);
            give_up(&mut self.nodes[i], round, max_age);
            assert(self@.nodes =~~= before.update(
                i as int,
                bundle_round::timed_out(s0.nodes[i as int], round, max_age),
            ));
            i = i + 1;
        }
        assert(self@ =~~= bundle_round::waits_ended(s0, round, max_age));
    }

    /// Counts the balloons that hear a tower.
    fn sample_last_hop(&mut self, adj: &MeshAdjacency)
        requires
            old(self)@.tally.room((old(self)@.nodes.len() + 1) as int),
        ensures
            final(self)@ == bundle_round::last_hop_sampled(old(self)@, adj@),
            old(self)@.tally.grown(final(self)@.tally, (old(self)@.nodes.len() + 1) as int),
    {
        let ghost s0 = self@;
        let mut count: u64 = 0;
        let mut i: usize = 0;
        while i < self.nodes.len()
            invariant
                i <= self.nodes.len(),
                count == bundle_round::tower_adjacent(adj@, i as nat),
                count <= i,
            decreases self.nodes.len() - i,
        {
            if adj.tower_in_range(i).is_some() {
                count = count + 1;
            }
            i = i + 1;
        }
        self.stats.rounds_sampled = self.stats.rounds_sampled + 1;
        self.stats.tower_adjacent_samples = self.stats.tower_adjacent_samples + count;
        assert(self@ =~~= bundle_round::last_hop_sampled(s0, adj@));
    }
}

/// A balloon that has waited too long gives up on hearing back.
fn give_up(b: &mut DvNode, round: u64, max_age: u64)
    ensures
        final(b)@ == bundle_round::timed_out(old(b)@, round, max_age),
{
    let ghost before = b@;
    let mut over: bool = false;
    if let Some(o) = b.outstanding.as_mut() {
        if o.state == AckState::Pending && round.saturating_sub(o.created_at_round) > max_age {
            o.state = AckState::TimedOut;
            over = true;
        }
    }
    if over {
        snapshot_resolved(b);
    }
    assert(b@ =~~= bundle_round::timed_out(before, round, max_age));
}

/// An ack on its way from a node to a balloon.
struct AckOut {
    from: usize,
    to: u32,
    ack: Ack,
}

impl View for AckOut {
    type V = AckMove;

    closed spec fn view(&self) -> AckMove {
        AckMove { from: self.from as int, to: self.to, ack: self.ack@ }
    }
}

/// Acks gathered for this round's transmissions.
struct AckRound {
    used: Vec<bool>,
    moves: VecDeque<AckOut>,
    resolved: Vec<(u32, u64)>,
}

impl AckRound {
    spec fn with_nodes(&self, nodes: Seq<super::NodeModel>) -> AckGather {
        AckGather {
            nodes,
            used: self.used@,
            moves: self.moves@.map_values(|m: AckOut| m@),
            resolved: self.resolved@,
        }
    }

    fn start(n: usize) -> (r: AckRound)
        ensures
            r.used@ == Seq::new(n as nat, |i: int| false),
            r.moves@.len() == 0,
            r.resolved@.len() == 0,
    {
        let mut used: Vec<bool> = Vec::new();
        while used.len() < n
            invariant
                used.len() <= n,
                forall|i: int| 0 <= i < used.len() ==> used@[i] == false,
            decreases n - used.len(),
        {
            used.push(false);
        }
        assert(used@ =~= Seq::new(n as nat, |i: int| false));
        AckRound { used, moves: VecDeque::new(), resolved: Vec::new() }
    }

    /// Node `i` wakes: the ack at the front of its queue leaves if the next
    /// stop is in range.
    fn take_ack(&mut self, nodes: &mut Vec<DvNode>, adj: &MeshAdjacency, i: usize)
        requires
            i < old(nodes)@.len(),
            old(self).used@.len() == old(nodes)@.len(),
        ensures
            final(self).with_nodes(super::models(final(nodes)@)) == bundle_round::ack_taken(
                old(self).with_nodes(super::models(old(nodes)@)),
                adj@,
                i as int,
            ),
            final(nodes)@.len() == old(nodes)@.len(),
            final(self).used@.len() == old(self).used@.len(),
            final(self).moves@.len() + final(self).resolved@.len() <= old(self).moves@.len()
                + old(self).resolved@.len() + 1,
            forall|j: int|
                0 <= j < final(self).moves@.len() ==> (#[trigger] final(self).moves@[j]).from
                    < old(nodes)@.len() || (j < old(self).moves@.len() && final(self).moves@[j]
                    == old(self).moves@[j]),
    {
        let ghost g0 = self.with_nodes(super::models(nodes@));
        if nodes[i].ack_queue.len() == 0 {
            return;
        }
        if nodes[i].ack_queue[0].remaining.len() == 0 {
            return;
        }
        let next: u32 = nodes[i].ack_queue[0].remaining[0];
        if !adj.is_neighbor(i, next) {
            return;
        }
        match nodes[i].ack_queue.pop_front() {
            Some(popped) => {
                let mut ack: Ack = popped;
                let ghost held = ack@;
                let _ = ack.remaining.pop_front();
                self.used[i] = true;
                assert(super::models(nodes@) =~~= g0.nodes.update(
                    i as int,
                    (super::NodeModel {
                        ack_queue: g0.nodes[i as int].ack_queue.subrange(
                            1,
                            g0.nodes[i as int].ack_queue.len() as int,
                        ),
                        ..g0.nodes[i as int]
                    }),
                ));
                if ack.remaining.len() == 0 {
                    self.resolved.push((ack.origin_id, ack.seq));
                } else {
                    self.moves.push_back(AckOut { from: i, to: next, ack });
                }
            },
            None => {},
        }
        assert(self.with_nodes(super::models(nodes@)) =~~= bundle_round::ack_taken(
            g0,
            adj@,
            i as int,
        ));
    }
}

/// Whether a list of nodes carries no more than another, node by node, and has
/// originated just as much.
spec fn lighter(a: Seq<super::NodeModel>, b: Seq<super::NodeModel>) -> bool {
    &&& a.len() == b.len()
    &&& forall|j: int|
        0 <= j < a.len() ==> (#[trigger] b[j]).queue.len() <= a[j].queue.len() && b[j].bundle_seq
            == a[j].bundle_seq
}

proof fn lemma_lighter_chain(
    a: Seq<super::NodeModel>,
    b: Seq<super::NodeModel>,
    c: Seq<super::NodeModel>,
)
    requires
        lighter(a, b),
        lighter(b, c),
    ensures
        lighter(a, c),
{
    assert forall|j: int| 0 <= j < a.len() implies (#[trigger] c[j]).queue.len()
        <= a[j].queue.len() && c[j].bundle_seq == a[j].bundle_seq by {
        assert(b[j].queue.len() <= a[j].queue.len());
    }
}

proof fn lemma_lighter_load(
    a: Seq<super::NodeModel>,
    b: Seq<super::NodeModel>,
    awake: Seq<usize>,
    k: nat,
)
    requires
        lighter(a, b),
        k <= awake.len(),
        forall|j: int| 0 <= j < awake.len() ==> (#[trigger] awake[j]) < a.len(),
    ensures
        bundle_round::slot_load(b, awake, k) <= bundle_round::slot_load(a, awake, k),
    decreases k,
{
    if k > 0 {
        lemma_lighter_load(a, b, awake, (k - 1) as nat);
        assert(awake[k - 1] < a.len());
        assert(b[awake[k - 1] as int].queue.len() <= a[awake[k - 1] as int].queue.len());
    }
}

proof fn lemma_load_grows(nodes: Seq<super::NodeModel>, awake: Seq<usize>, j: nat, k: nat)
    requires
        j <= k <= awake.len(),
    ensures
        bundle_round::slot_load(nodes, awake, j) <= bundle_round::slot_load(nodes, awake, k),
    decreases k,
{
    if j < k {
        lemma_load_grows(nodes, awake, j, (k - 1) as nat);
    }
}

impl Work {
    /// Acks move one stop back.
    fn forward_acks(
        &mut self,
        balloons: &[Balloon],
        adj: &MeshAdjacency,
        params: &DvDtnParams,
        awake: &[usize],
        round: u64,
    ) -> (used: Vec<bool>)
        requires
            balloons@.len() >= old(self)@.nodes.len(),
            forall|j: int| 0 <= j < awake@.len() ==> (#[trigger] awake@[j]) < old(self)@.nodes.len(),
            old(self)@.tally.room(awake@.len() as int),
        ensures
            final(self)@ == bundle_round::acks_forwarded(
                old(self)@,
                balloons@,
                adj@,
                *params,
                awake@,
                round,
            ),
            used@ == bundle_round::slots_spent(old(self)@, adj@, awake@),
            used@.len() == old(self)@.nodes.len(),
            old(self)@.tally.grown(final(self)@.tally, awake@.len() as int),
            lighter(old(self)@.nodes, final(self)@.nodes),
    {
        let ghost s0 = self@;
        let ghost g0 = bundle_round::ack_gather_start(s0.nodes);
        let mut acks: AckRound = AckRound::start(self.nodes.len());
        assert(acks.with_nodes(self@.nodes) =~~= g0);
        let mut k: usize = 0;
        while k < awake.len()
            invariant
                k <= awake@.len(),
                g0 == bundle_round::ack_gather_start(s0.nodes),
                forall|j: int| 0 <= j < awake@.len() ==> (#[trigger] awake@[j]) < s0.nodes.len(),
                self@.nodes.len() == s0.nodes.len(),
                self@.tally == s0.tally,
                self@.events == s0.events,
                self@.deliveries == s0.deliveries,
                lighter(s0.nodes, self@.nodes),
                acks.used@.len() == s0.nodes.len(),
                acks.with_nodes(self@.nodes) == bundle_round::acks_taken(
                    g0,
                    adj@,
                    awake@,
                    k as nat,
                ),
                acks.moves@.len() + acks.resolved@.len() <= k,
                forall|j: int|
                    0 <= j < acks.moves@.len() ==> (#[trigger] acks.moves@[j]).from
                        < s0.nodes.len(),
            decreases awake@.len() - k,
        {
            let ghost before = self@.nodes;
            assert(awake@[k as int] < s0.nodes.len());
            acks.take_ack(&mut self.nodes, adj, awake[k]);
            assert(lighter(before, self@.nodes)) by {
                assert(self@.nodes == bundle_round::ack_taken(
                    bundle_round::acks_taken(g0, adj@, awake@, k as nat),
                    adj@,
                    awake@[k as int] as int,
                ).nodes);
            }
            proof {
                lemma_lighter_chain(s0.nodes, before, self@.nodes);
            }
            k = k + 1;
        }
        let ghost g = bundle_round::acks_taken(g0, adj@, awake@, awake@.len());
        let ghost s1 = RoundState { nodes: g.nodes, ..s0 };
        assert(self@ =~~= s1);
        let AckRound { used, moves, resolved } = acks;
        let mut out: VecDeque<AckOut> = moves;
        let total: usize = out.len();
        let mut m: usize = 0;
        while m < total
            invariant
                m <= total,
                total == g.moves.len(),
                out@.len() == total - m,
                forall|j: int| 0 <= j < out@.len() ==> (#[trigger] out@[j])@ == g.moves[m + j],
                forall|j: int| 0 <= j < out@.len() ==> (#[trigger] out@[j]).from < s0.nodes.len(),
                balloons@.len() >= s0.nodes.len(),
                self@ == bundle_round::acks_handed(s1, balloons@, *params, g.moves, m as nat),
                s1.tally.room(total as int),
                s1.tally.grown(self@.tally, m as int),
                lighter(s0.nodes, self@.nodes),
            decreases total - m,
        {
            let ghost before = self@;
            match out.pop_front() {
                Some(mv) => {
                    proof {
                        bundle_stats::lemma_growth_weakens(s1.tally, s1.tally, m + 1, total as int);
                        bundle_stats::lemma_room_left(s1.tally, self@.tally, m as int, 1);
                    }
                    self.hand_ack(balloons, params, mv);
                    proof {
                        bundle_stats::lemma_growth_adds_up(
                            s1.tally,
                            before.tally,
                            self@.tally,
                            m as int,
                            1,
                        );
                        lemma_lighter_chain(s0.nodes, before.nodes, self@.nodes);
                    }
                },
                None => {},
            }
            m = m + 1;
        }
        let ghost s2 = self@;
        let mut r: usize = 0;
        while r < resolved.len()
            invariant
                r <= resolved@.len(),
                resolved@ == g.resolved,
                self@ == bundle_round::acks_received(s2, g.resolved, round, r as nat),
                s2.tally.room(resolved@.len() as int),
                s2.tally.grown(self@.tally, r as int),
                lighter(s0.nodes, self@.nodes),
            decreases resolved@.len() - r,
        {
            let ghost before = self@;
            proof {
                bundle_stats::lemma_growth_weakens(
                    s2.tally,
                    s2.tally,
                    r + 1,
                    resolved@.len() as int,
                );
                bundle_stats::lemma_room_left(s2.tally, self@.tally, r as int, 1);
            }
            let (origin_id, seq) = resolved[r];
            let idx: usize = origin_id as usize;
            if idx < self.nodes.len() {
                tell(&mut self.nodes[idx], seq, round, &mut self.stats);
            } else {
                self.stats.acked = self.stats.acked + 1;
            }
            assert(self@ =~~= bundle_round::ack_received(before, origin_id, seq, round));
            proof {
                bundle_stats::lemma_growth_adds_up(
                    s2.tally,
                    before.tally,
                    self@.tally,
                    r as int,
                    1,
                );
                lemma_lighter_chain(s0.nodes, before.nodes, self@.nodes);
            }
            r = r + 1;
        }
        proof {
            bundle_stats::lemma_growth_adds_up(
                s1.tally,
                s2.tally,
                self@.tally,
                total as int,
                resolved@.len() as int,
            );
            bundle_stats::lemma_growth_weakens(
                s0.tally,
                self@.tally,
                total + resolved@.len(),
                awake@.len() as int,
            );
        }
        used
    }

    /// An ack arrives at its next stop, or is lost if there is no room there.
    fn hand_ack(&mut self, balloons: &[Balloon], params: &DvDtnParams, mv: AckOut)
        requires
            mv.from < balloons@.len(),
            old(self)@.tally.room(1),
        ensures
            final(self)@ == bundle_round::ack_handed(old(self)@, balloons@, *params, mv@),
            old(self)@.tally.grown(final(self)@.tally, 1),
            lighter(old(self)@.nodes, final(self)@.nodes),
    {
        let ghost s0 = self@;
        let idx: usize = mv.to as usize;
        let room: bool = idx < self.nodes.len() && self.nodes[idx].ack_queue.len()
            < params.ack_queue_capacity;
        let ghost shown = mv@;
        if room {
            self.events.push(
                CommsEvent {
                    kind: EventKind::Ack,
                    from: NodeKey::Balloon(balloons[mv.from].id),
                    to: NodeKey::Balloon(mv.to),
                    payload: 1,
                    tower_id: None,
                    hop_count: None,
                    epoch: None,
                },
            );
            self.nodes[idx].ack_queue.push_back(mv.ack);
        } else {
            self.stats.ack_lost = self.stats.ack_lost + 1;
            let hops: u32 = mv.ack.hops_completed();
            note_receipt_lost(&mut self.nodes, mv.ack.origin_id, mv.ack.seq, hops);
        }
        assert(self@ =~~= bundle_round::ack_handed(s0, balloons@, *params, shown));
    }
}

/// The stops back to the origin from the last holder of a path.
fn way_back(path: &Vec<u32>) -> (r: VecDeque<u32>)
    ensures
        r@ == bundle_round::way_back(path@),
{
    let mut r: VecDeque<u32> = VecDeque::new();
    if path.len() > 0 {
        let mut k: usize = path.len() - 1;
        while k > 0
            invariant
                0 <= k <= path@.len() - 1,
                r@.len() == path@.len() - 1 - k,
                forall|j: int| 0 <= j < r@.len() ==> r@[j] == path@[path@.len() - 2 - j],
            decreases k,
        {
            k = k - 1;
            r.push_back(path[k]);
        }
    }
    assert(r@ =~= bundle_round::way_back(path@));
    r
}

impl Work {
    /// The receipt of a bundle that node `i` delivered sets out.
    fn send_receipt(&mut self, i: usize, b: &Bundle, params: &DvDtnParams, round: u64)
        requires
            i < old(self)@.nodes.len(),
            old(self)@.tally.acked < u64::MAX,
            old(self)@.tally.ack_lost < u64::MAX,
        ensures
            final(self)@ == bundle_round::receipt_sent(
                old(self)@,
                i as int,
                b@,
                *params,
                round,
            ),
    {
        let ghost s0 = self@;
        let back: VecDeque<u32> = way_back(&b.path);
        if back.len() == 0 {
            tell(&mut self.nodes[i], b.seq, round, &mut self.stats);
        } else if self.nodes[i].ack_queue.len() < params.ack_queue_capacity {
            let total_hops: u32 = back.len() as u32;
            self.nodes[i].ack_queue.push_back(
                Ack {
                    origin_id: b.origin_id,
                    seq: b.seq,
                    created_at_round: b.created_at_round,
                    remaining: back,
                    total_hops,
                },
            );
        } else {
            self.stats.ack_lost = self.stats.ack_lost + 1;
            note_receipt_lost(&mut self.nodes, b.origin_id, b.seq, 0);
        }
        assert(self@ =~~= bundle_round::receipt_sent(s0, i as int, b@, *params, round));
    }

    /// Node `i` hands one bundle to a tower.
    fn deliver(&mut self, i: usize, tower_id: u32, params: &DvDtnParams, round: u64)
        requires
            i < old(self)@.nodes.len(),
            old(self)@.nodes[i as int].queue.len() > 0,
            old(self)@.tally.room(1),
            old(self)@.tally.delivered_hops.len() == 32,
        ensures
            final(self)@ == bundle_round::bundle_delivered(
                old(self)@,
                i as int,
                tower_id,
                *params,
                round,
            ),
            old(self)@.tally.grown(final(self)@.tally, 1),
            lighter(old(self)@.nodes, final(self)@.nodes),
            final(self)@.nodes[i as int].queue.len() == old(self)@.nodes[i as int].queue.len() - 1,
            final(self)@.tally.delivered_hops.len() == 32,
    {
        let ghost s0 = self@;
        let ghost q = s0.nodes[i as int].queue;
        let ghost place = nth_place(q.len() as int, params.queue_discipline, 0);
        match take(&mut self.nodes[i].queue, params.queue_discipline) {
            Some(b) => {
                assert(b@ == q[place]);
                assert(super::models(self.nodes@) =~~= s0.nodes.update(
                    i as int,
                    (super::NodeModel { queue: q.remove(place), ..s0.nodes[i as int] }),
                ));
                let hops: usize = b.hops();
                let age: u64 = b.age(round);
                bundle_stats::bump(&mut self.stats.delivered_hops, hops);
                self.stats.delivered = self.stats.delivered + 1;
                self.stats.delivery_latency.record(age);
                if hops == 0 {
                    self.stats.first_hop_latency.record(age);
                }
                assert(self.stats@ =~~= bundle_round::delivery_counted(s0.tally, b@, round));
                note_landed(&mut self.nodes, &b, tower_id);
                if params.ack_policy == AckPolicy::Digest {
                    self.deliveries.push(
                        Delivery { tower_id, origin_id: b.origin_id, seq: b.seq },
                    );
                } else {
                    self.send_receipt(i, &b, params, round);
                }
                assert(self@ =~~= bundle_round::bundle_delivered(
                    s0,
                    i as int,
                    tower_id,
                    *params,
                    round,
                ));
            },
            None => {
                assert(false);
            },
        }
    }

    /// Node `i` has a contact with a tower.
    fn contact_tower(
        &mut self,
        balloons: &[Balloon],
        i: usize,
        tower_id: u32,
        params: &DvDtnParams,
        round: u64,
    )
        requires
            i < old(self)@.nodes.len(),
            i < balloons@.len(),
            old(self)@.tally.room(old(self)@.nodes[i as int].queue.len() as int),
            old(self)@.tally.delivered_hops.len() == 32,
        ensures
            final(self)@ == bundle_round::tower_contact(
                old(self)@,
                balloons@,
                i as int,
                tower_id,
                *params,
                round,
            ),
            old(self)@.tally.grown(
                final(self)@.tally,
                old(self)@.nodes[i as int].queue.len() as int,
            ),
            lighter(old(self)@.nodes, final(self)@.nodes),
    {
        let ghost s0 = self@;
        let held: usize = self.nodes[i].queue.len();
        let n: usize = if held < params.batch.tower_contact {
            held
        } else {
            params.batch.tower_contact
        };
        if n > 0 {
            self.events.push(
                CommsEvent {
                    kind: EventKind::Bundle,
                    from: NodeKey::Balloon(balloons[i].id),
                    to: NodeKey::Tower(tower_id),
                    payload: n as u32,
                    tower_id: Some(tower_id),
                    hop_count: Some(0),
                    epoch: None,
                },
            );
        }
        let ghost s1 = self@;
        let mut k: usize = 0;
        while k < n
            invariant
                k <= n,
                n <= held,
                held == s0.nodes[i as int].queue.len(),
                i < s0.nodes.len(),
                s1.nodes == s0.nodes,
                s1.tally == s0.tally,
                s0.tally.room(held as int),
                self@ == bundle_round::bundles_delivered(
                    s1,
                    i as int,
                    tower_id,
                    *params,
                    round,
                    k as nat,
                ),
                s0.tally.grown(self@.tally, k as int),
                lighter(s0.nodes, self@.nodes),
                self@.nodes[i as int].queue.len() == held - k,
                self@.tally.delivered_hops.len() == 32,
            decreases n - k,
        {
            let ghost before = self@;
            proof {
                bundle_stats::lemma_growth_weakens(s0.tally, s0.tally, k + 1, held as int);
                bundle_stats::lemma_room_left(s0.tally, self@.tally, k as int, 1);
            }
            self.deliver(i, tower_id, params, round);
            proof {
                bundle_stats::lemma_growth_adds_up(
                    s0.tally,
                    before.tally,
                    self@.tally,
                    k as int,
                    1,
                );
                lemma_lighter_chain(s0.nodes, before.nodes, self@.nodes);
            }
            k = k + 1;
        }
        proof {
            bundle_stats::lemma_growth_weakens(s0.tally, self@.tally, n as int, held as int);
        }
    }

    /// Node `i` destroys the `k`th bundle it would send.
    fn drop_nth(&mut self, i: usize, k: usize, params: &DvDtnParams, looped: bool)
        requires
            i < old(self)@.nodes.len(),
            k < old(self)@.nodes[i as int].queue.len(),
            old(self)@.tally.room(1),
        ensures
            final(self)@ == bundle_round::bundle_dropped(
                old(self)@,
                i as int,
                nth_place(
                    old(self)@.nodes[i as int].queue.len() as int,
                    params.queue_discipline,
                    k as int,
                ),
                if looped {
                    bundle_round::Loss::Loop
                } else {
                    bundle_round::Loss::HopBudget
                },
            ),
            old(self)@.tally.grown(final(self)@.tally, 1),
            lighter(old(self)@.nodes, final(self)@.nodes),
    {
        let ghost s0 = self@;
        let ghost q = s0.nodes[i as int].queue;
        let ghost place = nth_place(q.len() as int, params.queue_discipline, k as int);
        match remove_nth(&mut self.nodes[i].queue, params.queue_discipline, k) {
            Some(b) => {
                assert(b@ == q[place]);
                assert(super::models(self.nodes@) =~~= s0.nodes.update(
                    i as int,
                    (super::NodeModel { queue: q.remove(place), ..s0.nodes[i as int] }),
                ));
                if looped {
                    self.stats.dropped_loop = self.stats.dropped_loop + 1;
                } else {
                    self.stats.dropped_ttl = self.stats.dropped_ttl + 1;
                }
                record_dead_end(&mut self.nodes, b.origin_id, b.seq, b.path);
            },
            None => {
                assert(false);
            },
        }
        assert(self@ =~~= bundle_round::bundle_dropped(
            s0,
            i as int,
            place,
            if looped {
                bundle_round::Loss::Loop
            } else {
                bundle_round::Loss::HopBudget
            },
        ));
    }

    /// Node `i` fills a transmission to `next`.
    fn fill_batch(&mut self, i: usize, next: u32, params: &DvDtnParams) -> (ids: Vec<(u32, u64)>)
        requires
            i < old(self)@.nodes.len(),
            old(self)@.tally.room(1),
        ensures
            (final(self)@, ids@) == bundle_round::batch_filled(
                old(self)@,
                i as int,
                next,
                *params,
                Seq::empty(),
            ),
            old(self)@.tally.grown(final(self)@.tally, 1),
            lighter(old(self)@.nodes, final(self)@.nodes),
            ids@.len() <= old(self)@.nodes[i as int].queue.len(),
    {
        let ghost s0 = self@;
        let mut ids: Vec<(u32, u64)> = Vec::new();
        assert(ids@ =~= Seq::<(u32, u64)>::empty());
        while ids.len() < params.batch.mesh_hop
            invariant
                i < self@.nodes.len(),
                self@ == s0,
                s0 == old(self)@,
                s0.tally.room(1),
                ids@.len() <= s0.nodes[i as int].queue.len(),
                bundle_round::batch_filled(s0, i as int, next, *params, Seq::empty())
                    == bundle_round::batch_filled(s0, i as int, next, *params, ids@),
            decreases params.batch.mesh_hop - ids@.len(),
        {
            let k: usize = ids.len();
            let (origin_id, seq, looped, spent) = match peek_nth(
                &self.nodes[i].queue,
                params.queue_discipline,
                k,
            ) {
                None => {
                    return ids;
                },
                Some(b) => (
                    b.origin_id,
                    b.seq,
                    contains(&b.path, next),
                    b.path.len() >= params.bundle_max_hops,
                ),
            };
            if looped {
                self.drop_nth(i, k, params, true);
                return ids;
            }
            if spent {
                self.drop_nth(i, k, params, false);
                return ids;
            }
            ids.push((origin_id, seq));
        }
        ids
    }
}

/// Whether a list holds an id.
fn contains(list: &Vec<u32>, id: u32) -> (r: bool)
    ensures
        r == list@.contains(id),
{
    let mut k: usize = 0;
    while k < list.len()
        invariant
            k <= list@.len(),
            forall|j: int| 0 <= j < k ==> list@[j] != id,
        decreases list@.len() - k,
    {
        if list[k] == id {
            assert(list@[k as int] == id);
            return true;
        }
        k = k + 1;
    }
    false
}

/// A transmission of bundles from a node to a balloon.
struct Move {
    from: usize,
    to: u32,
    ids: Vec<(u32, u64)>,
    tower_id: u32,
    hop_count: u32,
}

impl View for Move {
    type V = Handoff;

    closed spec fn view(&self) -> Handoff {
        Handoff {
            from: self.from as int,
            to: self.to,
            ids: self.ids@,
            tower_id: self.tower_id,
            hop_count: self.hop_count,
        }
    }
}

spec fn handoffs(moves: Seq<Move>) -> Seq<Handoff> {
    moves.map_values(|m: Move| m@)
}

/// Bundles offered by the first `k` transmissions.
spec fn offered(moves: Seq<Handoff>, k: nat) -> nat
    decreases k,
{
    if k == 0 {
        0
    } else {
        offered(moves, (k - 1) as nat) + moves[k - 1].ids.len()
    }
}

proof fn lemma_offered_push(moves: Seq<Handoff>, mv: Handoff, k: nat)
    requires
        k <= moves.len(),
    ensures
        offered(moves.push(mv), k) == offered(moves, k),
    decreases k,
{
    if k > 0 {
        lemma_offered_push(moves, mv, (k - 1) as nat);
    }
}

proof fn lemma_offered_grows(moves: Seq<Handoff>, j: nat, k: nat)
    requires
        j <= k <= moves.len(),
    ensures
        offered(moves, j) <= offered(moves, k),
    decreases k,
{
    if j < k {
        lemma_offered_grows(moves, j, (k - 1) as nat);
    }
}

impl Work {
    /// Node `i` wakes to transmit. A transmission to another balloon is
    /// returned, to be handed over once all are gathered.
    fn take_slot(
        &mut self,
        moves: &mut Vec<Move>,
        balloons: &[Balloon],
        adj: &MeshAdjacency,
        params: &DvDtnParams,
        used: &Vec<bool>,
        round: u64,
        i: usize,
    )
        requires
            i < old(self)@.nodes.len(),
            i < balloons@.len(),
            i < used@.len(),
            old(self)@.tally.room((old(self)@.nodes[i as int].queue.len() + 2) as int),
            old(self)@.tally.delivered_hops.len() == 32,
            old(self)@.tally.belief_hops.len() == 32,
        ensures
            (Gather { s: final(self)@, moves: handoffs(final(moves)@) }) == bundle_round::slot_taken(
                (Gather { s: old(self)@, moves: handoffs(old(moves)@) }),
                balloons@,
                adj@,
                *params,
                used@,
                round,
                i as int,
            ),
            old(self)@.tally.grown(
                final(self)@.tally,
                (old(self)@.nodes[i as int].queue.len() + 2) as int,
            ),
            lighter(old(self)@.nodes, final(self)@.nodes),
            offered(handoffs(final(moves)@), final(moves)@.len()) <= offered(
                handoffs(old(moves)@),
                old(moves)@.len(),
            ) + old(self)@.nodes[i as int].queue.len(),
            forall|j: int|
                0 <= j < final(moves)@.len() ==> (#[trigger] final(moves)@[j]).from == i || (j
                    < old(moves)@.len() && final(moves)@[j] == old(moves)@[j]),
    {
        let ghost s0 = self@;
        let ghost m0 = handoffs(moves@);
        let ghost w = s0.nodes[i as int].queue.len() as int;
        let belief = match self.nodes[i].belief {
            None => {
                if self.nodes[i].queue.len() > 0 {
                    self.stats.slots_with_bundle = self.stats.slots_with_bundle + 1;
                    self.stats.stall_no_belief = self.stats.stall_no_belief + 1;
                }
                return;
            },
            Some(b) => b,
        };
        proof {
            bundle_stats::lemma_growth_weakens(s0.tally, s0.tally, 1, w + 2);
        }
        bundle_stats::bump(&mut self.stats.belief_hops, belief.hop_count as usize);
        let ghost sampled = RoundState {
            tally: (bundle_stats::Tally {
                belief_hops: bundle_stats::bumped(s0.tally.belief_hops, belief.hop_count as int),
                ..s0.tally
            }),
            ..s0
        };
        assert(self@ =~~= sampled);
        assert(s0.tally.grown(sampled.tally, 1));
        proof {
            bundle_stats::lemma_room_left(s0.tally, sampled.tally, 1, w + 1);
            bundle_stats::lemma_growth_weakens(s0.tally, sampled.tally, 1, w + 2);
        }
        if peek(&self.nodes[i].queue, params.queue_discipline).is_none() {
            return;
        }
        match belief.next_hop {
            None => {
                self.stats.slots_with_bundle = self.stats.slots_with_bundle + 1;
                let ghost slot = self@;
                assert(sampled.tally.grown(slot.tally, 1));
                proof {
                    bundle_stats::lemma_growth_adds_up(
                        s0.tally,
                        sampled.tally,
                        slot.tally,
                        1,
                        1,
                    );
                }
                match adj.tower_in_range(i) {
                    Some(tower_id) => {
                        proof {
                            bundle_stats::lemma_room_left(s0.tally, slot.tally, 2, w);
                        }
                        self.contact_tower(balloons, i, tower_id, params, round);
                        proof {
                            bundle_stats::lemma_growth_adds_up(
                                s0.tally,
                                slot.tally,
                                self@.tally,
                                2,
                                w,
                            );
                        }
                    },
                    None => {
                        self.stats.stall_tower_gone = self.stats.stall_tower_gone + 1;
                    },
                }
            },
            Some(next) => {
                if used[i] {
                    return;
                }
                self.stats.slots_with_bundle = self.stats.slots_with_bundle + 1;
                let ghost slot = self@;
                assert(sampled.tally.grown(slot.tally, 1));
                proof {
                    bundle_stats::lemma_growth_adds_up(
                        s0.tally,
                        sampled.tally,
                        slot.tally,
                        1,
                        1,
                    );
                }
                if !adj.is_neighbor(i, next) {
                    self.stats.stall_stale_next_hop = self.stats.stall_stale_next_hop + 1;
                    return;
                }
                proof {
                    bundle_stats::lemma_growth_weakens(s0.tally, s0.tally, 3, w + 2);
                    bundle_stats::lemma_room_left(s0.tally, slot.tally, 2, 1);
                }
                let ids: Vec<(u32, u64)> = self.fill_batch(i, next, params);
                proof {
                    bundle_stats::lemma_growth_adds_up(
                        s0.tally,
                        slot.tally,
                        self@.tally,
                        2,
                        1,
                    );
                    bundle_stats::lemma_growth_weakens(s0.tally, self@.tally, 3, w + 2);
                }
                if ids.len() > 0 {
                    let ghost shown = Handoff {
                        from: i as int,
                        to: next,
                        ids: ids@,
                        tower_id: belief.tower_id,
                        hop_count: belief.hop_count,
                    };
                    moves.push(
                        Move {
                            from: i,
                            to: next,
                            ids,
                            tower_id: belief.tower_id,
                            hop_count: belief.hop_count,
                        },
                    );
                    assert(handoffs(moves@) =~= m0.push(shown));
                    proof {
                        lemma_offered_push(m0, shown, m0.len());
                    }
                }
            },
        }
    }

    /// All transmissions of the round are gathered.
    fn gather(
        &mut self,
        balloons: &[Balloon],
        adj: &MeshAdjacency,
        params: &DvDtnParams,
        used: &Vec<bool>,
        awake: &[usize],
        round: u64,
    ) -> (moves: Vec<Move>)
        requires
            balloons@.len() >= old(self)@.nodes.len(),
            used@.len() == old(self)@.nodes.len(),
            forall|j: int| 0 <= j < awake@.len() ==> (#[trigger] awake@[j]) < old(self)@.nodes.len(),
            old(self)@.tally.room(
                bundle_round::slot_load(old(self)@.nodes, awake@, awake@.len()) as int,
            ),
            old(self)@.tally.delivered_hops.len() == 32,
            old(self)@.tally.belief_hops.len() == 32,
        ensures
            (Gather { s: final(self)@, moves: handoffs(moves@) }) == bundle_round::slots_taken(
                (Gather { s: old(self)@, moves: Seq::empty() }),
                balloons@,
                adj@,
                *params,
                used@,
                round,
                awake@,
                awake@.len(),
            ),
            old(self)@.tally.grown(
                final(self)@.tally,
                bundle_round::slot_load(old(self)@.nodes, awake@, awake@.len()) as int,
            ),
            lighter(old(self)@.nodes, final(self)@.nodes),
            offered(handoffs(moves@), moves@.len()) <= bundle_round::slot_load(
                old(self)@.nodes,
                awake@,
                awake@.len(),
            ),
            forall|j: int|
                0 <= j < moves@.len() ==> (#[trigger] moves@[j]).from < old(self)@.nodes.len(),
    {
        let ghost s0 = self@;
        let mut moves: Vec<Move> = Vec::new();
        assert(handoffs(moves@) =~= Seq::<Handoff>::empty());
        let mut k: usize = 0;
        while k < awake.len()
            invariant
                k <= awake@.len(),
                balloons@.len() >= s0.nodes.len(),
                used@.len() == s0.nodes.len(),
                self@.nodes.len() == s0.nodes.len(),
                forall|j: int| 0 <= j < awake@.len() ==> (#[trigger] awake@[j]) < s0.nodes.len(),
                s0.tally.room(bundle_round::slot_load(s0.nodes, awake@, awake@.len()) as int),
                s0.tally.delivered_hops.len() == 32,
                s0.tally.belief_hops.len() == 32,
                (Gather { s: self@, moves: handoffs(moves@) }) == bundle_round::slots_taken(
                    (Gather { s: s0, moves: Seq::empty() }),
                    balloons@,
                    adj@,
                    *params,
                    used@,
                    round,
                    awake@,
                    k as nat,
                ),
                s0.tally.grown(
                    self@.tally,
                    bundle_round::slot_load(s0.nodes, awake@, k as nat) as int,
                ),
                lighter(s0.nodes, self@.nodes),
                offered(handoffs(moves@), moves@.len()) <= bundle_round::slot_load(
                    s0.nodes,
                    awake@,
                    k as nat,
                ),
                forall|j: int|
                    0 <= j < moves@.len() ==> (#[trigger] moves@[j]).from < s0.nodes.len(),
            decreases awake@.len() - k,
        {
            let ghost before = self@;
            let ghost done = bundle_round::slot_load(s0.nodes, awake@, k as nat) as int;
            let ghost now = (before.nodes[awake@[k as int] as int].queue.len() + 2) as int;
            assert(awake@[k as int] < s0.nodes.len());
            proof {
                assert(now <= s0.nodes[awake@[k as int] as int].queue.len() + 2);
                lemma_load_grows(s0.nodes, awake@, (k + 1) as nat, awake@.len());
                bundle_stats::lemma_growth_weakens(
                    s0.tally,
                    s0.tally,
                    done + now,
                    bundle_round::slot_load(s0.nodes, awake@, awake@.len()) as int,
                );
                bundle_stats::lemma_room_left(s0.tally, before.tally, done, now);
            }
            self.take_slot(&mut moves, balloons, adj, params, used, round, awake[k]);
            proof {
                bundle_stats::lemma_growth_adds_up(s0.tally, before.tally, self@.tally, done, now);
                bundle_stats::lemma_growth_weakens(
                    s0.tally,
                    self@.tally,
                    done + now,
                    bundle_round::slot_load(s0.nodes, awake@, (k + 1) as nat) as int,
                );
                lemma_lighter_chain(s0.nodes, before.nodes, self@.nodes);
            }
            k = k + 1;
        }
        moves
    }

    /// One bundle of a transmission is handed over, if the receiver has room
    /// and the sender still holds it.
    fn hand_bundle(
        &mut self,
        from: usize,
        to: u32,
        origin_id: u32,
        seq: u64,
        params: &DvDtnParams,
        round: u64,
    ) -> (sent: bool)
        requires
            from < old(self)@.nodes.len(),
            old(self)@.tally.room(1),
        ensures
            (final(self)@, sent) == bundle_round::bundle_handed(
                old(self)@,
                from as int,
                to,
                (origin_id, seq),
                *params,
                round,
            ),
            old(self)@.tally.grown(final(self)@.tally, 1),
            final(self)@.nodes.len() == old(self)@.nodes.len(),
            forall|j: int|
                0 <= j < old(self)@.nodes.len() ==> (#[trigger] final(self)@.nodes[j]).bundle_seq
                    == old(self)@.nodes[j].bundle_seq,
    {
        let ghost s0 = self@;
        let to_idx: usize = to as usize;
        let room: bool = to_idx < self.nodes.len() && self.nodes[to_idx].queue.len()
            < params.relay_queue_capacity;
        if !room {
            self.stats.blocked = self.stats.blocked + 1;
            return false;
        }
        match position_of(&self.nodes[from].queue, origin_id, seq) {
            None => false,
            Some(p) => {
                match self.nodes[from].queue.remove(p) {
                    Some(found) => {
                        let mut b: Bundle = found;
                        let ghost held = b@;
                        let ghost taken = s0.nodes.update(
                            from as int,
                            (super::NodeModel {
                                queue: s0.nodes[from as int].queue.remove(p as int),
                                ..s0.nodes[from as int]
                            }),
                        );
                        assert(held == s0.nodes[from as int].queue[p as int]);
                        assert(super::models(self.nodes@) =~~= taken);
                        if b.hops() == 0 {
                            let age: u64 = b.age(round);
                            self.stats.first_hop_latency.record(age);
                        }
                        assert(self.stats@ =~~= bundle_round::first_hop_counted(
                            s0.tally,
                            held,
                            round,
                        ));
                        b.path.push(to);
                        let ghost passed = b@;
                        assert(passed =~~= (BundleModel { path: held.path.push(to), ..held }));
                        self.nodes[to_idx].queue.push_back(b);
                        assert(super::models(self.nodes@) =~~= taken.update(
                            to as int,
                            (super::NodeModel {
                                queue: taken[to as int].queue.push(passed),
                                ..taken[to as int]
                            }),
                        ));
                        true
                    },
                    None => {
                        assert(false);
                        false
                    },
                }
            },
        }
    }

    /// A whole transmission is handed over.
    fn hand_over(&mut self, balloons: &[Balloon], mv: &Move, params: &DvDtnParams, round: u64)
        requires
            mv.from < old(self)@.nodes.len(),
            mv.from < balloons@.len(),
            old(self)@.tally.room(mv.ids@.len() as int),
        ensures
            final(self)@ == bundle_round::handed(old(self)@, balloons@, mv@, *params, round),
            old(self)@.tally.grown(final(self)@.tally, mv.ids@.len() as int),
            final(self)@.nodes.len() == old(self)@.nodes.len(),
            forall|j: int|
                0 <= j < old(self)@.nodes.len() ==> (#[trigger] final(self)@.nodes[j]).bundle_seq
                    == old(self)@.nodes[j].bundle_seq,
    {
        let ghost s0 = self@;
        let mut sent: usize = 0;
        let mut k: usize = 0;
        while k < mv.ids.len()
            invariant
                k <= mv.ids@.len(),
                sent <= k,
                mv.from < s0.nodes.len(),
                s0.tally.room(mv.ids@.len() as int),
                (self@, sent as int) == bundle_round::bundles_handed(
                    s0,
                    mv@,
                    *params,
                    round,
                    k as nat,
                ),
                s0.tally.grown(self@.tally, k as int),
                self@.nodes.len() == s0.nodes.len(),
                forall|j: int|
                    0 <= j < s0.nodes.len() ==> (#[trigger] self@.nodes[j]).bundle_seq
                        == s0.nodes[j].bundle_seq,
            decreases mv.ids@.len() - k,
        {
            let ghost before = self@;
            proof {
                bundle_stats::lemma_growth_weakens(
                    s0.tally,
                    s0.tally,
                    k + 1,
                    mv.ids@.len() as int,
                );
                bundle_stats::lemma_room_left(s0.tally, before.tally, k as int, 1);
            }
            let (origin_id, seq) = mv.ids[k];
            if self.hand_bundle(mv.from, mv.to, origin_id, seq, params, round) {
                sent = sent + 1;
            }
            proof {
                bundle_stats::lemma_growth_adds_up(
                    s0.tally,
                    before.tally,
                    self@.tally,
                    k as int,
                    1,
                );
            }
            k = k + 1;
        }
        let ghost after = self@;
        if sent > 0 {
            self.events.push(
                CommsEvent {
                    kind: EventKind::Bundle,
                    from: NodeKey::Balloon(balloons[mv.from].id),
                    to: NodeKey::Balloon(mv.to),
                    payload: sent as u32,
                    tower_id: Some(mv.tower_id),
                    hop_count: Some(mv.hop_count),
                    epoch: None,
                },
            );
        }
        assert(self@ =~~= bundle_round::handed(s0, balloons@, mv@, *params, round));
    }

    /// All transmissions of the round are handed over.
    fn apply(
        &mut self,
        balloons: &[Balloon],
        moves: &Vec<Move>,
        params: &DvDtnParams,
        round: u64,
    )
        requires
            balloons@.len() >= old(self)@.nodes.len(),
            forall|j: int|
                0 <= j < moves@.len() ==> (#[trigger] moves@[j]).from < old(self)@.nodes.len(),
            old(self)@.tally.room(offered(handoffs(moves@), moves@.len()) as int),
        ensures
            final(self)@ == bundle_round::all_handed(
                old(self)@,
                balloons@,
                handoffs(moves@),
                *params,
                round,
                moves@.len(),
            ),
            old(self)@.tally.grown(
                final(self)@.tally,
                offered(handoffs(moves@), moves@.len()) as int,
            ),
            final(self)@.nodes.len() == old(self)@.nodes.len(),
            forall|j: int|
                0 <= j < old(self)@.nodes.len() ==> (#[trigger] final(self)@.nodes[j]).bundle_seq
                    == old(self)@.nodes[j].bundle_seq,
    {
        let ghost s0 = self@;
        let ghost list = handoffs(moves@);
        let mut k: usize = 0;
        while k < moves.len()
            invariant
                k <= moves@.len(),
                list == handoffs(moves@),
                balloons@.len() >= s0.nodes.len(),
                forall|j: int|
                    0 <= j < moves@.len() ==> (#[trigger] moves@[j]).from < s0.nodes.len(),
                s0.tally.room(offered(list, list.len()) as int),
                self@ == bundle_round::all_handed(
                    s0,
                    balloons@,
                    list,
                    *params,
                    round,
                    k as nat,
                ),
                s0.tally.grown(self@.tally, offered(list, k as nat) as int),
                self@.nodes.len() == s0.nodes.len(),
                forall|j: int|
                    0 <= j < s0.nodes.len() ==> (#[trigger] self@.nodes[j]).bundle_seq
                        == s0.nodes[j].bundle_seq,
            decreases moves@.len() - k,
        {
            let ghost before = self@;
            let ghost done = offered(list, k as nat) as int;
            let ghost now = moves@[k as int].ids@.len() as int;
            proof {
                assert(list[k as int] == moves@[k as int]@);
                lemma_offered_grows(list, (k + 1) as nat, list.len());
                bundle_stats::lemma_growth_weakens(
                    s0.tally,
                    s0.tally,
                    done + now,
                    offered(list, list.len()) as int,
                );
                bundle_stats::lemma_room_left(s0.tally, before.tally, done, now);
            }
            self.hand_over(balloons, &moves[k], params, round);
            proof {
                bundle_stats::lemma_growth_adds_up(s0.tally, before.tally, self@.tally, done, now);
            }
            k = k + 1;
        }
    }
}

/// Whether a queue holds a bundle of this origin.
fn holds_own(q: &VecDeque<Bundle>, id: u32) -> (r: bool)
    ensures
        r == bundle_round::holds_own(bundles(q@), id),
{
    let mut k: usize = 0;
    while k < q.len()
        invariant
            k <= q@.len(),
            forall|j: int| 0 <= j < k ==> (#[trigger] bundles(q@)[j]).origin_id != id,
        decreases q@.len() - k,
    {
        if q[k].origin_id == id {
            assert(bundles(q@)[k as int].origin_id == id);
            return true;
        }
        k = k + 1;
    }
    false
}

impl Work {
    /// Node `i` originates a bundle if it may.
    fn originate(&mut self, balloons: &[Balloon], params: &DvDtnParams, round: u64, i: usize)
        requires
            i < old(self)@.nodes.len(),
            i < balloons@.len(),
            old(self)@.tally.room(1),
            old(self)@.nodes[i as int].bundle_seq < u64::MAX,
            round + params.bundle_interval_rounds <= u64::MAX,
        ensures
            final(self)@ == bundle_round::origination(
                old(self)@,
                balloons@,
                *params,
                round,
                i as int,
            ),
            old(self)@.tally.grown(final(self)@.tally, 1),
            final(self)@.nodes.len() == old(self)@.nodes.len(),
            forall|j: int|
                0 <= j < old(self)@.nodes.len() ==> (#[trigger] final(self)@.nodes[j]).bundle_seq
                    <= old(self)@.nodes[j].bundle_seq + 1,
    {
        let ghost s0 = self@;
        let ghost n0 = s0.nodes[i as int];
        let id: u32 = balloons[i].id;
        if round < self.nodes[i].next_bundle_round || self.nodes[i].queue.len()
            >= params.relay_queue_capacity {
            return;
        }
        if holds_own(&self.nodes[i].queue, id) {
            return;
        }
        let seq: u64 = self.nodes[i].bundle_seq;
        let record: TelemetryRecord = TelemetryRecord::sample(&balloons[i], seq, round);
        if self.nodes[i].log.len() >= params.comms_log_capacity {
            let _ = self.nodes[i].log.pop_front();
        }
        self.nodes[i].log.push_back(record);
        let mut path: Vec<u32> = Vec::new();
        path.push(id);
        assert(path@ =~= seq![id]);
        self.nodes[i].queue.push_back(
            Bundle { origin_id: id, seq, created_at_round: round, record, path },
        );
        self.nodes[i].outstanding = Some(
            OutstandingBundle {
                seq,
                created_at_round: round,
                state: AckState::Pending,
                path: None,
                channel: None,
                tower_id: None,
                ack_hops_completed: None,
            },
        );
        self.nodes[i].bundle_seq = seq + 1;
        self.nodes[i].next_bundle_round = round + params.bundle_interval_rounds;
        self.stats.originated = self.stats.originated + 1;
        assert(self.nodes@[i as int]@ =~~= bundle_round::originating(
            n0,
            balloons@[i as int],
            *params,
            round,
        ));
        assert(self@ =~~= bundle_round::origination(s0, balloons@, *params, round, i as int));
    }

    /// Every awake balloon originates a bundle if it may.
    fn originate_all(
        &mut self,
        balloons: &[Balloon],
        params: &DvDtnParams,
        awake: &[usize],
        round: u64,
    )
        requires
            balloons@.len() >= old(self)@.nodes.len(),
            forall|j: int| 0 <= j < awake@.len() ==> (#[trigger] awake@[j]) < old(self)@.nodes.len(),
            old(self)@.tally.room(awake@.len() as int),
            forall|j: int|
                0 <= j < old(self)@.nodes.len() ==> (#[trigger] old(self)@.nodes[j]).bundle_seq
                    + awake@.len() <= u64::MAX,
            round + params.bundle_interval_rounds <= u64::MAX,
        ensures
            final(self)@ == bundle_round::originations(
                old(self)@,
                balloons@,
                *params,
                round,
                awake@,
                awake@.len(),
            ),
            old(self)@.tally.grown(final(self)@.tally, awake@.len() as int),
            final(self)@.nodes.len() == old(self)@.nodes.len(),
    {
        let ghost s0 = self@;
        let mut k: usize = 0;
        while k < awake.len()
            invariant
                k <= awake@.len(),
                balloons@.len() >= s0.nodes.len(),
                self@.nodes.len() == s0.nodes.len(),
                forall|j: int| 0 <= j < awake@.len() ==> (#[trigger] awake@[j]) < s0.nodes.len(),
                s0.tally.room(awake@.len() as int),
                forall|j: int|
                    0 <= j < s0.nodes.len() ==> (#[trigger] self@.nodes[j]).bundle_seq
                        + (awake@.len() - k) <= u64::MAX,
                round + params.bundle_interval_rounds <= u64::MAX,
                self@ == bundle_round::originations(
                    s0,
                    balloons@,
                    *params,
                    round,
                    awake@,
                    k as nat,
                ),
                s0.tally.grown(self@.tally, k as int),
            decreases awake@.len() - k,
        {
            let ghost before = self@;
            assert(awake@[k as int] < s0.nodes.len());
            proof {
                bundle_stats::lemma_growth_weakens(
                    s0.tally,
                    s0.tally,
                    k + 1,
                    awake@.len() as int,
                );
                bundle_stats::lemma_room_left(s0.tally, before.tally, k as int, 1);
                assert(before.nodes[awake@[k as int] as int].bundle_seq + (awake@.len() - k)
                    <= u64::MAX);
            }
            self.originate(balloons, params, round, awake[k]);
            proof {
                bundle_stats::lemma_growth_adds_up(
                    s0.tally,
                    before.tally,
                    self@.tally,
                    k as int,
                    1,
                );
                assert forall|j: int| 0 <= j < s0.nodes.len() implies (
                #[trigger] self@.nodes[j]).bundle_seq + (awake@.len() - (k + 1)) <= u64::MAX by {
                    assert(before.nodes[j].bundle_seq + (awake@.len() - k) <= u64::MAX);
                }
            }
            k = k + 1;
        }
    }
}

proof fn lemma_live_bundles_fewer(q: Seq<BundleModel>, k: nat, round: u64, max_age: u64)
    requires
        k <= q.len(),
    ensures
        bundle_round::live_bundles(q, k, round, max_age).len() <= k,
    decreases k,
{
    if k > 0 {
        lemma_live_bundles_fewer(q, (k - 1) as nat, round, max_age);
    }
}

/// Whether two lists of nodes hold the same queues and have originated as much.
spec fn same_queues(a: Seq<super::NodeModel>, b: Seq<super::NodeModel>) -> bool {
    &&& a.len() == b.len()
    &&& forall|j: int|
        0 <= j < a.len() ==> (#[trigger] b[j]).queue == a[j].queue && b[j].ack_queue
            == a[j].ack_queue && b[j].bundle_seq == a[j].bundle_seq
}

proof fn lemma_noting_keeps_queues(nodes: Seq<super::NodeModel>, list: Seq<BundleModel>, k: nat)
    requires
        k <= list.len(),
    ensures
        same_queues(nodes, bundle_round::all_noted_sent_up(nodes, list, k)),
    decreases k,
{
    if k > 0 {
        lemma_noting_keeps_queues(nodes, list, (k - 1) as nat);
    }
}

proof fn lemma_loss_keeps_queues(nodes: Seq<super::NodeModel>, list: Seq<AckModel>, k: nat)
    requires
        k <= list.len(),
    ensures
        same_queues(nodes, bundle_round::all_noted_lost(nodes, list, k)),
    decreases k,
{
    if k > 0 {
        lemma_loss_keeps_queues(nodes, list, (k - 1) as nat);
    }
}

proof fn lemma_expiry_lightens(s: RoundState, round: u64, max_age: u64)
    ensures
        lighter(s.nodes, bundle_round::bundles_expired(s, round, max_age).nodes),
        forall|j: int|
            0 <= j < s.nodes.len() ==> (#[trigger] bundle_round::bundles_expired(
                s,
                round,
                max_age,
            ).nodes[j]).ack_queue == s.nodes[j].ack_queue,
        lighter(s.nodes, bundle_round::acks_expired(s, round, max_age).nodes),
        lighter(s.nodes, bundle_round::waits_ended(s, round, max_age).nodes),
{
    let late = bundle_round::all_late_bundles(s.nodes, s.nodes.len(), round, max_age);
    let kept = Seq::new(
        s.nodes.len(),
        |i: int| bundle_round::bundles_trimmed(s.nodes[i], round, max_age),
    );
    lemma_noting_keeps_queues(kept, late, late.len());
    let after = bundle_round::bundles_expired(s, round, max_age).nodes;
    assert forall|j: int| 0 <= j < s.nodes.len() implies (#[trigger] after[j]).queue.len()
        <= s.nodes[j].queue.len() && after[j].bundle_seq == s.nodes[j].bundle_seq
        && after[j].ack_queue == s.nodes[j].ack_queue by {
        lemma_live_bundles_fewer(s.nodes[j].queue, s.nodes[j].queue.len(), round, max_age);
        assert(kept[j].queue.len() <= s.nodes[j].queue.len());
    }
    let late_acks = bundle_round::all_late_acks(s.nodes, s.nodes.len(), round, max_age);
    let kept_acks = Seq::new(
        s.nodes.len(),
        |i: int| bundle_round::acks_trimmed(s.nodes[i], round, max_age),
    );
    lemma_loss_keeps_queues(kept_acks, late_acks, late_acks.len());
    let lost = bundle_round::acks_expired(s, round, max_age).nodes;
    assert forall|j: int| 0 <= j < s.nodes.len() implies (#[trigger] lost[j]).queue.len()
        <= s.nodes[j].queue.len() && lost[j].bundle_seq == s.nodes[j].bundle_seq by {
        assert(kept_acks[j].queue == s.nodes[j].queue);
    }
    let ended = bundle_round::waits_ended(s, round, max_age).nodes;
    assert forall|j: int| 0 <= j < s.nodes.len() implies (#[trigger] ended[j]).queue.len()
        <= s.nodes[j].queue.len() && ended[j].bundle_seq == s.nodes[j].bundle_seq by {
        assert(ended[j] == bundle_round::timed_out(s.nodes[j], round, max_age));
    }
}

proof fn lemma_same_acks_held(a: Seq<super::NodeModel>, b: Seq<super::NodeModel>, k: nat)
    requires
        a.len() == b.len(),
        k <= a.len(),
        forall|j: int| 0 <= j < a.len() ==> (#[trigger] b[j]).ack_queue == a[j].ack_queue,
    ensures
        bundle_round::acks_held(b, k) == bundle_round::acks_held(a, k),
    decreases k,
{
    if k > 0 {
        lemma_same_acks_held(a, b, (k - 1) as nat);
        assert(b[k - 1].ack_queue == a[k - 1].ack_queue);
    }
}

/// Advance bundles by one comms round.
///
/// `awake` lists the balloons that transmit this round; `nodes` and `balloons`
/// are index-aligned.
#[verifier::spinoff_prover]
#[verifier::rlimit(60)]
pub fn step(
    nodes: &mut Vec<DvNode>,
    balloons: &[Balloon],
    adj: &MeshAdjacency,
    params: &DvDtnParams,
    awake: &[usize],
    round: u64,
    stats: &mut BundleStats,
) -> (out: StepOutput)
    requires
        balloons@.len() >= old(nodes)@.len(),
        forall|j: int| 0 <= j < awake@.len() ==> (#[trigger] awake@[j]) < old(nodes)@.len(),
        bundle_round::round_fits(
            (RoundState {
                nodes: super::models(old(nodes)@),
                tally: old(stats)@,
                events: Seq::empty(),
                deliveries: Seq::empty(),
            }),
            *params,
            awake@,
            round,
        ),
    ensures
        (RoundState {
            nodes: super::models(final(nodes)@),
            tally: final(stats)@,
            events: out.events@,
            deliveries: out.deliveries@,
        }) == bundle_round::bundle_round(
            (RoundState {
                nodes: super::models(old(nodes)@),
                tally: old(stats)@,
                events: Seq::empty(),
                deliveries: Seq::empty(),
            }),
            balloons@,
            adj@,
            *params,
            awake@,
            round,
        ),
        old(stats)@.grown(
            final(stats)@,
            bundle_round::round_work(super::models(old(nodes)@), awake@) as int,
        ),
{
    let mut held: Vec<DvNode> = Vec::new();
    std::mem::swap(nodes, &mut held);
    let mut w: Work = Work {
        nodes: held,
        stats: *stats,
        events: Vec::new(),
        deliveries: Vec::new(),
    };
    let ghost s0 = w@;
    let ghost n = s0.nodes.len();
    let ghost w1 = bundle_round::queued(s0.nodes, n) as int;
    let ghost w2 = bundle_round::acks_held(s0.nodes, n) as int;
    let ghost w3 = (n + 1) as int;
    let ghost w4 = awake@.len() as int;
    let ghost load = bundle_round::slot_load(s0.nodes, awake@, awake@.len()) as int;
    let ghost all = w1 + w2 + w3 + w4 + load + load + w4;
    assert(s0.events =~= Seq::<CommsEvent>::empty());
    assert(s0.deliveries =~= Seq::<Delivery>::empty());
    assert(s0.tally.room(all));
    assert(w.stats.delivered_hops@.len() == 32 && w.stats.belief_hops@.len() == 32);
    proof {
        bundle_stats::lemma_growth_weakens(s0.tally, s0.tally, w1, all);
    }
    w.expire_bundles(round, params.bundle_max_age_rounds);
    let ghost s1 = w@;
    proof {
        lemma_expiry_lightens(s0, round, params.bundle_max_age_rounds);
        lemma_same_acks_held(s0.nodes, s1.nodes, n);
        bundle_stats::lemma_growth_weakens(s0.tally, s0.tally, w1 + w2, all);
        bundle_stats::lemma_room_left(s0.tally, s1.tally, w1, w2);
    }
    w.expire_acks(round, params.bundle_max_age_rounds);
    let ghost s2 = w@;
    proof {
        lemma_expiry_lightens(s1, round, params.bundle_max_age_rounds);
        lemma_lighter_chain(s0.nodes, s1.nodes, s2.nodes);
        bundle_stats::lemma_growth_adds_up(s0.tally, s1.tally, s2.tally, w1, w2);
    }
    w.end_waits(round, params.bundle_max_age_rounds);
    let ghost s3 = w@;
    proof {
        lemma_expiry_lightens(s2, round, params.bundle_max_age_rounds);
        lemma_lighter_chain(s0.nodes, s2.nodes, s3.nodes);
        bundle_stats::lemma_growth_weakens(s0.tally, s0.tally, w1 + w2 + w3, all);
        bundle_stats::lemma_room_left(s0.tally, s3.tally, w1 + w2, w3);
    }
    w.sample_last_hop(adj);
    let ghost s4 = w@;
    proof {
        bundle_stats::lemma_growth_adds_up(s0.tally, s3.tally, s4.tally, w1 + w2, w3);
        bundle_stats::lemma_growth_weakens(s0.tally, s0.tally, w1 + w2 + w3 + w4, all);
        bundle_stats::lemma_room_left(s0.tally, s4.tally, w1 + w2 + w3, w4);
    }
    let used: Vec<bool> = w.forward_acks(balloons, adj, params, awake, round);
    let ghost s5 = w@;
    let ghost done5 = w1 + w2 + w3 + w4;
    let ghost load5 = bundle_round::slot_load(s5.nodes, awake@, awake@.len()) as int;
    proof {
        lemma_lighter_chain(s0.nodes, s4.nodes, s5.nodes);
        lemma_lighter_load(s0.nodes, s5.nodes, awake@, awake@.len());
        bundle_stats::lemma_growth_adds_up(s0.tally, s4.tally, s5.tally, w1 + w2 + w3, w4);
        bundle_stats::lemma_growth_weakens(s0.tally, s0.tally, done5 + load5, all);
        bundle_stats::lemma_room_left(s0.tally, s5.tally, done5, load5);
    }
    assert(w.stats.delivered_hops@.len() == 32 && w.stats.belief_hops@.len() == 32);
    let moves: Vec<Move> = w.gather(balloons, adj, params, &used, awake, round);
    let ghost s6 = w@;
    let ghost done6 = done5 + load5;
    let ghost load6 = offered(handoffs(moves@), moves@.len()) as int;
    proof {
        lemma_lighter_chain(s0.nodes, s5.nodes, s6.nodes);
        bundle_stats::lemma_growth_adds_up(s0.tally, s5.tally, s6.tally, done5, load5);
        bundle_stats::lemma_growth_weakens(s0.tally, s0.tally, done6 + load6, all);
        bundle_stats::lemma_room_left(s0.tally, s6.tally, done6, load6);
    }
    w.apply(balloons, &moves, params, round);
    let ghost s7 = w@;
    proof {
        bundle_stats::lemma_growth_adds_up(s0.tally, s6.tally, s7.tally, done6, load6);
        bundle_stats::lemma_growth_weakens(s0.tally, s0.tally, done6 + load6 + w4, all);
        bundle_stats::lemma_room_left(s0.tally, s7.tally, done6 + load6, w4);
        assert forall|j: int| 0 <= j < s7.nodes.len() implies (#[trigger] s7.nodes[j]).bundle_seq
            + awake@.len() <= u64::MAX by {
            assert(s6.nodes[j].bundle_seq == s0.nodes[j].bundle_seq);
        }
    }
    w.originate_all(balloons, params, awake, round);
    proof {
        bundle_stats::lemma_growth_adds_up(s0.tally, s7.tally, w@.tally, done6 + load6, w4);
        bundle_stats::lemma_growth_weakens(s0.tally, w@.tally, done6 + load6 + w4, all);
    }
    let Work { nodes: mut moved, stats: counted, events, deliveries } = w;
    std::mem::swap(nodes, &mut moved);
    *stats = counted;
    StepOutput { events, deliveries }
}

/// Resolves an origin's own view once it hears its delivery announced.
pub fn apply_digest_ack(node: &mut DvNode, seq: u64, round: u64, stats: &mut BundleStats)
    requires
        old(stats).acked < u64::MAX,
    ensures
        bundle_round::awaits(old(node)@, seq) ==> {
            &&& final(node)@ == bundle_round::told(old(node)@, seq)
            &&& final(stats)@ == bundle_round::told_tally(old(stats)@, old(node)@, seq, round)
        },
        !bundle_round::awaits(old(node)@, seq) ==> {
            &&& final(node)@ == old(node)@
            &&& final(stats)@ == old(stats)@
        },
{
    let waiting: bool = match &node.outstanding {
        Some(o) => o.seq == seq && o.state == AckState::Pending,
        None => false,
    };
    if waiting {
        tell(node, seq, round, stats);
    }
}

} // verus!
