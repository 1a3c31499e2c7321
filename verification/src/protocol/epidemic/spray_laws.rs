//! What holds of spray-and-wait over a whole round.
use vstd::prelude::*;

use crate::balloon::Balloon;
use crate::mesh_adjacency::Topology;
use crate::protocol::dv_dtn::bundle;
use crate::protocol::dv_dtn::bundle::{AckState, OutstandingModel};

use super::params::EpidemicParams;
use super::spray_round;
use super::spray_round::{EpiModel, Spray, SprayGather, SprayState};
use super::Copy_;

verus! {

/// Whether two lists of nodes have handed out the same sequence numbers.
pub open spec fn same_seqs(a: Seq<EpiModel>, b: Seq<EpiModel>) -> bool {
    &&& a.len() == b.len()
    &&& forall|j: int| 0 <= j < a.len() ==> (#[trigger] b[j]).bundle_seq == a[j].bundle_seq
}

/// Whether, besides, every origin knows as much of its own record as before.
pub open spec fn same_origins(a: Seq<EpiModel>, b: Seq<EpiModel>) -> bool {
    &&& same_seqs(a, b)
    &&& forall|j: int| 0 <= j < a.len() ==> (#[trigger] b[j]).outstanding == a[j].outstanding
}

proof fn lemma_expiry_keeps_seqs(s: SprayState, late: Seq<Copy_>, k: nat)
    ensures
        same_origins(s.nodes, spray_round::copies_expired(s, late, k).nodes),
    decreases k,
{
    if k > 0 {
        lemma_expiry_keeps_seqs(s, late, (k - 1) as nat);
    }
}

pub(crate) proof fn lemma_expired_keep_seqs(s: SprayState, round: u64, max_age: u64, k: nat)
    requires
        k <= s.nodes.len(),
    ensures
        same_origins(s.nodes, spray_round::nodes_expired(s, round, max_age, k).nodes),
    decreases k,
{
    if k > 0 {
        lemma_expired_keep_seqs(s, round, max_age, (k - 1) as nat);
        let before = spray_round::nodes_expired(s, round, max_age, (k - 1) as nat);
        let held = before.nodes[k - 1].held;
        let late = spray_round::late_copies(held, held.len(), round, max_age);
        let start = SprayState {
            nodes: before.nodes.update(
                k - 1,
                EpiModel {
                    held: spray_round::live_copies(held, held.len(), round, max_age),
                    ..before.nodes[k - 1]
                },
            ),
            ..before
        };
        lemma_expiry_keeps_seqs(start, late, late.len());
    }
}

proof fn lemma_landing_keeps_seqs(s: SprayState, i: int, round: u64, k: nat)
    requires
        0 <= i < s.nodes.len(),
    ensures
        same_origins(s.nodes, spray_round::copies_landed(s, i, round, k).nodes),
    decreases k,
{
    if k > 0 {
        lemma_landing_keeps_seqs(s, i, round, (k - 1) as nat);
    }
}

pub(crate) proof fn lemma_deliveries_keep_seqs(
    s: SprayState,
    fleet: Seq<Balloon>,
    topo: Topology,
    params: EpidemicParams,
    up: Seq<bool>,
    round: u64,
    k: nat,
)
    requires
        k <= s.nodes.len(),
    ensures
        same_origins(
            s.nodes,
            spray_round::deliveries(s, fleet, topo, params, up, round, k).nodes,
        ),
    decreases k,
{
    if k > 0 {
        lemma_deliveries_keep_seqs(s, fleet, topo, params, up, round, (k - 1) as nat);
        let before = spray_round::deliveries(s, fleet, topo, params, up, round, (k - 1) as nat);
        let n = spray_round::contact_size(before.nodes[k - 1], params);
        match topo.tower_of(k - 1) {
            Some(tower_id) => {
                if up[k - 1] {
                    let announced = spray_round::contact_announced(
                        before,
                        fleet,
                        params,
                        tower_id,
                        k - 1,
                    );
                    lemma_landing_keeps_seqs(announced, k - 1, round, n);
                }
            },
            None => {},
        }
    }
}

/// Whether every handover comes from one of the first `m` nodes.
pub open spec fn sent_by(sprays: Seq<Spray>, m: int) -> bool {
    forall|j: int| 0 <= j < sprays.len() ==> 0 <= (#[trigger] sprays[j]).from < m
}

pub(crate) proof fn lemma_sprays_keep_seqs(
    g: SprayGather,
    topo: Topology,
    up: Seq<bool>,
    picks: Seq<u64>,
    k: nat,
    m: int,
)
    requires
        k <= m <= g.s.nodes.len(),
        sent_by(g.sprays, m),
    ensures
        same_origins(g.s.nodes, spray_round::all_sprayed(g, topo, up, picks, k).s.nodes),
        sent_by(spray_round::all_sprayed(g, topo, up, picks, k).sprays, m),
    decreases k,
{
    if k > 0 {
        lemma_sprays_keep_seqs(g, topo, up, picks, (k - 1) as nat, m);
    }
}

pub(crate) proof fn lemma_handing_keeps_seqs(
    s: SprayState,
    fleet: Seq<Balloon>,
    params: EpidemicParams,
    sprays: Seq<Spray>,
    k: nat,
)
    requires
        k <= sprays.len(),
        sent_by(sprays, s.nodes.len() as int),
    ensures
        same_origins(s.nodes, spray_round::all_handed(s, fleet, params, sprays, k).nodes),
    decreases k,
{
    if k > 0 {
        lemma_handing_keeps_seqs(s, fleet, params, sprays, (k - 1) as nat);
        assert(0 <= sprays[k - 1].from < s.nodes.len());
    }
}


// ---------------------------------------------------------------------------
// The copy budget
// ---------------------------------------------------------------------------

/// What one copy counts towards the budget of a record.
pub open spec fn weight(c: Copy_, origin_id: u32, seq: u64) -> nat {
    if c.origin_id == origin_id && c.seq == seq {
        c.copies as nat
    } else {
        0
    }
}

/// Copies of a record among those held.
pub open spec fn copies_in(held: Seq<Copy_>, origin_id: u32, seq: u64) -> nat
    decreases held.len(),
{
    if held.len() == 0 {
        0
    } else {
        copies_in(held.drop_last(), origin_id, seq) + weight(held.last(), origin_id, seq)
    }
}

/// Copies of a record over all nodes.
pub open spec fn copies_out(nodes: Seq<EpiModel>, origin_id: u32, seq: u64) -> nat
    decreases nodes.len(),
{
    if nodes.len() == 0 {
        0
    } else {
        copies_out(nodes.drop_last(), origin_id, seq) + copies_in(
            nodes.last().held,
            origin_id,
            seq,
        )
    }
}

/// Copies of a record in flight between nodes, from handover `k` on.
pub open spec fn copies_flying(sprays: Seq<Spray>, k: int, origin_id: u32, seq: u64) -> nat
    decreases sprays.len() - k,
{
    if k >= sprays.len() {
        0
    } else {
        weight(sprays[k].copy, origin_id, seq) + copies_flying(sprays, k + 1, origin_id, seq)
    }
}

proof fn lemma_copies_push(held: Seq<Copy_>, c: Copy_, o: u32, q: u64)
    ensures
        copies_in(held.push(c), o, q) == copies_in(held, o, q) + weight(c, o, q),
{
    assert(held.push(c).drop_last() =~= held);
}

proof fn lemma_copies_update(held: Seq<Copy_>, p: int, c: Copy_, o: u32, q: u64)
    requires
        0 <= p < held.len(),
    ensures
        copies_in(held.update(p, c), o, q) == copies_in(held, o, q) - weight(held[p], o, q)
            + weight(c, o, q),
    decreases held.len(),
{
    if p == held.len() - 1 {
        assert(held.update(p, c).drop_last() =~= held.drop_last());
    } else {
        assert(held.update(p, c).drop_last() =~= held.drop_last().update(p, c));
        lemma_copies_update(held.drop_last(), p, c, o, q);
    }
}

proof fn lemma_copies_pop(held: Seq<Copy_>, o: u32, q: u64)
    requires
        held.len() > 0,
    ensures
        copies_in(held.subrange(1, held.len() as int), o, q) == copies_in(held, o, q) - weight(
            held[0],
            o,
            q,
        ),
    decreases held.len(),
{
    let rest = held.subrange(1, held.len() as int);
    if held.len() == 1 {
        assert(held.drop_last() =~= Seq::empty());
        assert(copies_in(held.drop_last(), o, q) == 0);
    } else {
        assert(rest.drop_last() =~= held.drop_last().subrange(1, held.len() - 1));
        lemma_copies_pop(held.drop_last(), o, q);
    }
}

proof fn lemma_copies_live(held: Seq<Copy_>, k: nat, round: u64, max_age: u64, o: u32, q: u64)
    requires
        k <= held.len(),
    ensures
        copies_in(spray_round::live_copies(held, k, round, max_age), o, q) <= copies_in(
            held.take(k as int),
            o,
            q,
        ),
    decreases k,
{
    if k > 0 {
        lemma_copies_live(held, (k - 1) as nat, round, max_age, o, q);
        assert(held.take(k as int).drop_last() =~= held.take(k - 1));
        lemma_copies_push(
            spray_round::live_copies(held, (k - 1) as nat, round, max_age),
            held[k - 1],
            o,
            q,
        );
    }
}

proof fn lemma_out_update(nodes: Seq<EpiModel>, i: int, n: EpiModel, o: u32, q: u64)
    requires
        0 <= i < nodes.len(),
    ensures
        copies_out(nodes.update(i, n), o, q) == copies_out(nodes, o, q) - copies_in(
            nodes[i].held,
            o,
            q,
        ) + copies_in(n.held, o, q),
    decreases nodes.len(),
{
    if i == nodes.len() - 1 {
        assert(nodes.update(i, n).drop_last() =~= nodes.drop_last());
    } else {
        assert(nodes.update(i, n).drop_last() =~= nodes.drop_last().update(i, n));
        lemma_out_update(nodes.drop_last(), i, n, o, q);
    }
}

proof fn lemma_out_same(a: Seq<EpiModel>, b: Seq<EpiModel>, o: u32, q: u64)
    requires
        a.len() == b.len(),
        forall|j: int| 0 <= j < a.len() ==> (#[trigger] b[j]).held == a[j].held,
    ensures
        copies_out(a, o, q) == copies_out(b, o, q),
    decreases a.len(),
{
    if a.len() > 0 {
        assert(b[b.len() - 1].held == a[a.len() - 1].held);
        assert forall|j: int| 0 <= j < a.drop_last().len() implies (
        #[trigger] b.drop_last()[j]).held == a.drop_last()[j].held by {
            assert(b[j].held == a[j].held);
        }
        lemma_out_same(a.drop_last(), b.drop_last(), o, q);
    }
}

proof fn lemma_budget_expiry(s: SprayState, late: Seq<Copy_>, k: nat, o: u32, q: u64)
    ensures
        copies_out(spray_round::copies_expired(s, late, k).nodes, o, q) == copies_out(
            s.nodes,
            o,
            q,
        ),
        spray_round::copies_expired(s, late, k).nodes.len() == s.nodes.len(),
    decreases k,
{
    if k > 0 {
        lemma_budget_expiry(s, late, (k - 1) as nat, o, q);
        let before = spray_round::copies_expired(s, late, (k - 1) as nat);
        lemma_out_same(
            before.nodes,
            spray_round::copies_expired(s, late, k).nodes,
            o,
            q,
        );
    }
}

proof fn lemma_budget_expired(s: SprayState, round: u64, max_age: u64, k: nat, o: u32, q: u64)
    requires
        k <= s.nodes.len(),
    ensures
        copies_out(spray_round::nodes_expired(s, round, max_age, k).nodes, o, q) <= copies_out(
            s.nodes,
            o,
            q,
        ),
    decreases k,
{
    if k > 0 {
        lemma_budget_expired(s, round, max_age, (k - 1) as nat, o, q);
        lemma_expired_keep_seqs(s, round, max_age, (k - 1) as nat);
        let before = spray_round::nodes_expired(s, round, max_age, (k - 1) as nat);
        let held = before.nodes[k - 1].held;
        let late = spray_round::late_copies(held, held.len(), round, max_age);
        let kept = EpiModel {
            held: spray_round::live_copies(held, held.len(), round, max_age),
            ..before.nodes[k - 1]
        };
        let start = SprayState { nodes: before.nodes.update(k - 1, kept), ..before };
        lemma_copies_live(held, held.len(), round, max_age, o, q);
        assert(held.take(held.len() as int) =~= held);
        lemma_out_update(before.nodes, k - 1, kept, o, q);
        lemma_budget_expiry(start, late, late.len(), o, q);
    }
}

proof fn lemma_budget_landed(s: SprayState, i: int, round: u64, k: nat, o: u32, q: u64)
    requires
        0 <= i < s.nodes.len(),
        k <= s.nodes[i].held.len(),
    ensures
        copies_out(spray_round::copies_landed(s, i, round, k).nodes, o, q) <= copies_out(
            s.nodes,
            o,
            q,
        ),
        spray_round::copies_landed(s, i, round, k).nodes.len() == s.nodes.len(),
        spray_round::copies_landed(s, i, round, k).nodes[i].held.len() == s.nodes[i].held.len() - k,
    decreases k,
{
    if k > 0 {
        lemma_budget_landed(s, i, round, (k - 1) as nat, o, q);
        let before = spray_round::copies_landed(s, i, round, (k - 1) as nat);
        let held = before.nodes[i].held;
        let less = EpiModel { held: held.subrange(1, held.len() as int), ..before.nodes[i] };
        lemma_copies_pop(held, o, q);
        lemma_out_update(before.nodes, i, less, o, q);
        lemma_out_same(
            before.nodes.update(i, less),
            spray_round::copies_landed(s, i, round, k).nodes,
            o,
            q,
        );
    }
}

proof fn lemma_budget_delivered(
    s: SprayState,
    fleet: Seq<Balloon>,
    topo: Topology,
    params: EpidemicParams,
    up: Seq<bool>,
    round: u64,
    k: nat,
    o: u32,
    q: u64,
)
    requires
        k <= s.nodes.len(),
    ensures
        copies_out(
            spray_round::deliveries(s, fleet, topo, params, up, round, k).nodes,
            o,
            q,
        ) <= copies_out(s.nodes, o, q),
    decreases k,
{
    if k > 0 {
        lemma_budget_delivered(s, fleet, topo, params, up, round, (k - 1) as nat, o, q);
        lemma_deliveries_keep_seqs(s, fleet, topo, params, up, round, (k - 1) as nat);
        let before = spray_round::deliveries(s, fleet, topo, params, up, round, (k - 1) as nat);
        let n = spray_round::contact_size(before.nodes[k - 1], params);
        match topo.tower_of(k - 1) {
            Some(tower_id) => {
                if up[k - 1] {
                    let announced = spray_round::contact_announced(
                        before,
                        fleet,
                        params,
                        tower_id,
                        k - 1,
                    );
                    lemma_budget_landed(announced, k - 1, round, n, o, q);
                }
            },
            None => {},
        }
    }
}

/// The place found by `spray_place` is in range, and may be handed out.
pub(crate) proof fn lemma_spray_place(held: Seq<Copy_>, k: int)
    requires
        0 <= k,
    ensures
        spray_round::spray_place(held, k) matches Some(p) ==> k <= p < held.len()
            && held[p].copies > 1,
    decreases held.len() - k,
{
    if k < held.len() && held[k].copies <= 1 {
        lemma_spray_place(held, k + 1);
    }
}

pub(crate) proof fn lemma_copy_place(held: Seq<Copy_>, k: int, o: u32, q: u64)
    requires
        0 <= k,
    ensures
        spray_round::copy_place(held, k, o, q) matches Some(p) ==> k <= p < held.len()
            && held[p].origin_id == o && held[p].seq == q,
    decreases held.len() - k,
{
    if k < held.len() {
        lemma_copy_place(held, k + 1, o, q);
    }
}

proof fn lemma_flying_push(sprays: Seq<Spray>, h: Spray, k: int, o: u32, q: u64)
    requires
        0 <= k <= sprays.len(),
    ensures
        copies_flying(sprays.push(h), k, o, q) == copies_flying(sprays, k, o, q) + weight(
            h.copy,
            o,
            q,
        ),
    decreases sprays.len() - k,
{
    if k < sprays.len() {
        lemma_flying_push(sprays, h, k + 1, o, q);
    } else {
        assert(copies_flying(sprays.push(h), k + 1, o, q) == 0);
    }
}

proof fn lemma_budget_sprayed(
    g: SprayGather,
    topo: Topology,
    up: Seq<bool>,
    picks: Seq<u64>,
    k: nat,
    o: u32,
    q: u64,
)
    requires
        k <= g.s.nodes.len(),
        g.sprays.len() == 0,
    ensures
        ({
            let after = spray_round::all_sprayed(g, topo, up, picks, k);
            copies_out(after.s.nodes, o, q) + copies_flying(after.sprays, 0, o, q) == copies_out(
                g.s.nodes,
                o,
                q,
            )
        }),
    decreases k,
{
    if k > 0 {
        lemma_budget_sprayed(g, topo, up, picks, (k - 1) as nat, o, q);
        lemma_sprays_keep_seqs(g, topo, up, picks, (k - 1) as nat, k as int);
        let before = spray_round::all_sprayed(g, topo, up, picks, (k - 1) as nat);
        let held = before.s.nodes[k - 1].held;
        lemma_spray_place(held, 0);
        let after = spray_round::sprayed(before, topo, up, picks, k - 1);
        if after.sprays != before.sprays {
            let p = spray_round::spray_place(held, 0)->Some_0;
            let c = held[p];
            let give = c.copies / 2;
            let kept = Copy_ { copies: (c.copies - give) as u32, ..c };
            let node = EpiModel { held: held.update(p, kept), ..before.s.nodes[k - 1] };
            lemma_copies_update(held, p, kept, o, q);
            lemma_out_update(before.s.nodes, k - 1, node, o, q);
            lemma_flying_push(before.sprays, after.sprays.last(), 0, o, q);
            assert(after.sprays == before.sprays.push(after.sprays.last()));
            assert(after.s.nodes == before.s.nodes.update(k - 1, node));
        } else {
            assert(after.s.nodes == before.s.nodes) by {
                if spray_round::spray_place(held, 0) is Some && up[k - 1] && topo.tower_of(k - 1)
                    is None && topo.neighbors_of(k - 1).len() > 0 {
                    let c = held[spray_round::spray_place(held, 0)->Some_0];
                    let list = topo.neighbors_of(k - 1);
                    let able = spray_round::candidates(
                        before.s.nodes,
                        list,
                        list.len(),
                        c.origin_id,
                        c.seq,
                    );
                    if able.len() > 0 {
                        assert(after.sprays.len() == before.sprays.len() + 1);
                    }
                }
            }
        }
    }
}

proof fn lemma_budget_handed(
    s: SprayState,
    fleet: Seq<Balloon>,
    params: EpidemicParams,
    sprays: Seq<Spray>,
    k: nat,
    o: u32,
    q: u64,
)
    requires
        k <= sprays.len(),
        sent_by(sprays, s.nodes.len() as int),
    ensures
        copies_out(spray_round::all_handed(s, fleet, params, sprays, k).nodes, o, q)
            + copies_flying(sprays, k as int, o, q) <= copies_out(s.nodes, o, q) + copies_flying(
            sprays,
            0,
            o,
            q,
        ),
    decreases k,
{
    if k > 0 {
        lemma_budget_handed(s, fleet, params, sprays, (k - 1) as nat, o, q);
        lemma_handing_keeps_seqs(s, fleet, params, sprays, (k - 1) as nat);
        let before = spray_round::all_handed(s, fleet, params, sprays, (k - 1) as nat);
        let h = sprays[k - 1];
        assert(0 <= h.from < s.nodes.len());
        if h.to < before.nodes.len() && before.nodes[h.to as int].held.len()
            < params.relay_queue_capacity {
            let held = before.nodes[h.to as int].held;
            lemma_copies_push(held, h.copy, o, q);
            lemma_out_update(
                before.nodes,
                h.to as int,
                EpiModel { held: held.push(h.copy), ..before.nodes[h.to as int] },
                o,
                q,
            );
        } else {
            let held = before.nodes[h.from].held;
            lemma_copy_place(held, 0, h.copy.origin_id, h.copy.seq);
            match spray_round::copy_place(held, 0, h.copy.origin_id, h.copy.seq) {
                Some(p) => {
                    let back = Copy_ {
                        copies: spray_round::capped(held[p].copies, h.copy.copies),
                        ..held[p]
                    };
                    lemma_copies_update(held, p, back, o, q);
                    lemma_out_update(
                        before.nodes,
                        h.from,
                        EpiModel { held: held.update(p, back), ..before.nodes[h.from] },
                        o,
                        q,
                    );
                },
                None => {},
            }
        }
    }
}

/// Whether no two balloons share an id.
pub open spec fn distinct_ids(fleet: Seq<Balloon>) -> bool {
    forall|i: int, j: int|
        0 <= i < j < fleet.len() ==> (#[trigger] fleet[i]).id != (#[trigger] fleet[j]).id
}

/// Whether no two nodes originate the same record next: balloons that share an
/// id are at different sequence numbers.
pub open spec fn told_apart(nodes: Seq<EpiModel>, fleet: Seq<Balloon>) -> bool {
    forall|i: int, j: int|
        0 <= i < j < fleet.len() && j < nodes.len() && (#[trigger] fleet[i]).id == (
        #[trigger] fleet[j]).id ==> nodes[i].bundle_seq != nodes[j].bundle_seq
}

/// Whether no copies are about of records that a node is still to originate.
pub open spec fn numbered(nodes: Seq<EpiModel>, fleet: Seq<Balloon>) -> bool {
    forall|i: int, q: u64|
        0 <= i < nodes.len() && i < fleet.len() && q >= nodes[i].bundle_seq ==> #[trigger]
        copies_out(nodes, fleet[i].id, q) == 0
}

/// Whether no copies are about of the record that a node originates next.
pub open spec fn unclaimed(nodes: Seq<EpiModel>, fleet: Seq<Balloon>) -> bool {
    forall|i: int|
        0 <= i < nodes.len() && i < fleet.len() ==> copies_out(
            nodes,
            (#[trigger] fleet[i]).id,
            nodes[i].bundle_seq,
        ) == 0
}

proof fn lemma_unclaimed(nodes: Seq<EpiModel>, fleet: Seq<Balloon>)
    requires
        numbered(nodes, fleet),
    ensures
        unclaimed(nodes, fleet),
{
    assert forall|i: int| 0 <= i < nodes.len() && i < fleet.len() implies copies_out(
        nodes,
        (#[trigger] fleet[i]).id,
        nodes[i].bundle_seq,
    ) == 0 by {
        assert(copies_out(nodes, fleet[i].id, nodes[i].bundle_seq) == 0);
    }
}

/// Whether one of the first `k` nodes has just originated this record.
pub open spec fn just_made(
    before: Seq<EpiModel>,
    after: Seq<EpiModel>,
    fleet: Seq<Balloon>,
    k: int,
    o: u32,
    q: u64,
) -> bool {
    exists|i: int|
        0 <= i < k && (#[trigger] fleet[i]).id == o && before[i].bundle_seq == q
            && after[i].bundle_seq > q
}

proof fn lemma_budget_originated(
    s: SprayState,
    fleet: Seq<Balloon>,
    params: EpidemicParams,
    up: Seq<bool>,
    round: u64,
    k: nat,
    o: u32,
    q: u64,
)
    requires
        k <= s.nodes.len(),
        k <= fleet.len(),
        told_apart(s.nodes, fleet),
        unclaimed(s.nodes, fleet),
        forall|j: int| 0 <= j < s.nodes.len() ==> (#[trigger] s.nodes[j]).bundle_seq < u64::MAX,
    ensures
        ({
            let after = spray_round::originations(s, fleet, params, up, round, k);
            &&& after.nodes.len() == s.nodes.len()
            &&& forall|j: int| k <= j < s.nodes.len() ==> #[trigger] after.nodes[j] == s.nodes[j]
            &&& forall|j: int|
                0 <= j < s.nodes.len() ==> s.nodes[j].bundle_seq <= (
                #[trigger] after.nodes[j]).bundle_seq
            &&& copies_out(after.nodes, o, q) == if just_made(
                s.nodes,
                after.nodes,
                fleet,
                k as int,
                o,
                q,
            ) {
                params.copies as nat
            } else {
                copies_out(s.nodes, o, q)
            }
        }),
    decreases k,
{
    if k > 0 {
        lemma_budget_originated(s, fleet, params, up, round, (k - 1) as nat, o, q);
        let before = spray_round::originations(s, fleet, params, up, round, (k - 1) as nat);
        let after = spray_round::originations(s, fleet, params, up, round, k);
        let i = k - 1;
        assert(before.nodes[i] == s.nodes[i]);
        if up[i] && spray_round::may_originate(before.nodes[i], fleet[i].id, params, round) {
            let node = spray_round::originating(before.nodes[i], fleet[i], params, round);
            let held = before.nodes[i].held;
            let c = node.held.last();
            assert(node.held == held.push(c));
            lemma_copies_push(held, c, o, q);
            lemma_out_update(before.nodes, i, node, o, q);
            assert(after.nodes == before.nodes.update(i, node));
            if fleet[i].id == o && s.nodes[i].bundle_seq == q {
                assert(copies_out(s.nodes, fleet[i].id, q) == 0);
                if just_made(s.nodes, before.nodes, fleet, k - 1, o, q) {
                    let other = choose|x: int|
                        0 <= x < k - 1 && (#[trigger] fleet[x]).id == o
                            && s.nodes[x].bundle_seq == q && before.nodes[x].bundle_seq > q;
                    assert(fleet[other].id == fleet[i].id);
                }
                assert(copies_out(after.nodes, o, q) == params.copies);
                assert(fleet[i].id == o && after.nodes[i].bundle_seq > q);
            } else {
                assert(copies_out(after.nodes, o, q) == copies_out(before.nodes, o, q));
            }
        }
        if just_made(s.nodes, before.nodes, fleet, k - 1, o, q) {
            let x = choose|x: int|
                0 <= x < k - 1 && (#[trigger] fleet[x]).id == o && s.nodes[x].bundle_seq == q
                    && before.nodes[x].bundle_seq > q;
            assert(after.nodes[x] == before.nodes[x]);
            assert(fleet[x].id == o && after.nodes[x].bundle_seq > q);
        } else if just_made(s.nodes, after.nodes, fleet, k as int, o, q) {
            let x = choose|x: int|
                0 <= x < k && (#[trigger] fleet[x]).id == o && s.nodes[x].bundle_seq == q
                    && after.nodes[x].bundle_seq > q;
            if x < k - 1 {
                assert(after.nodes[x] == before.nodes[x]);
                assert(fleet[x].id == o && before.nodes[x].bundle_seq > q);
            }
        }
    }
}

/// The copy budget is conserved: a round leaves no more copies of a record
/// about than its budget allows. Copies are halved between two holders, handed
/// back where the receiver is full, and made anew only for a new record.
pub proof fn the_copy_budget_is_conserved(
    s: SprayState,
    fleet: Seq<Balloon>,
    topo: Topology,
    params: EpidemicParams,
    round: u64,
    draws: Seq<u64>,
    picks: Seq<u64>,
    origin_id: u32,
    seq: u64,
)
    requires
        distinct_ids(fleet),
        numbered(s.nodes, fleet),
        spray_round::round_fits(s, params, round),
        copies_out(s.nodes, origin_id, seq) <= params.copies,
    ensures
        ({
            let after = spray_round::spray_round(s, fleet, topo, params, round, draws, picks);
            &&& copies_out(after.nodes, origin_id, seq) <= params.copies
            &&& numbered(after.nodes, fleet)
        }),
{
    let m = spray_round::taking_part(s.nodes, fleet);
    let up = spray_round::spray_awake(s, fleet, params, round);
    let delivered = spray_round::spray_delivered(s, fleet, topo, params, round, draws);
    let g = spray_round::all_sprayed(
        SprayGather { s: delivered, sprays: Seq::empty() },
        topo,
        up,
        picks,
        m,
    );
    let handed = spray_round::all_handed(g.s, fleet, params, g.sprays, g.sprays.len());
    lemma_before_origination(s, fleet, topo, params, round, draws, picks);
    assert forall|i: int, q: u64|
        0 <= i < handed.nodes.len() && i < fleet.len() && q
            >= handed.nodes[i].bundle_seq implies #[trigger] copies_out(
        handed.nodes,
        fleet[i].id,
        q,
    ) == 0 by {
        lemma_budget_before(s, fleet, topo, params, round, draws, picks, fleet[i].id, q);
        assert(copies_out(s.nodes, fleet[i].id, q) == 0);
    }
    lemma_unclaimed(handed.nodes, fleet);
    lemma_budget_before(s, fleet, topo, params, round, draws, picks, origin_id, seq);
    lemma_budget_originated(handed, fleet, params, up, round, m, origin_id, seq);
    let after = spray_round::spray_round(s, fleet, topo, params, round, draws, picks);
    assert forall|i: int, q: u64|
        0 <= i < after.nodes.len() && i < fleet.len() && q
            >= after.nodes[i].bundle_seq implies #[trigger] copies_out(
        after.nodes,
        fleet[i].id,
        q,
    ) == 0 by {
        let o = fleet[i].id;
        lemma_budget_originated(handed, fleet, params, up, round, m, o, q);
        assert(handed.nodes[i].bundle_seq <= after.nodes[i].bundle_seq);
        assert(copies_out(handed.nodes, fleet[i].id, q) == 0);
        if just_made(handed.nodes, after.nodes, fleet, m as int, o, q) {
            let x = choose|x: int|
                0 <= x < m && (#[trigger] fleet[x]).id == o && handed.nodes[x].bundle_seq == q
                    && after.nodes[x].bundle_seq > q;
            if x < i {
                assert(fleet[x].id != fleet[i].id);
            } else if i < x {
                assert(fleet[i].id != fleet[x].id);
            }
        }
    }
}

/// Whether every copy held stands for at least one.
pub open spec fn all_alive(nodes: Seq<EpiModel>) -> bool {
    forall|i: int, j: int|
        0 <= i < nodes.len() && 0 <= j < nodes[i].held.len() ==> (
        #[trigger] nodes[i].held[j]).copies >= 1
}

/// Whether every copy under way does.
spec fn all_flying_alive(sprays: Seq<Spray>) -> bool {
    forall|j: int| 0 <= j < sprays.len() ==> (#[trigger] sprays[j]).copy.copies >= 1
}

proof fn lemma_alive_update(nodes: Seq<EpiModel>, i: int, held: Seq<Copy_>)
    requires
        0 <= i < nodes.len(),
        all_alive(nodes),
        forall|j: int| 0 <= j < held.len() ==> (#[trigger] held[j]).copies >= 1,
    ensures
        all_alive(nodes.update(i, EpiModel { held, ..nodes[i] })),
{
    let after = nodes.update(i, EpiModel { held, ..nodes[i] });
    assert forall|x: int, j: int| 0 <= x < after.len() && 0 <= j < after[x].held.len() implies (
    #[trigger] after[x].held[j]).copies >= 1 by {
        if x == i {
            assert(held[j].copies >= 1);
        } else {
            assert(nodes[x].held[j].copies >= 1);
        }
    }
}

proof fn lemma_alive_same(a: Seq<EpiModel>, b: Seq<EpiModel>)
    requires
        all_alive(a),
        a.len() == b.len(),
        forall|j: int| 0 <= j < a.len() ==> (#[trigger] b[j]).held == a[j].held,
    ensures
        all_alive(b),
{
    assert forall|x: int, j: int| 0 <= x < b.len() && 0 <= j < b[x].held.len() implies (
    #[trigger] b[x].held[j]).copies >= 1 by {
        assert(a[x].held[j].copies >= 1);
    }
}

proof fn lemma_expiry_holds(s: SprayState, late: Seq<Copy_>, k: nat)
    ensures
        spray_round::copies_expired(s, late, k).nodes.len() == s.nodes.len(),
        forall|j: int|
            0 <= j < s.nodes.len() ==> (#[trigger] spray_round::copies_expired(
                s,
                late,
                k,
            ).nodes[j]).held == s.nodes[j].held,
    decreases k,
{
    if k > 0 {
        lemma_expiry_holds(s, late, (k - 1) as nat);
    }
}

proof fn lemma_live_alive(held: Seq<Copy_>, k: nat, round: u64, max_age: u64)
    requires
        k <= held.len(),
        forall|j: int| 0 <= j < held.len() ==> (#[trigger] held[j]).copies >= 1,
    ensures
        forall|j: int|
            0 <= j < spray_round::live_copies(held, k, round, max_age).len() ==> (
            #[trigger] spray_round::live_copies(held, k, round, max_age)[j]).copies >= 1,
    decreases k,
{
    if k > 0 {
        lemma_live_alive(held, (k - 1) as nat, round, max_age);
        assert(held[k - 1].copies >= 1);
    }
}

proof fn lemma_alive_expired(s: SprayState, round: u64, max_age: u64, k: nat)
    requires
        k <= s.nodes.len(),
        all_alive(s.nodes),
    ensures
        all_alive(spray_round::nodes_expired(s, round, max_age, k).nodes),
        spray_round::nodes_expired(s, round, max_age, k).nodes.len() == s.nodes.len(),
    decreases k,
{
    if k > 0 {
        lemma_alive_expired(s, round, max_age, (k - 1) as nat);
        let a = spray_round::nodes_expired(s, round, max_age, (k - 1) as nat);
        let held = a.nodes[k - 1].held;
        let live = spray_round::live_copies(held, held.len(), round, max_age);
        let late = spray_round::late_copies(held, held.len(), round, max_age);
        assert forall|j: int| 0 <= j < held.len() implies (#[trigger] held[j]).copies >= 1 by {
            assert(a.nodes[k - 1].held[j].copies >= 1);
        }
        lemma_live_alive(held, held.len(), round, max_age);
        lemma_alive_update(a.nodes, k - 1, live);
        let c = SprayState {
            nodes: a.nodes.update(k - 1, EpiModel { held: live, ..a.nodes[k - 1] }),
            ..a
        };
        lemma_expiry_holds(c, late, late.len());
        lemma_alive_same(c.nodes, spray_round::nodes_expired(s, round, max_age, k).nodes);
    }
}

proof fn lemma_alive_landed(s: SprayState, i: int, round: u64, k: nat)
    requires
        0 <= i < s.nodes.len(),
        k <= s.nodes[i].held.len(),
        all_alive(s.nodes),
    ensures
        all_alive(spray_round::copies_landed(s, i, round, k).nodes),
        spray_round::copies_landed(s, i, round, k).nodes.len() == s.nodes.len(),
        spray_round::copies_landed(s, i, round, k).nodes[i].held.len() == s.nodes[i].held.len() - k,
    decreases k,
{
    if k > 0 {
        lemma_alive_landed(s, i, round, (k - 1) as nat);
        let a = spray_round::copies_landed(s, i, round, (k - 1) as nat);
        let held = a.nodes[i].held;
        let rest = held.subrange(1, held.len() as int);
        assert forall|j: int| 0 <= j < rest.len() implies (#[trigger] rest[j]).copies >= 1 by {
            assert(a.nodes[i].held[j + 1].copies >= 1);
        }
        lemma_alive_update(a.nodes, i, rest);
        lemma_alive_same(
            a.nodes.update(i, EpiModel { held: rest, ..a.nodes[i] }),
            spray_round::copies_landed(s, i, round, k).nodes,
        );
    }
}

proof fn lemma_alive_delivered(
    s: SprayState,
    fleet: Seq<Balloon>,
    topo: Topology,
    params: EpidemicParams,
    up: Seq<bool>,
    round: u64,
    k: nat,
)
    requires
        k <= s.nodes.len(),
        all_alive(s.nodes),
    ensures
        all_alive(spray_round::deliveries(s, fleet, topo, params, up, round, k).nodes),
        spray_round::deliveries(s, fleet, topo, params, up, round, k).nodes.len()
            == s.nodes.len(),
    decreases k,
{
    if k > 0 {
        lemma_alive_delivered(s, fleet, topo, params, up, round, (k - 1) as nat);
        let a = spray_round::deliveries(s, fleet, topo, params, up, round, (k - 1) as nat);
        let n = spray_round::contact_size(a.nodes[k - 1], params);
        match topo.tower_of(k - 1) {
            Some(tower_id) => {
                let announced = spray_round::contact_announced(a, fleet, params, tower_id, k - 1);
                lemma_alive_landed(announced, k - 1, round, n);
            },
            None => {},
        }
    }
}

proof fn lemma_alive_sprayed(
    g: SprayGather,
    topo: Topology,
    up: Seq<bool>,
    picks: Seq<u64>,
    k: nat,
)
    requires
        k <= g.s.nodes.len(),
        all_alive(g.s.nodes),
        all_flying_alive(g.sprays),
    ensures
        all_alive(spray_round::all_sprayed(g, topo, up, picks, k).s.nodes),
        all_flying_alive(spray_round::all_sprayed(g, topo, up, picks, k).sprays),
        spray_round::all_sprayed(g, topo, up, picks, k).s.nodes.len() == g.s.nodes.len(),
    decreases k,
{
    if k > 0 {
        lemma_alive_sprayed(g, topo, up, picks, (k - 1) as nat);
        let a = spray_round::all_sprayed(g, topo, up, picks, (k - 1) as nat);
        let b = spray_round::all_sprayed(g, topo, up, picks, k);
        let held = a.s.nodes[k - 1].held;
        lemma_spray_place(held, 0);
        if b.sprays.len() > a.sprays.len() {
            let p = spray_round::spray_place(held, 0)->Some_0;
            let c = held[p];
            let left = held.update(p, Copy_ { copies: (c.copies - c.copies / 2) as u32, ..c });
            assert forall|j: int| 0 <= j < left.len() implies (#[trigger] left[j]).copies >= 1 by {
                assert(a.s.nodes[k - 1].held[j].copies >= 1);
            }
            lemma_alive_update(a.s.nodes, k - 1, left);
            assert(b.s.nodes == a.s.nodes.update(
                k - 1,
                EpiModel { held: left, ..a.s.nodes[k - 1] },
            ));
        } else {
            assert(b.s.nodes == a.s.nodes && b.sprays == a.sprays);
        }
    }
}

proof fn lemma_alive_handed(
    s: SprayState,
    fleet: Seq<Balloon>,
    params: EpidemicParams,
    sprays: Seq<Spray>,
    k: nat,
)
    requires
        k <= sprays.len(),
        sent_by(sprays, s.nodes.len() as int),
        all_alive(s.nodes),
        all_flying_alive(sprays),
    ensures
        all_alive(spray_round::all_handed(s, fleet, params, sprays, k).nodes),
        spray_round::all_handed(s, fleet, params, sprays, k).nodes.len() == s.nodes.len(),
    decreases k,
{
    if k > 0 {
        lemma_alive_handed(s, fleet, params, sprays, (k - 1) as nat);
        let a = spray_round::all_handed(s, fleet, params, sprays, (k - 1) as nat);
        let h = sprays[k - 1];
        assert(0 <= h.from < s.nodes.len() && h.copy.copies >= 1);
        if h.to < a.nodes.len() && a.nodes[h.to as int].held.len() < params.relay_queue_capacity {
            let held = a.nodes[h.to as int].held.push(h.copy);
            assert forall|j: int| 0 <= j < held.len() implies (#[trigger] held[j]).copies >= 1 by {
                if j < held.len() - 1 {
                    assert(a.nodes[h.to as int].held[j].copies >= 1);
                }
            }
            lemma_alive_update(a.nodes, h.to as int, held);
        } else {
            let was = a.nodes[h.from].held;
            lemma_copy_place(was, 0, h.copy.origin_id, h.copy.seq);
            match spray_round::copy_place(was, 0, h.copy.origin_id, h.copy.seq) {
                Some(p) => {
                    let held = was.update(
                        p,
                        Copy_ {
                            copies: spray_round::capped(was[p].copies, h.copy.copies),
                            ..was[p]
                        },
                    );
                    assert forall|j: int| 0 <= j < held.len() implies (
                    #[trigger] held[j]).copies >= 1 by {
                        assert(a.nodes[h.from].held[j].copies >= 1);
                    }
                    lemma_alive_update(a.nodes, h.from, held);
                },
                None => {},
            }
        }
    }
}

proof fn lemma_alive_originated(
    s: SprayState,
    fleet: Seq<Balloon>,
    params: EpidemicParams,
    up: Seq<bool>,
    round: u64,
    k: nat,
)
    requires
        k <= s.nodes.len(),
        all_alive(s.nodes),
        params.copies >= 1,
    ensures
        all_alive(spray_round::originations(s, fleet, params, up, round, k).nodes),
        spray_round::originations(s, fleet, params, up, round, k).nodes.len() == s.nodes.len(),
    decreases k,
{
    if k > 0 {
        lemma_alive_originated(s, fleet, params, up, round, (k - 1) as nat);
        let a = spray_round::originations(s, fleet, params, up, round, (k - 1) as nat);
        let b = spray_round::originations(s, fleet, params, up, round, k);
        let i = k - 1;
        if up[i] && spray_round::may_originate(a.nodes[i], fleet[i].id, params, round) {
            assert forall|x: int, j: int|
                0 <= x < b.nodes.len() && 0 <= j < b.nodes[x].held.len() implies (
            #[trigger] b.nodes[x].held[j]).copies >= 1 by {
                if x != i || j < a.nodes[i].held.len() {
                    assert(b.nodes[x].held[j] == a.nodes[x].held[j]);
                    assert(a.nodes[x].held[j].copies >= 1);
                }
            }
        }
    }
}

/// Copies only dwindle: a round leaves no more copies of a record about than
/// there were, but for a record that it originates, which begins with its whole
/// budget. A copy that is held always stands for at least one. Two balloons
/// that originate the same record in one round would each bring a budget, so no
/// two are about to.
pub proof fn copies_only_dwindle(
    s: SprayState,
    fleet: Seq<Balloon>,
    topo: Topology,
    params: EpidemicParams,
    round: u64,
    draws: Seq<u64>,
    picks: Seq<u64>,
    origin_id: u32,
    seq: u64,
)
    requires
        told_apart(s.nodes, fleet),
        unclaimed(s.nodes, fleet),
        spray_round::round_fits(s, params, round),
        params.copies >= 1,
        all_alive(s.nodes),
    ensures
        ({
            let after = spray_round::spray_round(s, fleet, topo, params, round, draws, picks);
            let m = spray_round::taking_part(s.nodes, fleet) as int;
            &&& if just_made(s.nodes, after.nodes, fleet, m, origin_id, seq) {
                copies_out(after.nodes, origin_id, seq) == params.copies
            } else {
                copies_out(after.nodes, origin_id, seq) <= copies_out(s.nodes, origin_id, seq)
            }
            &&& all_alive(after.nodes)
        }),
{
    let m = spray_round::taking_part(s.nodes, fleet);
    let up = spray_round::spray_awake(s, fleet, params, round);
    let opened = spray_round::nodes_expired(s, round, params.bundle_max_age_rounds, m);
    let woken = spray_round::woken(opened, params, round, draws, m);
    let delivered = spray_round::spray_delivered(s, fleet, topo, params, round, draws);
    let g0 = SprayGather { s: delivered, sprays: Seq::empty() };
    let g = spray_round::all_sprayed(g0, topo, up, picks, m);
    let handed = spray_round::all_handed(g.s, fleet, params, g.sprays, g.sprays.len());
    lemma_before_origination(s, fleet, topo, params, round, draws, picks);
    assert forall|j: int| 0 <= j < s.nodes.len() implies (#[trigger] handed.nodes[j]).bundle_seq
        == s.nodes[j].bundle_seq by {
        assert(g.s.nodes[j].bundle_seq == delivered.nodes[j].bundle_seq);
        assert(delivered.nodes[j].bundle_seq == s.nodes[j].bundle_seq);
    }
    assert forall|i: int| 0 <= i < handed.nodes.len() && i < fleet.len() implies copies_out(
        handed.nodes,
        (#[trigger] fleet[i]).id,
        handed.nodes[i].bundle_seq,
    ) == 0 by {
        assert(handed.nodes[i].bundle_seq == s.nodes[i].bundle_seq);
        lemma_budget_before(
            s,
            fleet,
            topo,
            params,
            round,
            draws,
            picks,
            fleet[i].id,
            s.nodes[i].bundle_seq,
        );
    }
    assert forall|j: int| 0 <= j < handed.nodes.len() implies (
    #[trigger] handed.nodes[j]).bundle_seq < u64::MAX by {
        assert(s.nodes[j].bundle_seq < u64::MAX);
    }
    lemma_budget_before(s, fleet, topo, params, round, draws, picks, origin_id, seq);
    lemma_budget_originated(handed, fleet, params, up, round, m, origin_id, seq);
    let after = spray_round::spray_round(s, fleet, topo, params, round, draws, picks);
    assert(just_made(s.nodes, after.nodes, fleet, m as int, origin_id, seq) == just_made(
        handed.nodes,
        after.nodes,
        fleet,
        m as int,
        origin_id,
        seq,
    )) by {
        if just_made(s.nodes, after.nodes, fleet, m as int, origin_id, seq) {
            let x = choose|x: int|
                0 <= x < m && (#[trigger] fleet[x]).id == origin_id && s.nodes[x].bundle_seq
                    == seq && after.nodes[x].bundle_seq > seq;
            assert(handed.nodes[x].bundle_seq == seq);
        }
        if just_made(handed.nodes, after.nodes, fleet, m as int, origin_id, seq) {
            let x = choose|x: int|
                0 <= x < m && (#[trigger] fleet[x]).id == origin_id && handed.nodes[x].bundle_seq
                    == seq && after.nodes[x].bundle_seq > seq;
            assert(s.nodes[x].bundle_seq == seq);
        }
    }
    lemma_alive_expired(s, round, params.bundle_max_age_rounds, m);
    lemma_alive_same(opened.nodes, woken.nodes);
    lemma_alive_delivered(woken, fleet, topo, params, up, round, m);
    lemma_alive_sprayed(g0, topo, up, picks, m);
    lemma_alive_handed(g.s, fleet, params, g.sprays, g.sprays.len());
    lemma_alive_originated(handed, fleet, params, up, round, m);
}

/// Up to the new records a round leaves the sequence numbers alone.
proof fn lemma_before_origination(
    s: SprayState,
    fleet: Seq<Balloon>,
    topo: Topology,
    params: EpidemicParams,
    round: u64,
    draws: Seq<u64>,
    picks: Seq<u64>,
)
    ensures
        ({
            let m = spray_round::taking_part(s.nodes, fleet);
            let up = spray_round::spray_awake(s, fleet, params, round);
            let delivered = spray_round::spray_delivered(s, fleet, topo, params, round, draws);
            let g = spray_round::all_sprayed(
                SprayGather { s: delivered, sprays: Seq::empty() },
                topo,
                up,
                picks,
                m,
            );
            let opened = spray_round::nodes_expired(s, round, params.bundle_max_age_rounds, m);
            let woken = spray_round::woken(opened, params, round, draws, m);
            &&& same_seqs(s.nodes, delivered.nodes)
            &&& same_origins(s.nodes, opened.nodes)
            &&& same_origins(woken.nodes, delivered.nodes)
            &&& same_origins(delivered.nodes, g.s.nodes)
            &&& sent_by(g.sprays, m as int)
            &&& same_origins(
                g.s.nodes,
                spray_round::all_handed(g.s, fleet, params, g.sprays, g.sprays.len()).nodes,
            )
        }),
{
    let m = spray_round::taking_part(s.nodes, fleet);
    let up = spray_round::spray_awake(s, fleet, params, round);
    let opened = spray_round::nodes_expired(s, round, params.bundle_max_age_rounds, m);
    let woken = spray_round::woken(opened, params, round, draws, m);
    let delivered = spray_round::spray_delivered(s, fleet, topo, params, round, draws);
    let g0 = SprayGather { s: delivered, sprays: Seq::empty() };
    let g = spray_round::all_sprayed(g0, topo, up, picks, m);
    lemma_expired_keep_seqs(s, round, params.bundle_max_age_rounds, m);
    lemma_deliveries_keep_seqs(woken, fleet, topo, params, up, round, m);
    lemma_sprays_keep_seqs(g0, topo, up, picks, m, m as int);
    lemma_handing_keeps_seqs(g.s, fleet, params, g.sprays, g.sprays.len());
}

/// Up to the new records a round makes no copies.
proof fn lemma_budget_before(
    s: SprayState,
    fleet: Seq<Balloon>,
    topo: Topology,
    params: EpidemicParams,
    round: u64,
    draws: Seq<u64>,
    picks: Seq<u64>,
    o: u32,
    q: u64,
)
    ensures
        ({
            let m = spray_round::taking_part(s.nodes, fleet);
            let up = spray_round::spray_awake(s, fleet, params, round);
            let delivered = spray_round::spray_delivered(s, fleet, topo, params, round, draws);
            let g = spray_round::all_sprayed(
                SprayGather { s: delivered, sprays: Seq::empty() },
                topo,
                up,
                picks,
                m,
            );
            copies_out(
                spray_round::all_handed(g.s, fleet, params, g.sprays, g.sprays.len()).nodes,
                o,
                q,
            ) <= copies_out(s.nodes, o, q)
        }),
{
    let m = spray_round::taking_part(s.nodes, fleet);
    let up = spray_round::spray_awake(s, fleet, params, round);
    let opened = spray_round::nodes_expired(s, round, params.bundle_max_age_rounds, m);
    let woken = spray_round::woken(opened, params, round, draws, m);
    let delivered = spray_round::spray_delivered(s, fleet, topo, params, round, draws);
    let g0 = SprayGather { s: delivered, sprays: Seq::empty() };
    let g = spray_round::all_sprayed(g0, topo, up, picks, m);
    lemma_before_origination(s, fleet, topo, params, round, draws, picks);
    lemma_budget_expired(s, round, params.bundle_max_age_rounds, m, o, q);
    lemma_out_same(opened.nodes, woken.nodes, o, q);
    lemma_budget_delivered(woken, fleet, topo, params, up, round, m, o, q);
    lemma_budget_sprayed(g0, topo, up, picks, m, o, q);
    lemma_budget_handed(g.s, fleet, params, g.sprays, g.sprays.len(), o, q);
}

// ---------------------------------------------------------------------------
// What an origin knows
// ---------------------------------------------------------------------------

/// Whether a node has heard nothing of what became of its record: it waits for
/// it still, or has stopped waiting.
pub open spec fn untold(n: EpiModel) -> bool {
    n.outstanding matches Some(o) ==> o.state != AckState::Acked && o.path is None && o.channel
        is None && o.tower_id is None && o.ack_hops_completed is None
}

proof fn lemma_originations_tell_nobody(
    s: SprayState,
    fleet: Seq<Balloon>,
    params: EpidemicParams,
    up: Seq<bool>,
    round: u64,
    k: nat,
)
    requires
        k <= s.nodes.len(),
        forall|j: int| 0 <= j < s.nodes.len() ==> untold(#[trigger] s.nodes[j]),
    ensures
        ({
            let after = spray_round::originations(s, fleet, params, up, round, k);
            &&& after.nodes.len() == s.nodes.len()
            &&& forall|j: int| 0 <= j < after.nodes.len() ==> untold(#[trigger] after.nodes[j])
        }),
    decreases k,
{
    if k > 0 {
        lemma_originations_tell_nobody(s, fleet, params, up, round, (k - 1) as nat);
    }
}

/// An origin never learns that its record landed: it can only stop waiting.
pub proof fn an_origin_never_learns_its_record_landed(
    s: SprayState,
    fleet: Seq<Balloon>,
    topo: Topology,
    params: EpidemicParams,
    round: u64,
    draws: Seq<u64>,
    picks: Seq<u64>,
)
    requires
        forall|j: int| 0 <= j < s.nodes.len() ==> untold(#[trigger] s.nodes[j]),
    ensures
        ({
            let after = spray_round::spray_round(s, fleet, topo, params, round, draws, picks);
            forall|j: int| 0 <= j < after.nodes.len() ==> untold(#[trigger] after.nodes[j])
        }),
{
    let m = spray_round::taking_part(s.nodes, fleet);
    let up = spray_round::spray_awake(s, fleet, params, round);
    let opened = spray_round::nodes_expired(s, round, params.bundle_max_age_rounds, m);
    let woken = spray_round::woken(opened, params, round, draws, m);
    let delivered = spray_round::spray_delivered(s, fleet, topo, params, round, draws);
    let g0 = SprayGather { s: delivered, sprays: Seq::empty() };
    let g = spray_round::all_sprayed(g0, topo, up, picks, m);
    let handed = spray_round::all_handed(g.s, fleet, params, g.sprays, g.sprays.len());
    lemma_before_origination(s, fleet, topo, params, round, draws, picks);
    assert forall|j: int| 0 <= j < handed.nodes.len() implies untold(
        #[trigger] handed.nodes[j],
    ) by {
        assert(untold(s.nodes[j]));
        assert(opened.nodes[j].outstanding == s.nodes[j].outstanding);
        assert(untold(woken.nodes[j]));
        assert(delivered.nodes[j].outstanding == woken.nodes[j].outstanding);
        assert(g.s.nodes[j].outstanding == delivered.nodes[j].outstanding);
    }
    lemma_originations_tell_nobody(handed, fleet, params, up, round, m);
}

/// Whether an origin still waits for a record that is older than it waits for.
pub open spec fn overdue(n: EpiModel, round: u64, max_age: u64) -> bool {
    n.outstanding matches Some(o) && o.state == AckState::Pending && bundle::rounds_since(
        o.created_at_round,
        round,
    ) > max_age
}

proof fn lemma_originated_or_same(
    s: SprayState,
    fleet: Seq<Balloon>,
    params: EpidemicParams,
    up: Seq<bool>,
    round: u64,
    k: nat,
)
    requires
        k <= s.nodes.len(),
        forall|j: int| 0 <= j < s.nodes.len() ==> (#[trigger] s.nodes[j]).bundle_seq < u64::MAX,
    ensures
        ({
            let after = spray_round::originations(s, fleet, params, up, round, k);
            &&& after.nodes.len() == s.nodes.len()
            &&& forall|j: int|
                0 <= j < s.nodes.len() ==> {
                    ||| #[trigger] after.nodes[j] == s.nodes[j]
                    ||| after.nodes[j].bundle_seq == s.nodes[j].bundle_seq + 1
                }
            &&& forall|j: int| k <= j < s.nodes.len() ==> #[trigger] after.nodes[j] == s.nodes[j]
        }),
    decreases k,
{
    if k > 0 {
        lemma_originated_or_same(s, fleet, params, up, round, (k - 1) as nat);
        let a = spray_round::originations(s, fleet, params, up, round, (k - 1) as nat);
        assert(a.nodes[k - 1] == s.nodes[k - 1]);
    }
}

/// An origin gives up in time: one that waits for a record past the age limit
/// has stopped waiting after the round, whatever became of the record, unless
/// it has just originated another.
pub proof fn an_origin_gives_up_in_time(
    s: SprayState,
    fleet: Seq<Balloon>,
    topo: Topology,
    params: EpidemicParams,
    round: u64,
    draws: Seq<u64>,
    picks: Seq<u64>,
    j: int,
)
    requires
        spray_round::round_fits(s, params, round),
        0 <= j < s.nodes.len(),
        j < fleet.len(),
        overdue(s.nodes[j], round, params.bundle_max_age_rounds),
    ensures
        ({
            let after = spray_round::spray_round(
                s,
                fleet,
                topo,
                params,
                round,
                draws,
                picks,
            ).nodes[j];
            ||| after.bundle_seq == s.nodes[j].bundle_seq + 1
            ||| after.bundle_seq == s.nodes[j].bundle_seq && after.outstanding == Some(
                OutstandingModel {
                    state: AckState::TimedOut,
                    ..s.nodes[j].outstanding->Some_0
                },
            )
        }),
{
    let m = spray_round::taking_part(s.nodes, fleet);
    let up = spray_round::spray_awake(s, fleet, params, round);
    let opened = spray_round::nodes_expired(s, round, params.bundle_max_age_rounds, m);
    let woken = spray_round::woken(opened, params, round, draws, m);
    let delivered = spray_round::spray_delivered(s, fleet, topo, params, round, draws);
    let g0 = SprayGather { s: delivered, sprays: Seq::empty() };
    let g = spray_round::all_sprayed(g0, topo, up, picks, m);
    let handed = spray_round::all_handed(g.s, fleet, params, g.sprays, g.sprays.len());
    lemma_before_origination(s, fleet, topo, params, round, draws, picks);
    assert forall|x: int| 0 <= x < handed.nodes.len() implies (
    #[trigger] handed.nodes[x]).bundle_seq == s.nodes[x].bundle_seq by {
        assert(g.s.nodes[x].bundle_seq == delivered.nodes[x].bundle_seq);
        assert(delivered.nodes[x].bundle_seq == s.nodes[x].bundle_seq);
    }
    assert(opened.nodes[j].outstanding == s.nodes[j].outstanding);
    assert(delivered.nodes[j].outstanding == woken.nodes[j].outstanding);
    assert(g.s.nodes[j].outstanding == delivered.nodes[j].outstanding);
    assert(handed.nodes[j].outstanding == g.s.nodes[j].outstanding);
    lemma_originated_or_same(handed, fleet, params, up, round, m);
    let after = spray_round::originations(handed, fleet, params, up, round, m);
    assert(after.nodes[j] == handed.nodes[j] || after.nodes[j].bundle_seq
        == handed.nodes[j].bundle_seq + 1);
}

} // verus!
