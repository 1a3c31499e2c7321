//! What gossip passes on: how a transmission is filled, what is learned from it, and
//! what waits for the next.
use vstd::prelude::*;

use crate::mesh_adjacency::Topology;

use super::linkstate;
use super::linkstate::{Gossip, LsModel, LsaModel};
use super::params::DvDtnParams;

verus! {

/// A transmission is filled with what came first: it begins with what the sender
/// observes now, dated now and under its next number, carries no more than it may,
/// and what is left waiting is the tail of what was.
pub proof fn what_came_first_goes_first(
    n: LsModel,
    id: u32,
    i: int,
    topo: Topology,
    params: DvDtnParams,
    round: u64,
)
    requires
        n.seq < u64::MAX,
    ensures
        ({
            let (m, batch) = linkstate::sending(n, id, i, topo, params, round);
            &&& batch.len() >= 1
            &&& batch[0].origin == id
            &&& batch[0].seq == n.seq + 1
            &&& batch[0].emitted_at_round == round
            &&& batch[0].neighbors == topo.neighbors_of(i)
            &&& batch[0].tower == topo.tower_of(i)
            &&& m.db.contains_key(id) && m.db[id] == batch[0]
            &&& m.seq == n.seq + 1
            &&& m.dirty
            &&& batch.len() <= 1 || batch.len() <= params.lsa_per_transmission
            &&& exists|t: int|
                0 <= t <= n.to_relay.len() && m.to_relay == #[trigger] n.to_relay.skip(t)
            &&& m.to_relay.len() > 0 ==> batch.len() == 1 || batch.len()
                == params.lsa_per_transmission
            &&& m.to_relay.len() > 0 && params.lsa_per_transmission >= 1 ==> batch.len()
                == params.lsa_per_transmission
        }),
{
    let own = linkstate::own_record(n, id, i, topo, round);
    let db = n.db.insert(id, own);
    let limit = linkstate::batch_limit(params);
    lemma_filled(db, id, seq![own], n.to_relay, limit);
    let r = linkstate::filled(db, id, seq![own], n.to_relay, limit);
    assert(r.0[0] == seq![own][0]);
}

proof fn lemma_filled(
    db: Map<u32, LsaModel>,
    id: u32,
    batch: Seq<LsaModel>,
    waiting: Seq<u32>,
    limit: nat,
)
    requires
        batch.len() <= limit,
    ensures
        ({
            let r = linkstate::filled(db, id, batch, waiting, limit);
            &&& r.0.len() <= limit
            &&& batch.is_prefix_of(r.0)
            &&& exists|t: int| 0 <= t <= waiting.len() && r.1 == #[trigger] waiting.skip(t)
            &&& r.1.len() > 0 ==> r.0.len() == limit
        }),
    decreases waiting.len(),
{
    let r = linkstate::filled(db, id, batch, waiting, limit);
    if batch.len() >= limit || waiting.len() == 0 {
        assert(waiting.skip(0) =~= waiting);
    } else {
        let origin = waiting[0];
        let rest = waiting.subrange(1, waiting.len() as int);
        let more = if origin != id && db.contains_key(origin) {
            batch.push(db[origin])
        } else {
            batch
        };
        lemma_filled(db, id, more, rest, limit);
        let t = choose|t: int| 0 <= t <= rest.len() && r.1 == #[trigger] rest.skip(t);
        assert(waiting.skip(t + 1) =~= rest.skip(t));
        assert(batch =~= r.0.subrange(0, batch.len() as int)) by {
            assert forall|x: int| 0 <= x < batch.len() implies batch[x] == r.0[x] by {
                assert(more[x] == r.0[x]);
            }
        }
    }
}

/// What is news is kept and waits to be passed on; what is not changes nothing but
/// the count of what was not. What a balloon hears of itself is neither.
pub proof fn news_is_kept_and_passed_on(g: Gossip, nb: u32, rec: LsaModel)
    requires
        nb < g.state.nodes.len(),
        0 <= g.state.records_useful < u64::MAX,
        0 <= g.state.records_redundant < u64::MAX,
    ensures
        ({
            let n = g.state.nodes[nb as int];
            let r = linkstate::record_heard(g, nb, rec).state;
            let m = r.nodes[nb as int];
            let news = !n.db.contains_key(rec.origin) || n.db[rec.origin].seq < rec.seq;
            &&& rec.origin == nb ==> r == g.state
            &&& rec.origin != nb && news ==> {
                &&& m.db == n.db.insert(rec.origin, rec)
                &&& m.dirty
                &&& m.to_relay.contains(rec.origin)
                &&& n.to_relay.is_prefix_of(m.to_relay)
                &&& m.to_relay.len() <= n.to_relay.len() + 1
                &&& r.records_useful == g.state.records_useful + 1
                &&& r.records_redundant == g.state.records_redundant
            }
            &&& rec.origin != nb && !news ==> {
                &&& r.nodes == g.state.nodes
                &&& r.records_useful == g.state.records_useful
                &&& r.records_redundant == g.state.records_redundant + 1
            }
        }),
{
    let n = g.state.nodes[nb as int];
    let m = linkstate::record_heard(g, nb, rec).state.nodes[nb as int];
    if rec.origin != nb && linkstate::teaches(n, rec) && !n.to_relay.contains(rec.origin) {
        assert(m.to_relay[n.to_relay.len() as int] == rec.origin);
    }
}

/// A map is worked out again exactly when something on it is let go of, and what is
/// let go of is what is too old.
pub proof fn what_is_too_old_is_let_go(n: LsModel, round: u64, max_age: u64, id: u32)
    ensures
        ({
            let m = linkstate::aged(n, round, max_age);
            &&& m.db.contains_key(id) <==> n.db.contains_key(id) && round
                <= n.db[id].emitted_at_round + max_age
            &&& m.db.contains_key(id) ==> m.db[id] == n.db[id]
            &&& n.dirty ==> m.dirty
            &&& n.db.contains_key(id) && !m.db.contains_key(id) ==> m.dirty
            &&& m.dirty && !n.dirty ==> m.db != n.db
            &&& m.to_relay == n.to_relay
            &&& m.seq == n.seq
        }),
{
    let m = linkstate::aged(n, round, max_age);
    if m.dirty && !n.dirty {
        let x = choose|x: u32|
            #![trigger n.db[x]]
            n.db.contains_key(x) && linkstate::stale(n.db[x], round, max_age);
        assert(n.db.contains_key(x) && !m.db.contains_key(x));
    }
}

} // verus!
