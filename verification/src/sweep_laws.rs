//! Which way every payload goes home, second by second.
use vstd::prelude::*;

use crate::sweep;
use crate::sweep::{Account, Waiting};

verus! {

/// What a balloon has waiting once payloads are made, if it is time for that.
pub open spec fn on_hand(a: Account, t: i64, i: int) -> Seq<i64> {
    if t >= a.next_gen {
        a.state[i].pending.push(t)
    } else {
        a.state[i].pending
    }
}

/// Whether a balloon has had contact for long enough, this second included.
pub open spec fn long_in_contact(w: Waiting, here: bool, t: i64, ack_sec: i64) -> bool {
    here && (match w.connected_since {
        Some(s) => s + ack_sec <= t,
        None => ack_sec <= 0,
    })
}

/// How many of a list have waited for as long as anything may.
pub open spec fn waited_out(list: Seq<i64>, t: i64, timeout: i64) -> nat {
    list.filter(|p: i64| p + timeout <= t).len()
}

/// A sum over the first `k` balloons.
pub open spec fn sum_of(f: spec_fn(int) -> nat, k: nat) -> nat
    decreases k,
{
    if k == 0 {
        0
    } else {
        sum_of(f, (k - 1) as nat) + f(k - 1)
    }
}

proof fn lemma_sum_same(f: spec_fn(int) -> nat, g: spec_fn(int) -> nat, k: nat)
    requires
        forall|i: int| 0 <= i < k ==> #[trigger] f(i) == g(i),
    ensures
        sum_of(f, k) == sum_of(g, k),
    decreases k,
{
    if k > 0 {
        lemma_sum_same(f, g, (k - 1) as nat);
        assert(f(k - 1) == g(k - 1));
    }
}

proof fn lemma_overdue(list: Seq<i64>, t: i64, timeout: i64, k: nat)
    requires
        k <= list.len(),
    ensures
        sweep::overdue(list, t - timeout, k) == waited_out(list.take(k as int), t, timeout),
    decreases k,
{
    reveal(Seq::filter);
    let late = |p: i64| p + timeout <= t;
    if k > 0 {
        lemma_overdue(list, t, timeout, (k - 1) as nat);
        let now = list.take(k as int);
        assert(now.drop_last() =~= list.take(k - 1));
        assert(now.last() == list[k - 1]);
    }
}

/// What the second of balloon `i` adds to the payloads gone home by radio.
pub open spec fn by_radio(w: Waiting, have: Seq<i64>, here: bool, t: i64, ack_sec: i64) -> nat {
    if long_in_contact(w, here, t, ack_sec) {
        have.len()
    } else {
        0
    }
}

/// What the second of balloon `i` adds to the payloads gone home by satellite.
pub open spec fn by_satellite(
    w: Waiting,
    have: Seq<i64>,
    here: bool,
    t: i64,
    ack_sec: i64,
    timeout: i64,
) -> nat {
    if long_in_contact(w, here, t, ack_sec) {
        0
    } else {
        waited_out(have, t, timeout)
    }
}

proof fn lemma_turned(
    a: Account,
    ids: Seq<u32>,
    grounded: Set<u32>,
    t: i64,
    ack_sec: i64,
    timeout: i64,
    k: nat,
)
    requires
        k <= a.state.len(),
    ensures
        ({
            let b = sweep::all_turned(a, ids, grounded, t, ack_sec, timeout, k);
            &&& b.state.len() == a.state.len()
            &&& b.total == a.total
            &&& b.next_gen == a.next_gen
            &&& forall|i: int|
                0 <= i < a.state.len() ==> #[trigger] b.state[i] == (if i < k {
                    sweep::attended(
                        a.state[i],
                        grounded.contains(ids[i]),
                        t,
                        ack_sec,
                        timeout,
                    )
                } else {
                    a.state[i]
                })
            &&& b.radio == a.radio + sum_of(
                |i: int|
                    by_radio(
                        a.state[i],
                        a.state[i].pending,
                        grounded.contains(ids[i]),
                        t,
                        ack_sec,
                    ),
                k,
            )
            &&& b.satellite == a.satellite + sum_of(
                |i: int|
                    by_satellite(
                        a.state[i],
                        a.state[i].pending,
                        grounded.contains(ids[i]),
                        t,
                        ack_sec,
                        timeout,
                    ),
                k,
            )
        }),
    decreases k,
{
    if k > 0 {
        lemma_turned(a, ids, grounded, t, ack_sec, timeout, (k - 1) as nat);
        let b = sweep::all_turned(a, ids, grounded, t, ack_sec, timeout, (k - 1) as nat);
        let w = a.state[k - 1];
        assert(b.state[k - 1] == w);
        lemma_overdue(w.pending, t, timeout, w.pending.len());
        assert(w.pending.take(w.pending.len() as int) =~= w.pending);
    }
}

/// Every payload goes home the right way. In a second, a balloon that has had
/// contact for long enough sends home by radio all that it has; any other sends up
/// to the satellite exactly what has waited for as long as anything may, and keeps
/// the rest. Contact counts from the second in which it began, and from nothing
/// once it breaks.
pub proof fn every_payload_goes_home_the_right_way(
    a: Account,
    ids: Seq<u32>,
    grounded: Set<u32>,
    t: i64,
    ack_sec: i64,
    timeout: i64,
)
    ensures
        ({
            let b = sweep::second(a, ids, grounded, t, ack_sec, timeout);
            &&& b.state.len() == a.state.len()
            &&& b.total == a.total + (if t >= a.next_gen {
                a.state.len()
            } else {
                0
            })
            &&& b.next_gen == (if t >= a.next_gen {
                t + sweep::PAYLOAD_INTERVAL_SEC
            } else {
                a.next_gen
            })
            &&& b.radio == a.radio + sum_of(
                |i: int|
                    by_radio(
                        a.state[i],
                        on_hand(a, t, i),
                        grounded.contains(ids[i]),
                        t,
                        ack_sec,
                    ),
                a.state.len(),
            )
            &&& b.satellite == a.satellite + sum_of(
                |i: int|
                    by_satellite(
                        a.state[i],
                        on_hand(a, t, i),
                        grounded.contains(ids[i]),
                        t,
                        ack_sec,
                        timeout,
                    ),
                a.state.len(),
            )
            &&& forall|i: int| #![trigger b.state[i]]
                0 <= i < a.state.len() ==> {
                    let here = grounded.contains(ids[i]);
                    let w = a.state[i];
                    let gone = long_in_contact(w, here, t, ack_sec);
                    &&& gone ==> b.state[i].pending.len() == 0
                    &&& !gone ==> forall|p: i64| #[trigger]
                        b.state[i].pending.contains(p) <==> on_hand(a, t, i).contains(p) && p
                            + timeout > t
                    &&& !here ==> b.state[i].connected_since is None
                    &&& here ==> b.state[i].connected_since == (match w.connected_since {
                        Some(s) => Some(s),
                        None => Some(t),
                    })
                }
        }),
{
    let m = sweep::made(a, t);
    let b = sweep::second(a, ids, grounded, t, ack_sec, timeout);
    assert forall|i: int| 0 <= i < a.state.len() implies (#[trigger] m.state[i]).pending
        == on_hand(a, t, i) && m.state[i].connected_since == a.state[i].connected_since by {}
    lemma_turned(m, ids, grounded, t, ack_sec, timeout, a.state.len());
    lemma_sum_same(
        |i: int|
            by_radio(
                m.state[i],
                m.state[i].pending,
                grounded.contains(ids[i]),
                t,
                ack_sec,
            ),
        |i: int|
            by_radio(a.state[i], on_hand(a, t, i), grounded.contains(ids[i]), t, ack_sec),
        a.state.len(),
    );
    lemma_sum_same(
        |i: int|
            by_satellite(
                m.state[i],
                m.state[i].pending,
                grounded.contains(ids[i]),
                t,
                ack_sec,
                timeout,
            ),
        |i: int|
            by_satellite(
                a.state[i],
                on_hand(a, t, i),
                grounded.contains(ids[i]),
                t,
                ack_sec,
                timeout,
            ),
        a.state.len(),
    );
    assert forall|i: int| #![trigger b.state[i]] 0 <= i < a.state.len() implies ({
        let here = grounded.contains(ids[i]);
        let w = a.state[i];
        let gone = long_in_contact(w, here, t, ack_sec);
        &&& gone ==> b.state[i].pending.len() == 0
        &&& !gone ==> forall|p: i64| #[trigger]
            b.state[i].pending.contains(p) <==> on_hand(a, t, i).contains(p) && p + timeout > t
        &&& !here ==> b.state[i].connected_since is None
        &&& here ==> b.state[i].connected_since == (match w.connected_since {
            Some(s) => Some(s),
            None => Some(t),
        })
    }) by {
        let w = m.state[i];
        assert(w.pending == on_hand(a, t, i));
        assert(b.state[i] == sweep::attended(w, grounded.contains(ids[i]), t, ack_sec, timeout));
        let keep = |p: i64| p > t - timeout;
        assert forall|p: i64| #[trigger]
            w.pending.filter(keep).contains(p) <==> w.pending.contains(p) && p + timeout > t by {
            lemma_kept(w.pending, keep, p);
        }
    }
}

proof fn lemma_kept(list: Seq<i64>, keep: spec_fn(i64) -> bool, p: i64)
    ensures
        list.filter(keep).contains(p) <==> list.contains(p) && keep(p),
{
    broadcast use vstd::seq_lib::group_filter_ensures;

    let f = list.filter(keep);
    if f.contains(p) {
        let j = f.index_of(p);
        assert(f[j] == p);
        list.lemma_filter_contains_rev(keep, p);
    }
    if list.contains(p) && keep(p) {
        let j = list.index_of(p);
        assert(list[j] == p);
    }
}

} // verus!
