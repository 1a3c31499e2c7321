//! Which nodes of a graph hang together.
use vstd::prelude::*;

verus! {

/// Whether one of the first `k` links joins two nodes.
pub open spec fn joined<N>(links: Seq<(N, N)>, k: nat, a: N, b: N) -> bool {
    exists|j: int| 0 <= j < k && (#[trigger] links[j] == (a, b) || links[j] == (b, a))
}

/// Whether a chain of nodes runs along the first `k` links.
pub open spec fn is_chain<N>(links: Seq<(N, N)>, k: nat, chain: Seq<N>) -> bool {
    &&& chain.len() > 0
    &&& forall|i: int|
        #![trigger chain[i]]
        0 <= i < chain.len() - 1 ==> joined(links, k, chain[i], chain[i + 1])
}

/// Whether a chain runs from one node to another.
pub open spec fn runs<N>(
    links: Seq<(N, N)>,
    k: nat,
    chain: Seq<N>,
    a: N,
    b: N,
) -> bool {
    is_chain(links, k, chain) && chain[0] == a && chain.last() == b
}

/// Whether two nodes hang together over the first `k` links.
pub open spec fn connected<N>(links: Seq<(N, N)>, k: nat, a: N, b: N) -> bool {
    exists|chain: Seq<N>| #[trigger] runs(links, k, chain, a, b)
}

/// Every node hangs together with itself.
pub proof fn connected_to_itself<N>(links: Seq<(N, N)>, k: nat, a: N)
    ensures
        connected(links, k, a, a),
{
    assert(runs(links, k, seq![a], a, a));
}

/// Hanging together is mutual.
pub proof fn connected_both_ways<N>(links: Seq<(N, N)>, k: nat, a: N, b: N)
    requires
        connected(links, k, a, b),
    ensures
        connected(links, k, b, a),
{
    let chain = choose|chain: Seq<N>| #[trigger] runs(links, k, chain, a, b);
    let back = Seq::new(chain.len(), |i: int| chain[chain.len() - 1 - i]);
    assert forall|i: int| #![trigger back[i]] 0 <= i < back.len() - 1 implies joined(
        links,
        k,
        back[i],
        back[i + 1],
    ) by {
        let at = chain.len() - 2 - i;
        assert(joined(links, k, chain[at], chain[at + 1]));
        let j = choose|j: int|
            0 <= j < k && (#[trigger] links[j] == (chain[at], chain[at + 1]) || links[j] == (
                chain[at + 1],
                chain[at],
            ));
        assert(links[j] == (back[i + 1], back[i]) || links[j] == (back[i], back[i + 1]));
    }
    assert(runs(links, k, back, b, a));
}

/// Hanging together carries over.
pub proof fn connected_across<N>(links: Seq<(N, N)>, k: nat, a: N, b: N, c: N)
    requires
        connected(links, k, a, b),
        connected(links, k, b, c),
    ensures
        connected(links, k, a, c),
{
    let one = choose|chain: Seq<N>| #[trigger] runs(links, k, chain, a, b);
    let two = choose|chain: Seq<N>| #[trigger] runs(links, k, chain, b, c);
    let both = one + two.skip(1);
    assert forall|i: int| #![trigger both[i]] 0 <= i < both.len() - 1 implies joined(
        links,
        k,
        both[i],
        both[i + 1],
    ) by {
        if i < one.len() - 1 {
            assert(both[i] == one[i] && both[i + 1] == one[i + 1]);
        } else {
            let at = i - (one.len() - 1);
            assert(both[i] == two[at]) by {
                if at == 0 {
                    assert(both[i] == one.last());
                }
            }
            assert(both[i + 1] == two[at + 1]);
            assert(joined(links, k, two[at], two[at + 1]));
        }
    }
    assert(both.last() == c) by {
        if two.len() == 1 {
            assert(both =~= one);
        }
    }
    assert(runs(links, k, both, a, c));
}

/// More links keep together what hangs together.
pub proof fn connected_still<N>(links: Seq<(N, N)>, k: nat, m: nat, a: N, b: N)
    requires
        k <= m,
        connected(links, k, a, b),
    ensures
        connected(links, m, a, b),
{
    let chain = choose|chain: Seq<N>| #[trigger] runs(links, k, chain, a, b);
    assert forall|i: int| #![trigger chain[i]] 0 <= i < chain.len() - 1 implies joined(
        links,
        m,
        chain[i],
        chain[i + 1],
    ) by {
        assert(joined(links, k, chain[i], chain[i + 1]));
    }
    assert(runs(links, m, chain, a, b));
}

/// A link joins its ends.
pub proof fn connected_by_link<N>(links: Seq<(N, N)>, j: int)
    requires
        0 <= j < links.len(),
    ensures
        connected(links, (j + 1) as nat, links[j].0, links[j].1),
{
    let chain = seq![links[j].0, links[j].1];
    assert(links[j] == (chain[0], chain[1]));
    assert(joined(links, (j + 1) as nat, chain[0], chain[1]));
    assert(runs(links, (j + 1) as nat, chain, links[j].0, links[j].1));
}

/// Whether two nodes hang together over the first `k` links, or do once the
/// next link is added.
pub open spec fn bridged<N>(links: Seq<(N, N)>, k: nat, a: N, b: N) -> bool {
    let p = links[k as int].0;
    let q = links[k as int].1;
    ||| connected(links, k, a, b)
    ||| connected(links, k, a, p) && connected(links, k, q, b)
    ||| connected(links, k, a, q) && connected(links, k, p, b)
}

proof fn lemma_chain_bridged<N>(links: Seq<(N, N)>, k: nat, chain: Seq<N>)
    requires
        k < links.len(),
        is_chain(links, k + 1, chain),
    ensures
        bridged(links, k, chain[0], chain.last()),
    decreases chain.len(),
{
    let a = chain[0];
    if chain.len() == 1 {
        connected_to_itself(links, k, a);
    } else {
        let before = chain.drop_last();
        assert forall|i: int| #![trigger before[i]] 0 <= i < before.len() - 1 implies joined(
            links,
            k + 1,
            before[i],
            before[i + 1],
        ) by {
            assert(before[i] == chain[i] && before[i + 1] == chain[i + 1]);
        }
        lemma_chain_bridged(links, k, before);
        let z = before.last();
        let y = chain.last();
        let p = links[k as int].0;
        let q = links[k as int].1;
        let at = chain.len() - 2;
        assert(chain[at] == z && chain[at + 1] == y);
        assert(joined(links, k + 1, z, y));
        let j = choose|j: int|
            0 <= j < k + 1 && (#[trigger] links[j] == (z, y) || links[j] == (y, z));
        connected_to_itself(links, k, p);
        connected_to_itself(links, k, q);
        if j < k {
            assert(joined(links, k, z, y));
            assert(is_chain(links, k, seq![z, y]));
            assert(runs(links, k, seq![z, y], z, y));
            if connected(links, k, a, z) {
                connected_across(links, k, a, z, y);
            } else if connected(links, k, a, p) && connected(links, k, q, z) {
                connected_across(links, k, q, z, y);
            } else {
                connected_across(links, k, p, z, y);
            }
        } else {
            assert((z, y) == (p, q) || (z, y) == (q, p));
        }
    }
}

/// What a link adds: two nodes hang together over one link more exactly if
/// they did before, or if each hangs together with one of its ends.
pub proof fn a_link_bridges<N>(links: Seq<(N, N)>, k: nat, a: N, b: N)
    requires
        k < links.len(),
    ensures
        connected(links, k + 1, a, b) <==> bridged(links, k, a, b),
{
    if connected(links, k + 1, a, b) {
        let chain = choose|chain: Seq<N>| #[trigger] runs(links, k + 1, chain, a, b);
        lemma_chain_bridged(links, k, chain);
    }
    if bridged(links, k, a, b) {
        let p = links[k as int].0;
        let q = links[k as int].1;
        connected_by_link(links, k as int);
        connected_both_ways(links, k + 1, p, q);
        if connected(links, k, a, b) {
            connected_still(links, k, k + 1, a, b);
        } else if connected(links, k, a, p) && connected(links, k, q, b) {
            connected_still(links, k, k + 1, a, p);
            connected_still(links, k, k + 1, q, b);
            connected_across(links, k + 1, a, p, q);
            connected_across(links, k + 1, a, q, b);
        } else {
            connected_still(links, k, k + 1, a, q);
            connected_still(links, k, k + 1, p, b);
            connected_across(links, k + 1, a, q, p);
            connected_across(links, k + 1, a, p, b);
        }
    }
}

/// Without links a node hangs together with itself alone.
pub proof fn connected_by_nothing<N>(links: Seq<(N, N)>, a: N, b: N)
    ensures
        connected(links, 0, a, b) <==> a == b,
{
    connected_to_itself(links, 0, a);
    if connected(links, 0, a, b) {
        let chain = choose|chain: Seq<N>| #[trigger] runs(links, 0, chain, a, b);
        if chain.len() > 1 {
            assert(joined(links, 0, chain[0], chain[1]));
        }
    }
}

} // verus!
