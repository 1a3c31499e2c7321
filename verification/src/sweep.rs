//! The connectivity sweep: what share of payloads would go home by radio, and
//! what share by satellite, over a grid of parameters.
use std::collections::HashSet;

use vstd::prelude::*;
use vstd::string::*;

use crate::protocol::stats;
use crate::protocol::stats::Ratio;
use crate::text;

verus! {

/// Seconds between a balloon's payloads.
pub const PAYLOAD_INTERVAL_SEC: i64 = 300;

/// One cell of the grid. The coefficient is a bit pattern.
#[derive(Debug, Clone, Copy, PartialEq, Eq, Structural)]
pub struct Combo {
    pub horizon_coeff: u64,
    pub n_balloons: u32,
    pub fallback_timeout_min: i64,
    pub ack_duration_sec: i64,
}

/// The grid. Coefficients are bit patterns.
#[derive(Debug)]
pub struct SweepConfig {
    pub horizon_coeffs: Vec<u64>,
    pub n_balloons: Vec<u32>,
    pub fallback_timeout_min: Vec<i64>,
    pub ack_duration_sec: i64,
}

/// One more value mixed into a hash.
pub open spec fn mixed(h: u64, x: u64) -> u64 {
    (h ^ x).wrapping_mul(0x100_0000_01b3)
}

/// Mixes one more value into a hash.
pub fn mix(h: u64, x: u64) -> (r: u64)
    ensures
        r == mixed(h, x),
{
    (h ^ x).wrapping_mul(0x100_0000_01b3)
}

/// A signed number's bits.
pub open spec fn bits_of(v: i64) -> u64 {
    (if v < 0 {
        v + 0x1_0000_0000_0000_0000
    } else {
        v as int
    }) as u64
}

fn bits(v: i64) -> (r: u64)
    ensures
        r == bits_of(v),
{
    if v < 0 {
        (v as i128 + 0x1_0000_0000_0000_0000) as u64
    } else {
        v as u64
    }
}

/// A seed of its own for every cell, the same in every run.
pub fn seed_for_combo(combo: &Combo) -> (h: u64)
    ensures
        h == mixed(
            mixed(
                mixed(
                    mixed(0xcbf2_9ce4_8422_2325, combo.horizon_coeff),
                    combo.n_balloons as u64,
                ),
                bits_of(combo.fallback_timeout_min),
            ),
            bits_of(combo.ack_duration_sec),
        ),
{
    let h: u64 = mix(0xcbf2_9ce4_8422_2325, combo.horizon_coeff);
    let h: u64 = mix(h, combo.n_balloons as u64);
    let h: u64 = mix(h, bits(combo.fallback_timeout_min));
    mix(h, bits(combo.ack_duration_sec))
}

/// The cell at a place of the grid: the timeout changes fastest, the
/// coefficient slowest.
pub open spec fn cell(c: SweepConfig, i: int) -> Combo {
    let t = c.fallback_timeout_min@.len() as int;
    let n = c.n_balloons@.len() as int;
    Combo {
        horizon_coeff: c.horizon_coeffs@[i / (n * t)],
        n_balloons: c.n_balloons@[(i / t) % n],
        fallback_timeout_min: c.fallback_timeout_min@[i % t],
        ack_duration_sec: c.ack_duration_sec,
    }
}

proof fn lemma_place(a: int, b: int, c: int, n: int, t: int)
    requires
        0 <= a,
        0 <= b < n,
        0 <= c < t,
    ensures
        ((a * n + b) * t + c) / (n * t) == a,
        (((a * n + b) * t + c) / t) % n == b,
        ((a * n + b) * t + c) % t == c,
{
    let x = a * n + b;
    let i = x * t + c;
    vstd::arithmetic::div_mod::lemma_fundamental_div_mod_converse(i, t, x, c);
    vstd::arithmetic::div_mod::lemma_fundamental_div_mod_converse(x, n, a, b);
    let nt = n * t;
    let low = b * t + c;
    assert(0 <= low < nt && i == a * nt + low) by (nonlinear_arith)
        requires
            0 <= b < n,
            0 <= c < t,
            x == a * n + b,
            i == x * t + c,
            nt == n * t,
            low == b * t + c,
    ;
    vstd::arithmetic::div_mod::lemma_fundamental_div_mod_converse(i, nt, a, low);
}

/// Every cell of the grid.
pub fn combos(config: &SweepConfig) -> (out: Vec<Combo>)
    ensures
        out@ == Seq::new(
            config.horizon_coeffs@.len() * config.n_balloons@.len()
                * config.fallback_timeout_min@.len(),
            |i: int| cell(*config, i),
        ),
{
    let ghost n = config.n_balloons@.len() as int;
    let ghost t = config.fallback_timeout_min@.len() as int;
    let mut out: Vec<Combo> = Vec::new();
    let mut a: usize = 0;
    assert(0 * n == 0 && 0 * n * t == 0);
    while a < config.horizon_coeffs.len()
        invariant
            a <= config.horizon_coeffs@.len(),
            n == config.n_balloons@.len(),
            t == config.fallback_timeout_min@.len(),
            out@.len() == a * n * t,
            forall|i: int| 0 <= i < out@.len() ==> #[trigger] out@[i] == cell(*config, i),
        decreases config.horizon_coeffs@.len() - a,
    {
        let mut b: usize = 0;
        assert((a * n + 0) * t == a * n * t);
        while b < config.n_balloons.len()
            invariant
                a < config.horizon_coeffs@.len(),
                b <= n,
                n == config.n_balloons@.len(),
                t == config.fallback_timeout_min@.len(),
                out@.len() == (a * n + b) * t,
                forall|i: int| 0 <= i < out@.len() ==> #[trigger] out@[i] == cell(*config, i),
            decreases n - b,
        {
            let mut c: usize = 0;
            while c < config.fallback_timeout_min.len()
                invariant
                    a < config.horizon_coeffs@.len(),
                    b < n,
                    c <= t,
                    n == config.n_balloons@.len(),
                    t == config.fallback_timeout_min@.len(),
                    out@.len() == (a * n + b) * t + c,
                    forall|i: int| 0 <= i < out@.len() ==> #[trigger] out@[i] == cell(*config, i),
                decreases t - c,
            {
                proof {
                    lemma_place(a as int, b as int, c as int, n, t);
                }
                out.push(
                    Combo {
                        horizon_coeff: config.horizon_coeffs[a],
                        n_balloons: config.n_balloons[b],
                        fallback_timeout_min: config.fallback_timeout_min[c],
                        ack_duration_sec: config.ack_duration_sec,
                    },
                );
                c += 1;
            }
            assert((a * n + b) * t + t == (a * n + (b + 1)) * t) by (nonlinear_arith);
            b += 1;
        }
        assert((a * n + n) * t == (a + 1) * n * t) by (nonlinear_arith);
        a += 1;
    }
    assert(out@ =~= Seq::new(
        config.horizon_coeffs@.len() * config.n_balloons@.len()
            * config.fallback_timeout_min@.len(),
        |i: int| cell(*config, i),
    ));
    out
}

/// A text with every point made a `p`.
pub open spec fn pointless(s: Seq<char>) -> Seq<char> {
    s.map_values(
        |c: char|
            if c == '.' {
                'p'
            } else {
                c
            },
    )
}

/// Appends a text with every point made a `p`.
pub(crate) fn push_pointless(out: &mut String, s: &str)
    ensures
        final(out)@ == old(out)@ + pointless(s@),
{
    let ghost before = out@;
    let n: usize = s.unicode_len();
    let mut k: usize = 0;
    proof {
        reveal_strlit("p");
        assert(before + pointless(s@.take(0)) =~= before);
    }
    while k < n
        invariant
            k <= n,
            n == s@.len(),
            "p"@ == seq!['p'],
            out@ == before + pointless(s@.take(k as int)),
        decreases n - k,
    {
        if s.get_char(k) == '.' {
            out.append("p");
        } else {
            out.append(s.substring_char(k, k + 1));
        }
        assert(s@.take(k + 1) =~= s@.take(k as int).push(s@[k as int]));
        assert(out@ =~= before + pointless(s@.take(k + 1)));
        k += 1;
    }
    assert(s@.take(n as int) =~= s@);
}

/// The name of a cell's result file. `coeff` is the coefficient with two
/// places behind the point.
pub fn combo_file_name(combo: &Combo, coeff: &str) -> (s: String)
    ensures
        s@ == "h"@ + pointless(coeff@) + "_n"@ + text::decimal(combo.n_balloons as nat) + "_t"@
            + text::signed_decimal(combo.fallback_timeout_min as int) + "_a"@
            + text::signed_decimal(combo.ack_duration_sec as int) + ".json"@,
{
    let mut s: String = "h".to_owned();
    push_pointless(&mut s, coeff);
    s.append("_n");
    text::push_decimal(&mut s, combo.n_balloons as u64);
    s.append("_t");
    text::push_signed_decimal(&mut s, combo.fallback_timeout_min);
    s.append("_a");
    text::push_signed_decimal(&mut s, combo.ack_duration_sec);
    s.append(".json");
    s
}

/// One balloon's payloads that have not gone home, by the second they were
/// made, and since when it has had contact.
#[derive(Debug)]
pub struct BalloonState {
    pub pending: Vec<i64>,
    pub connected_since: Option<i64>,
}

/// The mathematical content of a `BalloonState`.
#[verifier::ext_equal]
pub struct Waiting {
    pub pending: Seq<i64>,
    pub connected_since: Option<i64>,
}

impl View for BalloonState {
    type V = Waiting;

    open spec fn view(&self) -> Waiting {
        Waiting { pending: self.pending@, connected_since: self.connected_since }
    }
}

/// One run: every balloon's payloads, and how many went home which way.
#[derive(Debug)]
pub struct Run {
    pub state: Vec<BalloonState>,
    pub total_payloads: u64,
    pub radio_delivered: u64,
    pub satellite_delivered: u64,
    pub next_payload_gen: i64,
}

/// The mathematical content of a `Run`.
#[verifier::ext_equal]
pub struct Account {
    pub state: Seq<Waiting>,
    pub total: int,
    pub radio: int,
    pub satellite: int,
    pub next_gen: int,
}

impl View for Run {
    type V = Account;

    open spec fn view(&self) -> Account {
        Account {
            state: self.state@.map_values(|s: BalloonState| s@),
            total: self.total_payloads as int,
            radio: self.radio_delivered as int,
            satellite: self.satellite_delivered as int,
            next_gen: self.next_payload_gen as int,
        }
    }
}

/// After payloads are made, if it is time: one for each balloon.
pub open spec fn made(a: Account, t: i64) -> Account {
    if t < a.next_gen {
        a
    } else {
        Account {
            state: a.state.map_values(
                |w: Waiting| Waiting { pending: w.pending.push(t), ..w },
            ),
            total: a.total + a.state.len(),
            next_gen: t + PAYLOAD_INTERVAL_SEC,
            ..a
        }
    }
}

/// Whether contact has lasted long enough for everything to have gone home.
pub open spec fn acknowledged(w: Waiting, grounded: bool, t: i64, ack_sec: i64) -> bool {
    grounded && (match w.connected_since {
        Some(s) => t - s,
        None => 0,
    }) >= ack_sec
}

/// How many payloads of a list have waited too long.
pub open spec fn overdue(pending: Seq<i64>, cutoff: int, k: nat) -> nat
    decreases k,
{
    if k == 0 {
        0
    } else {
        overdue(pending, cutoff, (k - 1) as nat) + (if pending[k - 1] > cutoff {
            0nat
        } else {
            1
        })
    }
}

/// One balloon after a second.
pub open spec fn attended(w: Waiting, grounded: bool, t: i64, ack_sec: i64, timeout: i64) -> Waiting {
    Waiting {
        connected_since: if grounded {
            match w.connected_since {
                Some(s) => Some(s),
                None => Some(t),
            }
        } else {
            None
        },
        pending: if acknowledged(w, grounded, t, ack_sec) {
            Seq::empty()
        } else {
            w.pending.filter(|p: i64| p > t - timeout)
        },
    }
}

/// The run after balloon `i` has had its second.
pub open spec fn turned(
    a: Account,
    i: int,
    grounded: bool,
    t: i64,
    ack_sec: i64,
    timeout: i64,
) -> Account {
    let w = a.state[i];
    let home = acknowledged(w, grounded, t, ack_sec);
    Account {
        state: a.state.update(i, attended(w, grounded, t, ack_sec, timeout)),
        radio: if home {
            a.radio + w.pending.len()
        } else {
            a.radio
        },
        satellite: if home {
            a.satellite
        } else {
            a.satellite + overdue(w.pending, t - timeout, w.pending.len())
        },
        ..a
    }
}

/// The run after the first `k` balloons have had their second.
pub open spec fn all_turned(
    a: Account,
    ids: Seq<u32>,
    grounded: Set<u32>,
    t: i64,
    ack_sec: i64,
    timeout: i64,
    k: nat,
) -> Account
    decreases k,
{
    if k == 0 {
        a
    } else {
        turned(
            all_turned(a, ids, grounded, t, ack_sec, timeout, (k - 1) as nat),
            k - 1,
            grounded.contains(ids[k - 1]),
            t,
            ack_sec,
            timeout,
        )
    }
}

/// The run after one second.
pub open spec fn second(
    a: Account,
    ids: Seq<u32>,
    grounded: Set<u32>,
    t: i64,
    ack_sec: i64,
    timeout: i64,
) -> Account {
    all_turned(made(a, t), ids, grounded, t, ack_sec, timeout, a.state.len())
}

/// Payloads of the first `k` balloons that have not gone home.
pub open spec fn waiting(state: Seq<Waiting>, k: nat) -> nat
    decreases k,
{
    if k == 0 {
        0
    } else {
        waiting(state, (k - 1) as nat) + state[k - 1].pending.len()
    }
}

/// Whether every payload is accounted for: gone home one way, or waiting.
pub open spec fn balanced(a: Account) -> bool {
    a.total == a.radio + a.satellite + waiting(a.state, a.state.len())
}

proof fn lemma_overdue_and_kept(pending: Seq<i64>, cutoff: int, k: nat)
    requires
        k <= pending.len(),
    ensures
        overdue(pending, cutoff, k) + pending.take(k as int).filter(|p: i64| p > cutoff).len()
            == k,
    decreases k,
{
    let keep = |p: i64| p > cutoff;
    reveal(Seq::filter);
    if k > 0 {
        lemma_overdue_and_kept(pending, cutoff, (k - 1) as nat);
        let now = pending.take(k as int);
        assert(now.drop_last() =~= pending.take(k - 1));
        assert(now.last() == pending[k - 1]);
    } else {
        assert(pending.take(0) =~= Seq::<i64>::empty());
    }
}

proof fn lemma_waiting_update(state: Seq<Waiting>, i: int, w: Waiting, k: nat)
    requires
        0 <= i < state.len(),
        k <= state.len(),
    ensures
        waiting(state.update(i, w), k) == waiting(state, k) + (if i < k {
            w.pending.len() - state[i].pending.len()
        } else {
            0
        }),
    decreases k,
{
    if k > 0 {
        lemma_waiting_update(state, i, w, (k - 1) as nat);
    }
}

proof fn lemma_waiting_made(state: Seq<Waiting>, t: i64, k: nat)
    requires
        k <= state.len(),
    ensures
        waiting(state.map_values(|w: Waiting| Waiting { pending: w.pending.push(t), ..w }), k)
            == waiting(state, k) + k,
    decreases k,
{
    if k > 0 {
        lemma_waiting_made(state, t, (k - 1) as nat);
    }
}

proof fn lemma_turned_balanced(
    a: Account,
    ids: Seq<u32>,
    grounded: Set<u32>,
    t: i64,
    ack_sec: i64,
    timeout: i64,
    k: nat,
)
    requires
        balanced(a),
        k <= a.state.len(),
    ensures
        balanced(all_turned(a, ids, grounded, t, ack_sec, timeout, k)),
        all_turned(a, ids, grounded, t, ack_sec, timeout, k).state.len() == a.state.len(),
        all_turned(a, ids, grounded, t, ack_sec, timeout, k).total == a.total,
        all_turned(a, ids, grounded, t, ack_sec, timeout, k).next_gen == a.next_gen,
        all_turned(a, ids, grounded, t, ack_sec, timeout, k).radio >= a.radio,
        all_turned(a, ids, grounded, t, ack_sec, timeout, k).satellite >= a.satellite,
        forall|j: int|
            k <= j < a.state.len() ==> #[trigger] all_turned(
                a,
                ids,
                grounded,
                t,
                ack_sec,
                timeout,
                k,
            ).state[j] == a.state[j],
    decreases k,
{
    if k > 0 {
        lemma_turned_balanced(a, ids, grounded, t, ack_sec, timeout, (k - 1) as nat);
        let before = all_turned(a, ids, grounded, t, ack_sec, timeout, (k - 1) as nat);
        let w = before.state[k - 1];
        let g = grounded.contains(ids[k - 1]);
        let after = attended(w, g, t, ack_sec, timeout);
        lemma_waiting_update(before.state, k - 1, after, before.state.len());
        lemma_overdue_and_kept(w.pending, t - timeout, w.pending.len());
        assert(w.pending.take(w.pending.len() as int) =~= w.pending);
    }
}

/// Every payload is accounted for, second by second: made is gone home by
/// radio, gone home by satellite, or waiting.
pub proof fn every_payload_is_accounted_for(
    a: Account,
    ids: Seq<u32>,
    grounded: Set<u32>,
    t: i64,
    ack_sec: i64,
    timeout: i64,
)
    requires
        balanced(a),
    ensures
        balanced(second(a, ids, grounded, t, ack_sec, timeout)),
{
    let b = made(a, t);
    lemma_waiting_made(a.state, t, a.state.len());
    lemma_turned_balanced(b, ids, grounded, t, ack_sec, timeout, a.state.len());
}

impl Run {
    /// A run over so many balloons, before its first second.
    pub fn new(n: usize) -> (r: Run)
        ensures
            r@ == (Account {
                state: Seq::new(
                    n as nat,
                    |i: int| Waiting { pending: Seq::empty(), connected_since: None },
                ),
                total: 0,
                radio: 0,
                satellite: 0,
                next_gen: 0,
            }),
    {
        let mut state: Vec<BalloonState> = Vec::new();
        while state.len() < n
            invariant
                state@.len() <= n,
                forall|i: int|
                    0 <= i < state@.len() ==> (#[trigger] state@[i])@ == (Waiting {
                        pending: Seq::empty(),
                        connected_since: None,
                    }),
            decreases n - state@.len(),
        {
            let s = BalloonState { pending: Vec::new(), connected_since: None };
            assert(s@ =~= (Waiting { pending: Seq::empty(), connected_since: None }));
            state.push(s);
        }
        let r = Run {
            state,
            total_payloads: 0,
            radio_delivered: 0,
            satellite_delivered: 0,
            next_payload_gen: 0,
        };
        assert(r@.state =~= Seq::new(
            n as nat,
            |i: int| Waiting { pending: Seq::empty(), connected_since: None },
        ));
        r
    }

    fn make(&mut self, t: i64)
        requires
            old(self).total_payloads + old(self).state@.len() <= u64::MAX,
            t + PAYLOAD_INTERVAL_SEC <= i64::MAX,
        ensures
            final(self)@ == made(old(self)@, t),
    {
        if t < self.next_payload_gen {
            return ;
        }
        let ghost before = self.state@;
        let n: usize = self.state.len();
        let mut i: usize = 0;
        while i < n
            invariant
                i <= n,
                n == before.len(),
                self.state@.len() == n,
                self.total_payloads == old(self).total_payloads + i,
                old(self).total_payloads + n <= u64::MAX,
                self.radio_delivered == old(self).radio_delivered,
                self.satellite_delivered == old(self).satellite_delivered,
                forall|j: int|
                    0 <= j < n ==> (#[trigger] self.state@[j])@ == (if j < i {
                        Waiting { pending: before[j]@.pending.push(t), ..before[j]@ }
                    } else {
                        before[j]@
                    }),
            decreases n - i,
        {
            let ghost so_far = self.state@;
            self.state[i].pending.push(t);
            self.total_payloads = self.total_payloads + 1;
            assert(so_far[i as int]@ == before[i as int]@);
            i += 1;
        }
        self.next_payload_gen = t + PAYLOAD_INTERVAL_SEC;
        assert(self@.state =~= made(old(self)@, t).state);
    }

    fn turn(&mut self, i: usize, grounded: bool, t: i64, ack_sec: i64, timeout: i64)
        requires
            i < old(self).state@.len(),
            old(self).radio_delivered + old(self).state@[i as int].pending@.len() <= u64::MAX,
            old(self).satellite_delivered + old(self).state@[i as int].pending@.len() <= u64::MAX,
            old(self).state@[i as int].connected_since matches Some(s) ==> 0 <= s,
            0 <= t,
            t - timeout <= i64::MAX,
        ensures
            final(self)@ == turned(old(self)@, i as int, grounded, t, ack_sec, timeout),
    {
        let ghost before = self@;
        let ghost w = self.state@[i as int]@;
        assert(before.state[i as int] == w);
        let streak: i64 = match self.state[i].connected_since {
            Some(s) => t - s,
            None => 0,
        };
        let home: bool = grounded && streak >= ack_sec;
        let since: Option<i64> = if grounded {
            match self.state[i].connected_since {
                Some(s) => Some(s),
                None => Some(t),
            }
        } else {
            None
        };
        let mut kept: Vec<i64> = Vec::new();
        if home {
            self.radio_delivered = self.radio_delivered + self.state[i].pending.len() as u64;
        } else {
            let cutoff: i64 = t - timeout;
            let ghost keep = |p: i64| p > t - timeout;
            let mut gone: u64 = 0;
            let mut k: usize = 0;
            proof {
                reveal(Seq::filter);
                assert(w.pending.take(0).filter(keep) =~= Seq::<i64>::empty());
            }
            let len: usize = self.state[i].pending.len();
            while k < len
                invariant
                    k <= len,
                    i < self.state@.len(),
                    len == w.pending.len(),
                    self.state@[i as int].pending@ == w.pending,
                    cutoff == t - timeout,
                    keep == (|p: i64| p > t - timeout),
                    kept@ == w.pending.take(k as int).filter(keep),
                    gone == overdue(w.pending, cutoff as int, k as nat),
                    gone <= k,
                decreases len - k,
            {
                let p: i64 = self.state[i].pending[k];
                proof {
                    reveal(Seq::filter);
                    assert(w.pending.take(k + 1).drop_last() =~= w.pending.take(k as int));
                    assert(w.pending.take(k + 1).last() == p);
                }
                if p > cutoff {
                    kept.push(p);
                } else {
                    gone = gone + 1;
                }
                k += 1;
            }
            assert(w.pending.take(len as int) =~= w.pending);
            self.satellite_delivered = self.satellite_delivered + gone;
        }
        self.state[i].pending = kept;
        self.state[i].connected_since = since;
        assert(self.state@[i as int]@ =~= attended(w, grounded, t, ack_sec, timeout));
        assert(self@.state =~= before.state.update(
            i as int,
            attended(w, grounded, t, ack_sec, timeout),
        ));
    }

    /// Whether no balloon's contact began before the run did.
    pub open spec fn timed(self) -> bool {
        forall|i: int|
            0 <= i < self.state@.len() ==> ((#[trigger] self.state@[i]).connected_since matches Some(
                s,
            ) ==> 0 <= s)
    }

    /// Advances the run by one second, given which balloons have contact.
    /// Payloads go home by radio once contact has lasted `ack_sec` seconds,
    /// and by satellite after `timeout` seconds without.
    pub fn second(
        &mut self,
        ids: &Vec<u32>,
        grounded: &HashSet<u32>,
        t: i64,
        ack_sec: i64,
        timeout: i64,
    )
        requires
            balanced(old(self)@),
            old(self).timed(),
            ids@.len() == old(self).state@.len(),
            old(self).total_payloads + old(self).state@.len() <= u64::MAX,
            0 <= t,
            t + PAYLOAD_INTERVAL_SEC <= i64::MAX,
            t - timeout <= i64::MAX,
        ensures
            final(self)@ == second(old(self)@, ids@, grounded@, t, ack_sec, timeout),
            final(self).timed(),
            balanced(final(self)@),
    {
        broadcast use vstd::std_specs::hash::group_hash_axioms;

        let ghost a0 = self@;
        proof {
            lemma_waiting_made(a0.state, t, a0.state.len());
        }
        self.make(t);
        let ghost a = self@;
        proof {
            assert(a.state.len() == a0.state.len());
            assert(a.state.len() == self.state@.len() && a0.state.len() == old(self).state@.len());
            assert forall|j: int| 0 <= j < self.state@.len() implies ((
            #[trigger] self.state@[j]).connected_since matches Some(s) ==> 0 <= s) by {
                assert(a.state[j] == self.state@[j]@);
                assert(a0.state[j] == old(self).state@[j]@);
            }
        }
        let n: usize = self.state.len();
        let mut i: usize = 0;
        while i < n
            invariant
                i <= n,
                n == a.state.len(),
                n == self.state@.len(),
                ids@.len() == n,
                0 <= t,
                t - timeout <= i64::MAX,
                balanced(a),
                a.total <= u64::MAX,
                a.radio >= 0,
                a.satellite >= 0,
                self.timed(),
                self@ == all_turned(a, ids@, grounded@, t, ack_sec, timeout, i as nat),
            decreases n - i,
        {
            proof {
                lemma_turned_balanced(a, ids@, grounded@, t, ack_sec, timeout, i as nat);
                lemma_part_of_waiting(self@.state, self@.state.len(), i as int);
                assert(self@.state[i as int] == self.state@[i as int]@);
            }
            let ghost before = self.state@;
            let here: bool = grounded.contains(&ids[i]);
            self.turn(i, here, t, ack_sec, timeout);
            proof {
                assert(self@.state.len() == self.state@.len());
                assert(self.state@.len() == before.len());
                assert forall|j: int| 0 <= j < self.state@.len() implies ((
                #[trigger] self.state@[j]).connected_since matches Some(s) ==> 0 <= s) by {
                    assert(self@.state[j] == self.state@[j]@);
                    assert(before[j]@ == before.map_values(|s: BalloonState| s@)[j]);
                    assert(before[j].connected_since matches Some(s) ==> 0 <= s);
                }
            }
            i += 1;
        }
        proof {
            lemma_turned_balanced(a, ids@, grounded@, t, ack_sec, timeout, n as nat);
        }
    }

    /// The hundredfold share that went home by radio.
    pub fn pct_radio(&self) -> (r: Ratio)
        ensures
            r == stats::share(100 * self.radio_delivered as nat, self.total_payloads as nat),
    {
        percent(self.radio_delivered, self.total_payloads)
    }

    /// The hundredfold share that went home by satellite.
    pub fn pct_satellite(&self) -> (r: Ratio)
        ensures
            r == stats::share(100 * self.satellite_delivered as nat, self.total_payloads as nat),
    {
        percent(self.satellite_delivered, self.total_payloads)
    }
}

fn percent(n: u64, of: u64) -> (r: Ratio)
    ensures
        r == stats::share(100 * n as nat, of as nat),
{
    if of == 0 {
        Ratio { num: 0, den: 1 }
    } else {
        Ratio { num: 100 * (n as u128), den: of as u128 }
    }
}

proof fn lemma_part_of_waiting(state: Seq<Waiting>, k: nat, i: int)
    requires
        0 <= i < k <= state.len(),
    ensures
        state[i].pending.len() <= waiting(state, k),
    decreases k,
{
    if i < k - 1 {
        lemma_part_of_waiting(state, (k - 1) as nat, i);
    }
}

} // verus!
