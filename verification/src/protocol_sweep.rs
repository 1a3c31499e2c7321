//! The protocol sweep: how delivery depends on how dense the mesh is.
use vstd::prelude::*;
use vstd::string::*;

use crate::sweep;
use crate::table::SortKey;
use crate::text;

verus! {

/// One cell of the grid. The coefficient is a bit pattern.
#[derive(Debug, Clone, Copy, PartialEq, Eq, Structural)]
pub struct Combo {
    pub horizon_coeff: u64,
    pub n_balloons: u32,
}

/// A seed of its own for every cell, the same in every run.
pub fn seed_for_combo(combo: &Combo) -> (h: u64)
    ensures
        h == sweep::mixed(
            sweep::mixed(0xcbf2_9ce4_8422_2325, combo.horizon_coeff),
            combo.n_balloons as u64,
        ),
{
    let h: u64 = sweep::mix(0xcbf2_9ce4_8422_2325, combo.horizon_coeff);
    sweep::mix(h, combo.n_balloons as u64)
}

/// The cell at a place of the grid: the number of balloons changes faster.
pub open spec fn cell(coeffs: Seq<u64>, counts: Seq<u32>, i: int) -> Combo {
    Combo {
        horizon_coeff: coeffs[i / (counts.len() as int)],
        n_balloons: counts[i % (counts.len() as int)],
    }
}

/// Every cell of the grid. Coefficients are bit patterns.
pub fn combos(coeffs: &Vec<u64>, counts: &Vec<u32>) -> (out: Vec<Combo>)
    ensures
        out@ == Seq::new(coeffs@.len() * counts@.len(), |i: int| cell(coeffs@, counts@, i)),
{
    let ghost n = counts@.len() as int;
    let mut out: Vec<Combo> = Vec::new();
    let mut a: usize = 0;
    assert(0 * n == 0);
    while a < coeffs.len()
        invariant
            a <= coeffs@.len(),
            n == counts@.len(),
            out@.len() == a * n,
            forall|i: int| 0 <= i < out@.len() ==> #[trigger] out@[i] == cell(coeffs@, counts@, i),
        decreases coeffs@.len() - a,
    {
        let mut b: usize = 0;
        while b < counts.len()
            invariant
                a < coeffs@.len(),
                b <= n,
                n == counts@.len(),
                out@.len() == a * n + b,
                forall|i: int|
                    0 <= i < out@.len() ==> #[trigger] out@[i] == cell(coeffs@, counts@, i),
            decreases n - b,
        {
            proof {
                vstd::arithmetic::div_mod::lemma_fundamental_div_mod_converse(
                    a * n + b,
                    n,
                    a as int,
                    b as int,
                );
            }
            out.push(Combo { horizon_coeff: coeffs[a], n_balloons: counts[b] });
            b += 1;
        }
        assert(a * n + n == (a + 1) * n) by (nonlinear_arith);
        a += 1;
    }
    assert(out@ =~= Seq::new(
        coeffs@.len() * counts@.len(),
        |i: int| cell(coeffs@, counts@, i),
    ));
    out
}

/// The name of a cell's result file. `coeff` is the coefficient with two
/// places behind the point.
pub fn combo_file_name(combo: &Combo, coeff: &str) -> (s: String)
    ensures
        s@ == "h"@ + sweep::pointless(coeff@) + "_n"@ + text::decimal(combo.n_balloons as nat)
            + ".json"@,
{
    let mut s: String = "h".to_owned();
    sweep::push_pointless(&mut s, coeff);
    s.append("_n");
    text::push_decimal(&mut s, combo.n_balloons as u64);
    s.append(".json");
    s
}

/// One result. Values that are no whole numbers come written out.
#[derive(Debug)]
pub struct ResultRow {
    pub horizon_coeff: String,
    pub n_balloons: u32,
    pub mean_degree: String,
    pub grounded_pct: String,
    pub believed_grounded_pct: String,
    pub originated: u64,
    pub delivered: u64,
    pub satellite: u64,
    pub acked_count: u64,
    pub ack_lost_count: u64,
    pub dropped_loop: u64,
    pub dropped_ttl: u64,
    pub completion_rate: String,
    pub mean_tower_adjacent: String,
    pub delivery_ceiling_per_round: String,
}

impl ResultRow {
    /// The row as a line of comma-separated values.
    pub fn line(&self) -> (s: String)
        ensures
            s@ == self.horizon_coeff@ + ","@ + text::decimal(self.n_balloons as nat) + ","@
                + self.mean_degree@ + ","@ + self.grounded_pct@ + ","@
                + self.believed_grounded_pct@ + ","@ + text::decimal(self.originated as nat) + ","@
                + text::decimal(self.delivered as nat) + ","@ + text::decimal(
                self.satellite as nat,
            ) + ","@ + text::decimal(self.acked_count as nat) + ","@ + text::decimal(
                self.ack_lost_count as nat,
            ) + ","@ + text::decimal(self.dropped_loop as nat) + ","@ + text::decimal(
                self.dropped_ttl as nat,
            ) + ","@ + self.completion_rate@ + ","@ + self.mean_tower_adjacent@ + ","@
                + self.delivery_ceiling_per_round@,
    {
        let mut s: String = text::copy(&self.horizon_coeff);
        s.append(",");
        text::push_decimal(&mut s, self.n_balloons as u64);
        s.append(",");
        s.append(self.mean_degree.as_str());
        s.append(",");
        s.append(self.grounded_pct.as_str());
        s.append(",");
        s.append(self.believed_grounded_pct.as_str());
        s.append(",");
        text::push_decimal(&mut s, self.originated);
        s.append(",");
        text::push_decimal(&mut s, self.delivered);
        s.append(",");
        text::push_decimal(&mut s, self.satellite);
        s.append(",");
        text::push_decimal(&mut s, self.acked_count);
        s.append(",");
        text::push_decimal(&mut s, self.ack_lost_count);
        s.append(",");
        text::push_decimal(&mut s, self.dropped_loop);
        s.append(",");
        text::push_decimal(&mut s, self.dropped_ttl);
        s.append(",");
        s.append(self.completion_rate.as_str());
        s.append(",");
        s.append(self.mean_tower_adjacent.as_str());
        s.append(",");
        s.append(self.delivery_ceiling_per_round.as_str());
        s
    }

    /// What the row is ordered by, given the rank of its coefficient.
    pub fn key(&self, coeff_rank: u64) -> (k: SortKey)
        ensures
            k == (SortKey { first: coeff_rank, second: self.n_balloons as u64, third: 0 }),
    {
        SortKey { first: coeff_rank, second: self.n_balloons as u64, third: 0 }
    }
}

} // verus!
