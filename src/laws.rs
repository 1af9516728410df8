//! Properties that hold across the phases of a step.

use crate::engine::{
    column_sum_to, emission_spec, pays, row_bonds_to, row_score_to, score_to, sparse_row_to, sum, sum_to,
};
use crate::fixed::{div_spec, lemma_floor_div, mul_spec, ONE, U64_MAX};
use crate::pallet::Pallet;
use crate::step::{committed, pruned_row, sum_u64_to};
use vstd::prelude::*;

verus! {

proof fn lemma_normalized_prefix(v: Seq<i128>, w: Seq<i128>, t: int, k: int)
    requires
        t > 0,
        0 <= k <= v.len(),
        w.len() == v.len(),
        forall|i: int| 0 <= i < w.len() ==> w[i] == div_spec(v[i] as int, t),
    ensures
        t * sum_to(w, k) <= ONE * sum_to(v, k),
        ONE * sum_to(v, k) < t * (sum_to(w, k) + k) || k == 0,
    decreases k,
{
    if k > 0 {
        lemma_normalized_prefix(v, w, t, k - 1);
        let a = v[k - 1] * ONE as int;
        lemma_floor_div(a, t);
        assert(w[k - 1] == a / t);
        let (sw, sv) = (sum_to(w, k - 1), sum_to(v, k - 1));
        assert(t * sum_to(w, k) == t * sw + t * w[k - 1]) by (nonlinear_arith)
            requires sum_to(w, k) == sw + w[k - 1];
        assert(ONE * sum_to(v, k) == ONE * sv + a) by (nonlinear_arith)
            requires sum_to(v, k) == sv + v[k - 1], a == v[k - 1] * ONE as int;
        assert(t * (sum_to(w, k) + k) == t * (sw + (k - 1)) + t * w[k - 1] + t) by (nonlinear_arith)
            requires sum_to(w, k) == sw + w[k - 1];
        if k == 1 {
            assert(sw == 0 && sv == 0);
            assert(t * (sw + (k - 1)) == 0) by (nonlinear_arith)
                requires sw == 0, k == 1;
        }
    }
}

/// Normalizing entries by their total never overshoots one, and loses less
/// than one unit of precision per entry: so ranks, incentives and dividends
/// normalized by their totals sum to one up to that loss.
pub proof fn lemma_normalized_sum(v: Seq<i128>, w: Seq<i128>)
    requires
        sum(v) > 0,
        w.len() == v.len(),
        forall|i: int| 0 <= i < w.len() ==> w[i] == div_spec(v[i] as int, sum(v)),
    ensures
        sum(w) <= ONE,
        sum(w) > ONE - v.len(),
{
    let t = sum(v);
    let n = v.len() as int;
    lemma_normalized_prefix(v, w, t, n);
    if n == 0 {
        assert(sum(v) == 0);
    }
    assert(sum(w) <= ONE) by (nonlinear_arith)
        requires t * sum(w) <= ONE * t, t > 0;
    assert(sum(w) > ONE - n) by (nonlinear_arith)
        requires ONE * t < t * (sum(w) + n), t > 0;
}

/// Total tokens emitted to the first `k` entries.
pub open spec fn emitted_to(emission: i128, d: Seq<i128>, k: int) -> int
    decreases k,
{
    if k <= 0 || k > d.len() {
        0
    } else {
        emitted_to(emission, d, k - 1) + emission_spec(emission, d[k - 1])
    }
}

proof fn lemma_emitted_prefix(emission: i128, d: Seq<i128>, k: int)
    requires
        emission >= 0,
        0 <= k <= d.len(),
        forall|i: int| 0 <= i < d.len() ==> d[i] >= 0,
    ensures
        emitted_to(emission, d, k) * (ONE * ONE) <= emission * sum_to(d, k),
    decreases k,
{
    if k > 0 {
        lemma_emitted_prefix(emission, d, k - 1);
        let x = d[k - 1] as int;
        let m = mul_spec(emission as int, x);
        lemma_floor_div(emission * x, ONE as int);
        lemma_floor_div(m, ONE as int);
        let e = emission_spec(emission, d[k - 1]);
        assert(e * (ONE * ONE) <= emission * x) by (nonlinear_arith)
            requires ONE * e <= m, ONE * m <= emission * x, ONE > 0, e == m / ONE as int, m == (emission * x) / ONE as int;
        assert(emission * sum_to(d, k) == emission * sum_to(d, k - 1) + emission * x) by (nonlinear_arith)
            requires sum_to(d, k) == sum_to(d, k - 1) + x;
    }
}

/// Emission never overshoots the block's budget: where the normalized
/// dividends are non-negative and sum to at most one, the tokens emitted
/// sum to at most the emission.
pub proof fn lemma_emission_within_budget(emission: u64, d: Seq<i128>)
    requires
        forall|i: int| 0 <= i < d.len() ==> d[i] >= 0,
        sum(d) <= ONE,
    ensures
        emitted_to((emission * ONE as int) as i128, d, d.len() as int) <= emission,
{
    let e = emission * ONE as int;
    assert(e <= i128::MAX) by (nonlinear_arith)
        requires emission <= 0xffff_ffff_ffff_ffffu64, ONE == 0x8000_0000_0000_0000i128, e == emission * ONE as int;
    assert(e >= 0) by (nonlinear_arith)
        requires emission >= 0, ONE > 0, e == emission * ONE as int;
    lemma_emitted_prefix(e as i128, d, d.len() as int);
    let total = emitted_to(e as i128, d, d.len() as int);
    assert(e * sum(d) <= e * ONE) by (nonlinear_arith)
        requires e >= 0, sum(d) <= ONE;
    assert(total <= emission) by (nonlinear_arith)
        requires total * (ONE * ONE) <= e * sum(d), e * sum(d) <= e * ONE, e == emission * ONE as int, ONE > 0;
}

proof fn lemma_row_score_prefix(trust: bool, stake: i128, active: bool, i: int, ws: Seq<(u32, u32)>, e: (u32, u32), j: int, k: int)
    requires
        0 <= k <= ws.len(),
    ensures
        row_score_to(trust, stake, active, i, ws.push(e), j, k) == row_score_to(trust, stake, active, i, ws, j, k),
    decreases k,
{
    if k > 0 {
        lemma_row_score_prefix(trust, stake, active, i, ws, e, j, k - 1);
        assert(ws.push(e)[k - 1] == ws[k - 1]);
    }
}

proof fn lemma_self_weight_prefix(
    trust: bool,
    stake: Seq<i128>,
    active: Seq<bool>,
    weights: Seq<Seq<(u32, u32)>>,
    i: int,
    w: u32,
    j: int,
    rows: int,
)
    requires
        0 <= i < weights.len(),
        weights.len() <= u32::MAX + 1,
        0 <= rows,
    ensures
        score_to(trust, stake, active, weights.update(i, weights[i].push((i as u32, w))), j, rows)
            == score_to(trust, stake, active, weights, j, rows),
    decreases rows,
{
    let looped = weights.update(i, weights[i].push((i as u32, w)));
    if rows > 0 {
        lemma_self_weight_prefix(trust, stake, active, weights, i, w, j, rows - 1);
        let r = rows - 1;
        if r == i && rows <= stake.len() && rows <= active.len() && rows <= weights.len() {
            let ws = weights[i];
            let e = (i as u32, w);
            lemma_row_score_prefix(trust, stake[r], active[r], r, ws, e, j, ws.len() as int);
            assert(looped[r] == ws.push(e));
            assert(ws.push(e)[ws.len() as int] == e);
            assert(e.0 == i);
        }
    }
}

/// A weight that a participant sets on itself moves no rank and no trust:
/// adding one, of any size, leaves every participant's score as it was.
pub proof fn lemma_self_weight_ignored(
    trust: bool,
    stake: Seq<i128>,
    active: Seq<bool>,
    weights: Seq<Seq<(u32, u32)>>,
    i: int,
    w: u32,
    j: int,
)
    requires
        0 <= i < weights.len(),
        weights.len() <= u32::MAX + 1,
    ensures
        score_to(trust, stake, active, weights.update(i, weights[i].push((i as u32, w))), j, stake.len() as int)
            == score_to(trust, stake, active, weights, j, stake.len() as int),
{
    lemma_self_weight_prefix(trust, stake, active, weights, i, w, j, stake.len() as int);
}

proof fn lemma_pruned_row_zero(list: Seq<(u32, u64)>, prune: Seq<bool>, n: int, k: int, j: int)
    requires
        0 <= j < n,
        j < prune.len(),
        prune[j],
    ensures
        pruned_row(list, prune, n, k)[j] == 0,
        pruned_row(list, prune, n, k).len() == n,
    decreases k,
{
    if k > 0 && k <= list.len() {
        lemma_pruned_row_zero(list, prune, n, k - 1, j);
    }
}

/// Bonds held in a participant marked for pruning are left out of the bond
/// matrix the step starts from: every such entry is zero, and so is the
/// column's total.
pub proof fn lemma_pruned_target_excluded(p: Pallet, j: int)
    requires
        p.wf(),
        0 <= j < p.n(),
        p.neurons_to_prune[j],
    ensures
        forall|i: int| 0 <= i < p.n() ==> (#[trigger] p.dense_bonds()[i])[j] == 0,
        column_sum_to(p.dense_bonds(), j, p.n()) == 0,
{
    assert forall|i: int| 0 <= i < p.n() implies (#[trigger] p.dense_bonds()[i])[j] == 0 by {
        lemma_pruned_row_zero(p.neurons[i].bonds@, p.neurons_to_prune@, p.n(), p.neurons[i].bonds@.len() as int, j);
    }
    lemma_pruned_column_zero(p, j, p.n());
}

proof fn lemma_pruned_column_zero(p: Pallet, j: int, rows: int)
    requires
        p.wf(),
        0 <= j < p.n(),
        rows <= p.n(),
        forall|i: int| 0 <= i < p.n() ==> (#[trigger] p.dense_bonds()[i])[j] == 0,
    ensures
        column_sum_to(p.dense_bonds(), j, rows) == 0,
    decreases rows,
{
    if rows > 0 {
        lemma_pruned_column_zero(p, j, rows - 1);
        assert(p.dense_bonds()[rows - 1][j] == 0);
    }
}


proof fn lemma_unweighted_bond_kept(
    row: Seq<u64>,
    last: u64,
    stake: i128,
    active: bool,
    i: int,
    ws: Seq<(u32, u32)>,
    moving_average: i128,
    emission: i128,
    k: int,
    j: int,
)
    requires
        0 <= j < row.len(),
        forall|m: int| 0 <= m < ws.len() ==> (#[trigger] ws[m]).0 != j,
    ensures
        row_bonds_to(row, last, stake, active, i, ws, moving_average, emission, k).0.len() == row.len(),
        row_bonds_to(row, last, stake, active, i, ws, moving_average, emission, k).0[j] == row[j],
    decreases k,
{
    if k > 0 && k <= ws.len() {
        lemma_unweighted_bond_kept(row, last, stake, active, i, ws, moving_average, emission, k - 1, j);
        assert(ws[k - 1].0 != j);
    }
}

proof fn lemma_zero_bond_not_listed(row: Seq<u64>, totals: Seq<u128>, k: int, j: int)
    requires
        0 <= j < row.len(),
        row[j] == 0,
        k <= u32::MAX + 1,
    ensures
        forall|m: int| 0 <= m < sparse_row_to(row, totals, k).len() ==> (#[trigger] sparse_row_to(row, totals, k)[m]).0 != j,
    decreases k,
{
    if k > 0 && k <= row.len() && k <= totals.len() {
        lemma_zero_bond_not_listed(row, totals, k - 1, j);
        if pays(row[k - 1], totals[k - 1]) {
            let prev = sparse_row_to(row, totals, k - 1);
            assert(sparse_row_to(row, totals, k) == prev.push(((k - 1) as u32, row[k - 1])));
            assert(k - 1 != j);
            assert forall|m: int| 0 <= m < prev.len() + 1 implies (#[trigger] prev.push(((k - 1) as u32, row[k - 1]))[m]).0 != j by {
                if m < prev.len() {
                    assert(prev.push(((k - 1) as u32, row[k - 1]))[m] == prev[m]);
                }
            }
        }
    }
}

/// A bond in a participant marked for pruning does not survive into the
/// committed bonds of a holder that does not also weight that participant.
pub proof fn lemma_pruned_bond_dropped(p: Pallet, emission: u64, i: int, j: int)
    requires
        p.wf(),
        0 <= i < p.n(),
        0 <= j < p.n(),
        p.neurons_to_prune[j],
        forall|m: int| 0 <= m < p.neurons[i].weights@.len() ==> (#[trigger] p.neurons[i].weights@[m]).0 != j,
    ensures
        forall|m: int| 0 <= m < p.sparse_bonds(emission)[i].len() ==> (#[trigger] p.sparse_bonds(emission)[i][m]).0 != j,
{
    lemma_pruned_target_excluded(p, j);
    let start = p.dense_bonds()[i];
    lemma_pruned_row_zero(p.neurons[i].bonds@, p.neurons_to_prune@, p.n(), p.neurons[i].bonds@.len() as int, j);
    let ws = p.weight_rows()[i];
    assert(ws == p.neurons[i].weights@);
    lemma_unweighted_bond_kept(
        start,
        0,
        p.normalized_stake()[i],
        p.active_spec()[i],
        i,
        ws,
        p.moving_average_bits() as i128,
        (emission * ONE as int) as i128,
        ws.len() as int,
        j,
    );
    let after = p.bonds_after(emission)[i];
    assert(after[j] == 0);
    lemma_zero_bond_not_listed(after, p.bond_totals_spec(emission), p.n(), j);
}


/// Committing a fraction scales it to the `u64` range and rounds down.
pub proof fn lemma_committed_value(x: i128)
    ensures
        committed(x) == (x * U64_MAX as int) / (ONE as int),
{
    let one = ONE as int;
    let m = U64_MAX as int;
    let a = x * m;
    assert(x * (m * one) == a * one) by (nonlinear_arith)
        requires a == x * m;
    lemma_floor_div(a * one, one);
    let q = (a * one) / one;
    assert(q == a) by (nonlinear_arith)
        requires one * q <= a * one, a * one < one * q + one, one > 0;
}

/// Total of the first `k` fractions as committed.
pub open spec fn committed_sum_to(s: Seq<i128>, k: int) -> int
    decreases k,
{
    if k <= 0 || k > s.len() {
        0
    } else {
        committed_sum_to(s, k - 1) + committed(s[k - 1])
    }
}

proof fn lemma_committed_prefix(s: Seq<i128>, k: int)
    requires
        0 <= k <= s.len(),
    ensures
        ONE * committed_sum_to(s, k) <= U64_MAX * sum_to(s, k),
        U64_MAX * sum_to(s, k) < ONE * (committed_sum_to(s, k) + k) || k == 0,
    decreases k,
{
    if k > 0 {
        lemma_committed_prefix(s, k - 1);
        let one = ONE as int;
        let m = U64_MAX as int;
        let x = s[k - 1] as int;
        lemma_committed_value(s[k - 1]);
        lemma_floor_div(x * m, one);
        let c = committed(s[k - 1]);
        let (cs, ss) = (committed_sum_to(s, k - 1), sum_to(s, k - 1));
        assert(m * sum_to(s, k) == m * ss + x * m) by (nonlinear_arith)
            requires sum_to(s, k) == ss + x;
        assert(one * committed_sum_to(s, k) == one * cs + one * c) by (nonlinear_arith)
            requires committed_sum_to(s, k) == cs + c;
        assert(one * (committed_sum_to(s, k) + k) == one * (cs + (k - 1)) + one * c + one) by (nonlinear_arith)
            requires committed_sum_to(s, k) == cs + c;
        if k == 1 {
            assert(one * (cs + (k - 1)) == 0) by (nonlinear_arith)
                requires cs == 0, k == 1;
            assert(m * ss == 0) by (nonlinear_arith)
                requires ss == 0;
        }
    }
}

/// Fractions that sum to one up to a loss of one unit each stay, once
/// committed, within three units each below the full `u64` scale, and never
/// above it.
pub proof fn lemma_committed_sum(s: Seq<i128>)
    requires
        ONE - s.len() < sum(s) <= ONE,
    ensures
        U64_MAX - 3 * s.len() < committed_sum_to(s, s.len() as int) <= U64_MAX,
{
    let n = s.len() as int;
    lemma_committed_prefix(s, n);
    let c = committed_sum_to(s, n);
    let t = sum(s);
    let one = ONE as int;
    let m = U64_MAX as int;
    assert(m == 2 * one - 1);
    if n == 0 {
        assert(sum(s) == 0);
    } else {
        assert(c <= m) by (nonlinear_arith)
            requires one * c <= m * t, t <= one, m >= 0, one > 0;
        assert(m - 3 * n < c) by (nonlinear_arith)
            requires m * t < one * (c + n), t > one - n, m == 2 * one - 1, one > 0, n >= 1;
    }
}

/// Sums of `u64` fields that are the committed fractions agree.
pub proof fn lemma_committed_fields(t: Seq<u64>, s: Seq<i128>, k: int)
    requires
        t.len() == s.len(),
        0 <= k <= s.len(),
        forall|i: int| 0 <= i < s.len() ==> t[i] == committed(s[i]),
    ensures
        sum_u64_to(t, k) == committed_sum_to(s, k),
    decreases k,
{
    if k > 0 {
        lemma_committed_fields(t, s, k - 1);
    }
}


proof fn lemma_emitted_lower_prefix(emission: u64, d: Seq<i128>, k: int)
    requires
        0 <= k <= d.len(),
    ensures
        emission * sum_to(d, k) < ONE * (emitted_to((emission * ONE as int) as i128, d, k) + k) || k == 0,
    decreases k,
{
    if k > 0 {
        lemma_emitted_lower_prefix(emission, d, k - 1);
        let one = ONE as int;
        let e = emission as int;
        let b = e * one;
        assert(0 <= b <= i128::MAX) by (nonlinear_arith)
            requires 0 <= e <= 0xffff_ffff_ffff_ffffu64, one == 0x8000_0000_0000_0000i128, b == e * one;
        let x = d[k - 1] as int;
        assert(b * x == (e * x) * one) by (nonlinear_arith)
            requires b == e * one;
        lemma_floor_div((e * x) * one, one);
        let q = ((e * x) * one) / one;
        assert(q == e * x) by (nonlinear_arith)
            requires one * q <= (e * x) * one, (e * x) * one < one * q + one, one > 0;
        assert(mul_spec(b, x) == e * x);
        lemma_floor_div(e * x, one);
        let c = emission_spec(b as i128, d[k - 1]);
        assert(c == (e * x) / one);
        let (cs, ss) = (emitted_to(b as i128, d, k - 1), sum_to(d, k - 1));
        assert(e * sum_to(d, k) == e * ss + e * x) by (nonlinear_arith)
            requires sum_to(d, k) == ss + x;
        assert(one * (emitted_to(b as i128, d, k) + k) == one * (cs + (k - 1)) + one * c + one) by (nonlinear_arith)
            requires emitted_to(b as i128, d, k) == cs + c;
        if k == 1 {
            assert(one * (cs + (k - 1)) == 0) by (nonlinear_arith)
                requires cs == 0, k == 1;
            assert(e * ss == 0) by (nonlinear_arith)
                requires ss == 0;
        }
    }
}

/// Where the normalized dividends sum to one up to a loss of one unit
/// each, the tokens emitted fall short of the emission by less than three
/// per participant.
pub proof fn lemma_emission_shortfall(emission: u64, d: Seq<i128>)
    requires
        ONE - d.len() < sum(d),
    ensures
        emission - 3 * d.len() < emitted_to((emission * ONE as int) as i128, d, d.len() as int),
{
    let n = d.len() as int;
    lemma_emitted_lower_prefix(emission, d, n);
    let c = emitted_to((emission * ONE as int) as i128, d, n);
    let t = sum(d);
    let one = ONE as int;
    let e = emission as int;
    if n == 0 {
        assert(sum(d) == 0);
    } else {
        assert(e - 3 * n < c) by (nonlinear_arith)
            requires e * t < one * (c + n), t > one - n, 0 <= e < 2 * one, one > 0, n >= 1;
    }
}

} // verus!
