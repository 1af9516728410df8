//! The consensus engine: from stake, weights and bonds to ranks, trust,
//! consensus, incentive, dividends and emission. Each phase is a function of
//! its own, and each returns `None` where a fixed-point operation would leave
//! the representable range, so that the caller can abort the whole step.

use crate::fixed::{
    checked_div, checked_mul, div_spec, exp, exp_of, fits, from_u64, lemma_div_shrinks, lemma_fraction_bounds, lemma_scale_within,
    lemma_mul_nonneg, log2,
    log2_of, mul_spec, to_u64, ONE, U32_MAX, U64_MAX,
};
use vstd::prelude::*;

verus! {

/// Sum of the first `k` entries.
pub open spec fn sum_to(s: Seq<i128>, k: int) -> int
    decreases k,
{
    if k <= 0 || k > s.len() {
        0
    } else {
        sum_to(s, k - 1) + s[k - 1]
    }
}

pub open spec fn sum(s: Seq<i128>) -> int {
    sum_to(s, s.len() as int)
}

/// A participant is active while fewer than `cutoff` blocks have passed since
/// it last set weights.
pub open spec fn is_active_spec(block: u64, last_update: u64, cutoff: u64) -> bool {
    block - last_update < cutoff
}

pub fn is_active(block: u64, last_update: u64, cutoff: u64) -> (r: bool)
    ensures
        r == is_active_spec(block, last_update, cutoff),
{
    if last_update >= block {
        last_update > block || cutoff > 0
    } else {
        block - last_update < cutoff
    }
}

/// The priority after one step: raised by the integer part of
/// `log2(stake + 1)`.
pub open spec fn priority_spec(priority: u64, stake: u64) -> Option<u64> {
    if stake == U64_MAX {
        None
    } else {
        match log2_of(((stake + 1) * ONE) as i128) {
            Some(l) => if l >= 0 && priority + l as int / (ONE as int) <= U64_MAX {
                Some((priority + l as int / (ONE as int)) as u64)
            } else {
                None
            },
            None => None,
        }
    }
}

pub fn next_priority(priority: u64, stake: u64) -> (r: Option<u64>)
    ensures
        r == priority_spec(priority, stake),
        stake == 0 ==> r == Some(priority),
{
    if stake == U64_MAX {
        return None;
    }
    let x = from_u64(stake + 1);
    match log2(x) {
        Some(l) => {
            if l < 0 {
                return None;
            }
            let bump = to_u64(l);
            priority.checked_add(bump)
        },
        None => None,
    }
}

/// Tokens staked on the active participants among the first `k`.
pub open spec fn active_stake_to(stake: Seq<u64>, active: Seq<bool>, k: int) -> int
    decreases k,
{
    if k <= 0 || k > stake.len() || k > active.len() {
        0
    } else {
        active_stake_to(stake, active, k - 1) + if active[k - 1] { stake[k - 1] as int } else { 0 }
    }
}

pub open spec fn active_stake(stake: Seq<u64>, active: Seq<bool>) -> int {
    active_stake_to(stake, active, stake.len() as int)
}

/// Normalized stake bits: the share of the active stake, or the raw stake
/// where no stake is active.
pub open spec fn normalized_stake_spec(stake: u64, total_active: int) -> int {
    if total_active == 0 {
        stake * ONE as int
    } else {
        div_spec(stake * ONE as int, total_active * ONE as int)
    }
}

/// Every stake normalized by the total active stake.
pub open spec fn normalized_stakes(stake: Seq<u64>, active: Seq<bool>) -> Seq<i128> {
    Seq::new(stake.len(), |i: int| normalized_stake_spec(stake[i], active_stake(stake, active)) as i128)
}

/// The active stake, counted as each participant is reached, leaves the
/// fixed-point range.
pub open spec fn active_stake_overflows(stake: Seq<u64>, active: Seq<bool>) -> bool {
    exists|k: int| 0 < k <= stake.len() && !fits(#[trigger] active_stake_to(stake, active, k) * ONE as int)
}

/// The normalized active stake, counted as each participant is reached,
/// leaves the fixed-point range.
pub open spec fn normalized_total_overflows(stake: Seq<u64>, active: Seq<bool>) -> bool {
    exists|k: int| 0 < k <= stake.len() && !fits(#[trigger] active_sum_to(normalized_stakes(stake, active), active, k))
}

/// Sum of the first `k` entries of `s` that belong to active participants.
pub open spec fn active_sum_to(s: Seq<i128>, active: Seq<bool>, k: int) -> int
    decreases k,
{
    if k <= 0 || k > s.len() || k > active.len() {
        0
    } else {
        active_sum_to(s, active, k - 1) + if active[k - 1] { s[k - 1] as int } else { 0 }
    }
}

/// Normalizes each stake by the total active stake. Returns the normalized
/// stakes and their sum over the active participants.
pub fn normalize_stake(stake: &Vec<u64>, active: &Vec<bool>) -> (r: Option<(Vec<i128>, i128)>)
    requires
        stake.len() == active.len(),
    ensures
        r.is_some() ==> ({
            let (s, t) = r.unwrap();
            &&& s.len() == stake.len()
            &&& forall|i: int| 0 <= i < s.len() ==> s[i] == normalized_stake_spec(stake[i], active_stake(stake@, active@))
            &&& forall|i: int| 0 <= i < s.len() ==> s[i] >= 0
            &&& t == active_sum_to(s@, active@, s.len() as int)
        }),
        r.is_none() <==> active_stake_overflows(stake@, active@) || normalized_total_overflows(stake@, active@),
        (forall|i: int| 0 <= i < stake.len() ==> stake[i] == 0) ==> r.is_some(),
{
    let n = stake.len();
    let mut total: i128 = 0;
    let mut i: usize = 0;
    while i < n
        invariant
            n == stake.len(),
            n == active.len(),
            i <= n,
            total == active_stake_to(stake@, active@, i as int) * ONE as int,
            (forall|k: int| 0 <= k < n ==> stake[k] == 0) ==> total == 0,
            forall|k: int| 0 < k <= i ==> fits(#[trigger] active_stake_to(stake@, active@, k) * ONE as int),
        decreases n - i,
    {
        if active[i] {
            let x = from_u64(stake[i]);
            match total.checked_add(x) {
                Some(t) => {
                    total = t;
                },
                None => {
                    assert(!fits(active_stake_to(stake@, active@, i as int + 1) * ONE as int));
                    return None;
                },
            }
        }
        assert(active_stake_to(stake@, active@, i as int + 1) * ONE as int == total);
        i = i + 1;
    }
    assert(!active_stake_overflows(stake@, active@));
    proof {
        lemma_active_stake_nonneg(stake@, active@, n as int);
    }
    let mut normalized: Vec<i128> = Vec::new();
    let mut total_normalized: i128 = 0;
    let mut i: usize = 0;
    while i < n
        invariant
            n == stake.len(),
            n == active.len(),
            i <= n,
            total == active_stake(stake@, active@) * ONE as int,
            active_stake(stake@, active@) >= 0,
            normalized.len() == i,
            forall|k: int| 0 <= k < i ==> normalized[k] == normalized_stake_spec(stake[k], active_stake(stake@, active@)),
            forall|k: int| 0 <= k < i ==> normalized[k] >= 0,
            forall|k: int| 0 <= k < i ==> normalized[k] == normalized_stakes(stake@, active@)[k],
            forall|k: int| 0 < k <= i ==> fits(#[trigger] active_sum_to(normalized_stakes(stake@, active@), active@, k)),
            !active_stake_overflows(stake@, active@),
            total_normalized == active_sum_to(normalized@, active@, i as int),
            (forall|k: int| 0 <= k < n ==> stake[k] == 0) ==> total_normalized == 0,
        decreases n - i,
    {
        let x = from_u64(stake[i]);
        let s = if total == 0 {
            x
        } else {
            proof {
                let a = active_stake(stake@, active@);
                assert(total > 0) by (nonlinear_arith)
                    requires total == a * ONE as int, a >= 0, total != 0, ONE > 0;
                assert(a >= 1);
                assert(a * ONE as int >= ONE) by (nonlinear_arith)
                    requires a >= 1, ONE > 0;
                lemma_div_shrinks(x as int, total as int);
            }
            match checked_div(x, total) {
                Some(q) => q,
                None => {
                    return None;
                },
            }
        };
        let ghost before = normalized@;
        normalized.push(s);
        proof {
            lemma_active_sum_prefix(before, normalized@, active@, i as int);
            lemma_active_sum_agree(normalized@, normalized_stakes(stake@, active@), active@, i as int + 1);
        }
        if active[i] {
            match total_normalized.checked_add(s) {
                Some(t) => {
                    total_normalized = t;
                },
                None => {
                    assert(!fits(active_sum_to(normalized_stakes(stake@, active@), active@, i as int + 1)));
                    return None;
                },
            }
        }
        assert(fits(active_sum_to(normalized_stakes(stake@, active@), active@, i as int + 1)));
        i = i + 1;
    }
    Some((normalized, total_normalized))
}

proof fn lemma_active_stake_nonneg(stake: Seq<u64>, active: Seq<bool>, k: int)
    ensures
        active_stake_to(stake, active, k) >= 0,
    decreases k,
{
    if k > 0 {
        lemma_active_stake_nonneg(stake, active, k - 1);
    }
}

proof fn lemma_active_sum_agree(a: Seq<i128>, b: Seq<i128>, active: Seq<bool>, k: int)
    requires
        0 <= k <= a.len(),
        k <= b.len(),
        forall|j: int| 0 <= j < k ==> a[j] == b[j],
    ensures
        active_sum_to(a, active, k) == active_sum_to(b, active, k),
    decreases k,
{
    if k > 0 {
        lemma_active_sum_agree(a, b, active, k - 1);
    }
}

proof fn lemma_active_sum_prefix(a: Seq<i128>, b: Seq<i128>, active: Seq<bool>, k: int)
    requires
        0 <= k <= a.len(),
        a.len() < b.len(),
        forall|j: int| 0 <= j < a.len() ==> a[j] == b[j],
    ensures
        active_sum_to(a, active, k) == active_sum_to(b, active, k),
    decreases k,
{
    if k > 0 {
        lemma_active_sum_prefix(a, b, active, k - 1);
    }
}


/// Bits of a quantized weight as a fraction of full scale.
pub open spec fn weight_fraction(w: u32) -> int {
    div_spec(w * ONE as int, U32_MAX * ONE as int)
}

/// Whether the weight entry `e` of participant `i` moves scores: the source
/// holds stake, is active, and does not point at itself.
pub open spec fn scores_edge(stake: i128, active: bool, i: int, e: (u32, u32)) -> bool {
    stake != 0 && active && e.0 != i
}

/// What one weight entry adds to its target: stake times weight for rank,
/// the stake alone for trust.
pub open spec fn edge_score(trust: bool, stake: i128, e: (u32, u32)) -> int {
    if trust {
        stake as int
    } else {
        mul_spec(stake as int, weight_fraction(e.1))
    }
}

/// What the first `k` weight entries of participant `i` add to `j`.
pub open spec fn row_score_to(trust: bool, stake: i128, active: bool, i: int, ws: Seq<(u32, u32)>, j: int, k: int) -> int
    decreases k,
{
    if k <= 0 || k > ws.len() {
        0
    } else {
        row_score_to(trust, stake, active, i, ws, j, k - 1) + if ws[k - 1].0 == j && scores_edge(stake, active, i, ws[k - 1]) {
            edge_score(trust, stake, ws[k - 1])
        } else {
            0
        }
    }
}

/// The rank (or trust) that the first `rows` participants give to `j`.
pub open spec fn score_to(trust: bool, stake: Seq<i128>, active: Seq<bool>, weights: Seq<Seq<(u32, u32)>>, j: int, rows: int) -> int
    decreases rows,
{
    if rows <= 0 || rows > stake.len() || rows > active.len() || rows > weights.len() {
        0
    } else {
        score_to(trust, stake, active, weights, j, rows - 1) + row_score_to(
            trust,
            stake[rows - 1],
            active[rows - 1],
            rows - 1,
            weights[rows - 1],
            j,
            weights[rows - 1].len() as int,
        )
    }
}

/// The rank and the trust of `x`, after the first `k` weight entries of
/// participant `i`, both fit.
pub open spec fn partial_scores_fit(stake: Seq<i128>, active: Seq<bool>, weights: Seq<Seq<(u32, u32)>>, x: int, i: int, k: int) -> bool {
    &&& fits(score_to(false, stake, active, weights, x, i) + row_score_to(false, stake[i], active[i], i, weights[i], x, k))
    &&& fits(score_to(true, stake, active, weights, x, i) + row_score_to(true, stake[i], active[i], i, weights[i], x, k))
}

/// Some rank or trust, counted edge by edge, leaves the fixed-point range.
pub open spec fn scores_overflow(stake: Seq<i128>, active: Seq<bool>, weights: Seq<Seq<(u32, u32)>>) -> bool {
    exists|i: int, k: int, x: int|
        0 <= i < weights.len() && 0 < k <= weights[i].len() && 0 <= x < weights.len()
            && !#[trigger] partial_scores_fit(stake, active, weights, x, i, k)
}

pub open spec fn targets_in_range<W>(rows: Seq<Seq<(u32, W)>>, n: int) -> bool {
    forall|i: int, k: int| 0 <= i < rows.len() && 0 <= k < rows[i].len() ==> (#[trigger] rows[i][k]).0 < n
}

/// Rank and trust before normalization: each participant's sum of what the
/// weight entries pointing at it add.
pub fn accumulate_scores(stake: &Vec<i128>, active: &Vec<bool>, weights: &Vec<Vec<(u32, u32)>>) -> (r: Option<(Vec<i128>, Vec<i128>)>)
    requires
        stake.len() == active.len(),
        stake.len() == weights.len(),
        targets_in_range(rows_of(weights@), stake.len() as int),
    ensures
        r.is_some() ==> ({
            let (rank, trust) = r.unwrap();
            &&& rank.len() == stake.len()
            &&& trust.len() == stake.len()
            &&& forall|j: int| 0 <= j < rank.len() ==> rank[j] == score_to(false, stake@, active@, rows_of(weights@), j, stake.len() as int)
            &&& forall|j: int| 0 <= j < trust.len() ==> trust[j] == score_to(true, stake@, active@, rows_of(weights@), j, stake.len() as int)
        }),
        r.is_none() <==> scores_overflow(stake@, active@, rows_of(weights@)),
        (forall|i: int| 0 <= i < stake.len() ==> stake[i] == 0) ==> r.is_some() && ({
            let (rank, trust) = r.unwrap();
            forall|j: int| 0 <= j < rank.len() ==> rank[j] == 0 && trust[j] == 0
        }),
{
    let n = stake.len();
    let full = from_u64(U32_MAX);
    let mut rank: Vec<i128> = Vec::new();
    let mut trust: Vec<i128> = Vec::new();
    let mut j: usize = 0;
    while j < n
        invariant
            j <= n,
            rank.len() == j,
            trust.len() == j,
            forall|x: int| 0 <= x < j ==> rank[x] == 0 && trust[x] == 0,
        decreases n - j,
    {
        rank.push(0);
        trust.push(0);
        j = j + 1;
    }
    let mut i: usize = 0;
    while i < n
        invariant
            n == stake.len(),
            n == active.len(),
            n == weights.len(),
            targets_in_range(rows_of(weights@), n as int),
            full == U32_MAX * ONE as int,
            i <= n,
            rank.len() == n,
            trust.len() == n,
            forall|x: int| 0 <= x < n ==> rank[x] == score_to(false, stake@, active@, rows_of(weights@), x, i as int),
            forall|x: int| 0 <= x < n ==> trust[x] == score_to(true, stake@, active@, rows_of(weights@), x, i as int),
            (forall|x: int| 0 <= x < n ==> stake[x] == 0) ==> forall|x: int| 0 <= x < n ==> rank[x] == 0 && trust[x] == 0,
            forall|i2: int, k2: int, x: int|
                0 <= i2 < i && 0 < k2 <= rows_of(weights@)[i2].len() && 0 <= x < n
                    ==> #[trigger] partial_scores_fit(stake@, active@, rows_of(weights@), x, i2, k2),
        decreases n - i,
    {
        let s = stake[i];
        let row = &weights[i];
        let m = row.len();
        let mut k: usize = 0;
        while k < m
            invariant
                n == stake.len(),
                n == active.len(),
                n == weights.len(),
                i < n,
                s == stake[i as int],
                row@ == weights[i as int]@,
                m == row.len(),
                targets_in_range(rows_of(weights@), n as int),
                full == U32_MAX * ONE as int,
                k <= m,
                rank.len() == n,
                trust.len() == n,
                forall|x: int| 0 <= x < n ==> rank[x] == score_to(false, stake@, active@, rows_of(weights@), x, i as int)
                    + row_score_to(false, s, active[i as int], i as int, row@, x, k as int),
                forall|x: int| 0 <= x < n ==> trust[x] == score_to(true, stake@, active@, rows_of(weights@), x, i as int)
                    + row_score_to(true, s, active[i as int], i as int, row@, x, k as int),
                (forall|x: int| 0 <= x < n ==> stake[x] == 0) ==> forall|x: int| 0 <= x < n ==> rank[x] == 0 && trust[x] == 0,
                forall|i2: int, k2: int, x: int|
                    ((0 <= i2 < i && 0 < k2 <= rows_of(weights@)[i2].len()) || (i2 == i && 0 < k2 <= k)) && 0 <= x < n
                        ==> #[trigger] partial_scores_fit(stake@, active@, rows_of(weights@), x, i2, k2),
            decreases m - k,
        {
            let e = row[k];
            assert(e.0 < n) by {
                assert(rows_of(weights@)[i as int][k as int] == e);
            }
            let t = e.0 as usize;
            let ghost wr = rows_of(weights@);
            assert(wr[i as int] == row@);
            if s != 0 && active[i] && t != i {
                proof {
                    lemma_fraction_bounds(e.1 as int, U32_MAX as int, 0);
                }
                let w = match checked_div(from_u64(e.1 as u64), full) {
                    Some(w) => w,
                    None => {
                        return None;
                    },
                };
                proof {
                    lemma_scale_within(s as int, w as int);
                }
                let inc = match checked_mul(s, w) {
                    Some(v) => v,
                    None => {
                        return None;
                    },
                };
                let nr = match rank[t].checked_add(inc) {
                    Some(v) => v,
                    None => {
                        assert(!partial_scores_fit(stake@, active@, wr, t as int, i as int, k as int + 1));
                        return None;
                    },
                };
                let nt = match trust[t].checked_add(s) {
                    Some(v) => v,
                    None => {
                        assert(!partial_scores_fit(stake@, active@, wr, t as int, i as int, k as int + 1));
                        return None;
                    },
                };
                rank.set(t, nr);
                trust.set(t, nt);
            }
            assert forall|x: int| 0 <= x < n implies #[trigger] partial_scores_fit(stake@, active@, wr, x, i as int, k as int + 1) by {
                assert(rank[x] == score_to(false, stake@, active@, wr, x, i as int)
                    + row_score_to(false, s, active[i as int], i as int, row@, x, k as int + 1));
                assert(trust[x] == score_to(true, stake@, active@, wr, x, i as int)
                    + row_score_to(true, s, active[i as int], i as int, row@, x, k as int + 1));
            }
            k = k + 1;
        }
        i = i + 1;
    }
    Some((rank, trust))
}


/// Bits of the bond increment along a weight entry: rank increment times the
/// block's emission, zero for an inactive source.
pub open spec fn bond_increment(stake: i128, active: bool, w: u32, emission: i128) -> int {
    if active {
        mul_spec(mul_spec(stake as int, weight_fraction(w)), emission as int)
    } else {
        0
    }
}

/// The new bond: the moving average of the old bond and the increment,
/// rounded down to whole tokens.
pub open spec fn bond_average(moving_average: i128, prev: u64, inc: int) -> int {
    (mul_spec(moving_average as int, prev * ONE as int) + mul_spec(ONE - moving_average, inc)) / (ONE as int)
}

pub open spec fn abs_diff(a: int, b: int) -> int {
    if a >= b { a - b } else { b - a }
}

/// The bond row of participant `i`, and the size of the last bond change,
/// after its first `k` weight entries.
pub open spec fn row_bonds_to(
    row: Seq<u64>,
    last: u64,
    stake: i128,
    active: bool,
    i: int,
    ws: Seq<(u32, u32)>,
    moving_average: i128,
    emission: i128,
    k: int,
) -> (Seq<u64>, u64)
    decreases k,
{
    if k <= 0 || k > ws.len() {
        (row, last)
    } else {
        let (r, l) = row_bonds_to(row, last, stake, active, i, ws, moving_average, emission, k - 1);
        let e = ws[k - 1];
        if stake != 0 && e.0 != i && e.0 < r.len() {
            let new = bond_average(moving_average, r[e.0 as int], bond_increment(stake, active, e.1, emission));
            (r.update(e.0 as int, new as u64), abs_diff(new, r[e.0 as int] as int) as u64)
        } else {
            (r, l)
        }
    }
}

/// The size of the last bond change among the first `rows` participants.
pub open spec fn last_purchase_to(
    stake: Seq<i128>,
    active: Seq<bool>,
    weights: Seq<Seq<(u32, u32)>>,
    bonds: Seq<Seq<u64>>,
    moving_average: i128,
    emission: i128,
    rows: int,
) -> u64
    decreases rows,
{
    if rows <= 0 || rows > stake.len() || rows > active.len() || rows > weights.len() || rows > bonds.len() {
        0
    } else {
        row_bonds_to(
            bonds[rows - 1],
            last_purchase_to(stake, active, weights, bonds, moving_average, emission, rows - 1),
            stake[rows - 1],
            active[rows - 1],
            rows - 1,
            weights[rows - 1],
            moving_average,
            emission,
            weights[rows - 1].len() as int,
        ).1
    }
}

/// The rows of a matrix as sequences.
pub open spec fn rows_of<T>(m: Seq<Vec<T>>) -> Seq<Seq<T>> {
    m.map_values(|r: Vec<T>| r@)
}

/// Every fixed-point step of one bond update fits, and the new bond is
/// not negative.
pub open spec fn bond_edge_fits(prev: u64, stake: i128, active: bool, w: u32, moving_average: i128, emission: i128) -> bool {
    let kept = mul_spec(moving_average as int, prev * ONE as int);
    let added = mul_spec(ONE - moving_average, bond_increment(stake, active, w, emission));
    &&& active ==> fits(mul_spec(mul_spec(stake as int, weight_fraction(w)), emission as int))
    &&& fits(kept)
    &&& fits(added)
    &&& fits(kept + added)
    &&& kept + added >= 0
}

/// The bond update along weight entry `k` of participant `i` fits, on the
/// row as the entries before it left it.
pub open spec fn bond_edge_at(
    stake: Seq<i128>,
    active: Seq<bool>,
    weights: Seq<Seq<(u32, u32)>>,
    bonds: Seq<Seq<u64>>,
    moving_average: i128,
    emission: i128,
    i: int,
    k: int,
) -> bool {
    let e = weights[i][k];
    let row = row_bonds_to(bonds[i], 0, stake[i], active[i], i, weights[i], moving_average, emission, k).0;
    stake[i] != 0 && e.0 != i ==> bond_edge_fits(row[e.0 as int], stake[i], active[i], e.1, moving_average, emission)
}

/// Some bond update leaves the fixed-point range or goes negative.
pub open spec fn bonds_overflow(
    stake: Seq<i128>,
    active: Seq<bool>,
    weights: Seq<Seq<(u32, u32)>>,
    bonds: Seq<Seq<u64>>,
    moving_average: i128,
    emission: i128,
) -> bool {
    ||| !fits(ONE - moving_average)
    ||| exists|i: int, k: int|
        0 <= i < weights.len() && 0 <= k < weights[i].len()
            && !#[trigger] bond_edge_at(stake, active, weights, bonds, moving_average, emission, i, k)
}

pub open spec fn square<T>(m: Seq<Vec<T>>, n: int) -> bool {
    m.len() == n && forall|i: int| 0 <= i < n ==> (#[trigger] m[i]).len() == n
}

/// Moves each bond along a weight entry toward its increment. Returns the
/// new bond matrix and the size of the last bond change.
pub fn update_bonds(
    stake: &Vec<i128>,
    active: &Vec<bool>,
    weights: &Vec<Vec<(u32, u32)>>,
    bonds: &Vec<Vec<u64>>,
    moving_average: i128,
    emission: i128,
) -> (r: Option<(Vec<Vec<u64>>, u64)>)
    requires
        stake.len() == active.len(),
        stake.len() == weights.len(),
        square(bonds@, stake.len() as int),
        targets_in_range(rows_of(weights@), stake.len() as int),
        forall|i: int| 0 <= i < stake.len() ==> stake[i] >= 0,
        emission >= 0,
    ensures
        r.is_some() ==> ({
            let (b, last) = r.unwrap();
            &&& square(b@, stake.len() as int)
            &&& forall|i: int| 0 <= i < b.len() ==> (#[trigger] b[i])@ == row_bonds_to(
                bonds[i]@,
                0,
                stake[i],
                active[i],
                i,
                weights[i]@,
                moving_average,
                emission,
                weights[i]@.len() as int,
            ).0
            &&& last == last_purchase_to(stake@, active@, rows_of(weights@), rows_of(bonds@), moving_average, emission, stake.len() as int)
        }),
        r.is_none() <==> bonds_overflow(stake@, active@, rows_of(weights@), rows_of(bonds@), moving_average, emission),
        (forall|i: int| 0 <= i < stake.len() ==> stake[i] == 0) && fits(ONE - moving_average) ==> r.is_some() && ({
            let (b, last) = r.unwrap();
            forall|i: int| 0 <= i < b.len() ==> (#[trigger] b[i])@ == bonds[i]@
        }),
{
    let n = stake.len();
    let full = from_u64(U32_MAX);
    let keep = match ONE.checked_sub(moving_average) {
        Some(v) => v,
        None => {
            return None;
        },
    };
    let mut out: Vec<Vec<u64>> = Vec::new();
    let mut last: u64 = 0;
    let mut i: usize = 0;
    while i < n
        invariant
            n == stake.len(),
            n == active.len(),
            n == weights.len(),
            square(bonds@, n as int),
            targets_in_range(rows_of(weights@), n as int),
            full == U32_MAX * ONE as int,
            keep == ONE - moving_average,
            forall|x: int| 0 <= x < n ==> stake[x] >= 0,
            emission >= 0,
            fits(ONE - moving_average),
            forall|i2: int, k2: int| 0 <= i2 < i && 0 <= k2 < rows_of(weights@)[i2].len()
                ==> #[trigger] bond_edge_at(stake@, active@, rows_of(weights@), rows_of(bonds@), moving_average, emission, i2, k2),
            i <= n,
            out.len() == i,
            forall|x: int| 0 <= x < i ==> (#[trigger] out[x]).len() == n,
            forall|x: int| 0 <= x < i ==> (#[trigger] out[x])@ == row_bonds_to(
                bonds[x]@,
                0,
                stake[x],
                active[x],
                x,
                weights[x]@,
                moving_average,
                emission,
                weights[x]@.len() as int,
            ).0,
            last == last_purchase_to(stake@, active@, rows_of(weights@), rows_of(bonds@), moving_average, emission, i as int),
            (forall|x: int| 0 <= x < n ==> stake[x] == 0) ==> forall|x: int| 0 <= x < i ==> (#[trigger] out[x])@ == bonds[x]@,
        decreases n - i,
    {
        let s = stake[i];
        let act = active[i];
        let row = &weights[i];
        let m = row.len();
        let mut cur: Vec<u64> = bonds[i].clone();
        assert(cur@ =~= bonds[i as int]@);
        let ghost last0 = last;
        proof {
            lemma_row_bonds_first(bonds[i as int]@, 0, last0, s, act, i as int, row@, moving_average, emission, 0);
        }
        let mut k: usize = 0;
        while k < m
            invariant
                n == stake.len(),
                n == active.len(),
                n == weights.len(),
                i < n,
                s == stake[i as int],
                act == active[i as int],
                row@ == weights[i as int]@,
                m == row.len(),
                targets_in_range(rows_of(weights@), n as int),
                full == U32_MAX * ONE as int,
                keep == ONE - moving_average,
                s >= 0,
                emission >= 0,
                square(bonds@, n as int),
                fits(ONE - moving_average),
                forall|i2: int, k2: int| ((0 <= i2 < i && 0 <= k2 < rows_of(weights@)[i2].len()) || (i2 == i && 0 <= k2 < k))
                    ==> #[trigger] bond_edge_at(stake@, active@, rows_of(weights@), rows_of(bonds@), moving_average, emission, i2, k2),
                k <= m,
                cur.len() == n,
                bonds[i as int].len() == n,
                (cur@, last) == row_bonds_to(bonds[i as int]@, last0, s, act, i as int, row@, moving_average, emission, k as int),
                row_bonds_to(bonds[i as int]@, 0, s, act, i as int, row@, moving_average, emission, k as int).0 == cur@,
                s == 0 ==> cur@ == bonds[i as int]@,
            decreases m - k,
        {
            let e = row[k];
            assert(e.0 < n) by {
                assert(rows_of(weights@)[i as int][k as int] == e);
            }
            let t = e.0 as usize;
            assert(rows_of(weights@)[i as int][k as int] == e);
            if s != 0 && t != i {
                let ghost wr = rows_of(weights@);
                assert(wr[i as int] == row@);
                assert(wr[i as int][k as int] == e);
                let ghost fits_here = bond_edge_at(stake@, active@, wr, rows_of(bonds@), moving_average, emission, i as int, k as int);
                assert(rows_of(bonds@)[i as int] == bonds[i as int]@);
                let inc: i128 = if act {
                    proof {
                        lemma_fraction_bounds(e.1 as int, U32_MAX as int, 0);
                    }
                    let w = match checked_div(from_u64(e.1 as u64), full) {
                        Some(w) => w,
                        None => {
                            return None;
                        },
                    };
                    proof {
                        lemma_scale_within(s as int, w as int);
                    }
                    let ri = match checked_mul(s, w) {
                        Some(v) => v,
                        None => {
                            return None;
                        },
                    };
                    match checked_mul(ri, emission) {
                        Some(v) => {
                            proof {
                                lemma_mul_nonneg(s as int, w as int);
                                lemma_mul_nonneg(ri as int, emission as int);
                            }
                            v
                        },
                        None => {
                            assert(!fits_here);
                            return None;
                        },
                    }
                } else {
                    0
                };
                assert(inc == bond_increment(s, act, e.1, emission));
                let prev = cur[t];
                let a = match checked_mul(moving_average, from_u64(prev)) {
                    Some(v) => v,
                    None => {
                        assert(!fits_here);
                        return None;
                    },
                };
                let b = match checked_mul(keep, inc) {
                    Some(v) => v,
                    None => {
                        assert(!fits_here);
                        return None;
                    },
                };
                let avg = match a.checked_add(b) {
                    Some(v) => v,
                    None => {
                        assert(!fits_here);
                        return None;
                    },
                };
                if avg < 0 {
                    assert(!fits_here);
                    return None;
                }
                assert(fits_here);
                let new = to_u64(avg);
                cur.set(t, new);
                last = if new >= prev {
                    new - prev
                } else {
                    prev - new
                };
            }
            k = k + 1;
        }
        out.push(cur);
        i = i + 1;
    }
    Some((out, last))
}

/// The rows of `row_bonds_to` do not depend on the last change carried in.
proof fn lemma_row_bonds_first(
    row: Seq<u64>,
    l1: u64,
    l2: u64,
    stake: i128,
    active: bool,
    i: int,
    ws: Seq<(u32, u32)>,
    moving_average: i128,
    emission: i128,
    k: int,
)
    ensures
        row_bonds_to(row, l1, stake, active, i, ws, moving_average, emission, k).0
            == row_bonds_to(row, l2, stake, active, i, ws, moving_average, emission, k).0,
    decreases k,
{
    if k > 0 {
        lemma_row_bonds_first(row, l1, l2, stake, active, i, ws, moving_average, emission, k - 1);
    }
}


/// The sum of all entries, `None` where a partial sum leaves the range.
pub fn checked_sum(v: &Vec<i128>) -> (r: Option<i128>)
    ensures
        r.is_some() ==> r.unwrap() == sum(v@),
        r.is_none() <==> exists|k: int| 0 < k <= v.len() && !fits(#[trigger] sum_to(v@, k)),
        (forall|i: int| 0 <= i < v.len() ==> v[i] == 0) ==> r == Some(0i128),
{
    let mut total: i128 = 0;
    let mut i: usize = 0;
    while i < v.len()
        invariant
            i <= v.len(),
            total == sum_to(v@, i as int),
            forall|k: int| 0 < k <= i ==> fits(#[trigger] sum_to(v@, k)),
            (forall|k: int| 0 <= k < v.len() ==> v[k] == 0) ==> total == 0,
        decreases v.len() - i,
    {
        total = match total.checked_add(v[i]) {
            Some(t) => t,
            None => {
                assert(!fits(sum_to(v@, i as int + 1)));
                return None;
            },
        };
        i = i + 1;
    }
    Some(total)
}

/// Normalizing `v` by `total` succeeds.
pub open spec fn normalize_fits(v: Seq<i128>, total: int) -> bool {
    total > 0 && forall|i: int| 0 <= i < v.len() ==> #[trigger] entry_normalizes(v[i], total)
}

/// A non-negative entry whose quotient by `total` fits.
pub open spec fn entry_normalizes(x: i128, total: int) -> bool {
    x >= 0 && fits(div_spec(x as int, total))
}

/// Each entry divided by `total`.
pub fn normalize(v: &Vec<i128>, total: i128) -> (r: Option<Vec<i128>>)
    ensures
        r.is_some() ==> ({
            let w = r.unwrap();
            &&& w.len() == v.len()
            &&& forall|i: int| 0 <= i < w.len() ==> w[i] == div_spec(v[i] as int, total as int)
        }),
        r.is_some() <==> normalize_fits(v@, total as int),
{
    if total <= 0 {
        return None;
    }
    let mut out: Vec<i128> = Vec::new();
    let mut i: usize = 0;
    while i < v.len()
        invariant
            total > 0,
            i <= v.len(),
            out.len() == i,
            forall|k: int| 0 <= k < i ==> out[k] == div_spec(v[k] as int, total as int),
            forall|k: int| 0 <= k < i ==> #[trigger] entry_normalizes(v[k], total as int),
        decreases v.len() - i,
    {
        assert(div_spec(v[i as int] as int, total as int) == div_spec(v[i as int] as int, total as int));
        if v[i] < 0 {
            assert(!entry_normalizes(v@[i as int], total as int));
            return None;
        }
        match checked_div(v[i], total) {
            Some(q) => out.push(q),
            None => {
                assert(!entry_normalizes(v@[i as int], total as int));
                return None;
            },
        }
        i = i + 1;
    }
    Some(out)
}

/// Bonds held in participant `j` by the first `rows` participants.
pub open spec fn column_sum_to(bonds: Seq<Seq<u64>>, j: int, rows: int) -> int
    decreases rows,
{
    if rows <= 0 || rows > bonds.len() {
        0
    } else {
        column_sum_to(bonds, j, rows - 1) + bonds[rows - 1][j] as int
    }
}

/// The total bonds held in each participant: the column sums of the bond
/// matrix.
pub fn bond_totals(bonds: &Vec<Vec<u64>>) -> (r: Option<Vec<u128>>)
    requires
        square(bonds@, bonds.len() as int),
    ensures
        r.is_some() ==> ({
            let t = r.unwrap();
            &&& t.len() == bonds.len()
            &&& forall|j: int| 0 <= j < t.len() ==> t[j] == column_sum_to(rows_of(bonds@), j, bonds.len() as int)
        }),
        (forall|j: int| 0 <= j < bonds.len() ==> #[trigger] column_sum_to(rows_of(bonds@), j, bonds.len() as int) <= U64_MAX)
            ==> r.is_some(),
        r.is_none() <==> exists|j: int, i: int| 0 <= j < bonds.len() && 0 < i <= bonds.len()
            && (#[trigger] column_sum_to(rows_of(bonds@), j, i)) > u128::MAX,
{
    let n = bonds.len();
    let mut totals: Vec<u128> = Vec::new();
    let mut j: usize = 0;
    while j < n
        invariant
            n == bonds.len(),
            square(bonds@, n as int),
            j <= n,
            totals.len() == j,
            forall|x: int| 0 <= x < j ==> totals[x] == column_sum_to(rows_of(bonds@), x, n as int),
            forall|x: int, y: int| 0 <= x < j && 0 < y <= n ==> (#[trigger] column_sum_to(rows_of(bonds@), x, y)) <= u128::MAX,
        decreases n - j,
    {
        let mut t: u128 = 0;
        let mut i: usize = 0;
        while i < n
            invariant
                n == bonds.len(),
                square(bonds@, n as int),
                j < n,
                i <= n,
                t == column_sum_to(rows_of(bonds@), j as int, i as int),
                forall|x: int, y: int| 0 <= x < j && 0 < y <= n ==> (#[trigger] column_sum_to(rows_of(bonds@), x, y)) <= u128::MAX,
                forall|y: int| 0 < y <= i ==> (#[trigger] column_sum_to(rows_of(bonds@), j as int, y)) <= u128::MAX,
            decreases n - i,
        {
            assert(bonds[i as int].len() == n);
            proof {
                lemma_column_monotone(rows_of(bonds@), j as int, i as int + 1, n as int);
            }
            assert(rows_of(bonds@)[i as int] == bonds[i as int]@);
            t = match t.checked_add(bonds[i][j] as u128) {
                Some(v) => v,
                None => {
                    assert(column_sum_to(rows_of(bonds@), j as int, i as int + 1) > u128::MAX);
                    return None;
                },
            };
            assert(column_sum_to(rows_of(bonds@), j as int, i as int + 1) == t);
            i = i + 1;
        }
        totals.push(t);
        j = j + 1;
    }
    Some(totals)
}

proof fn lemma_column_monotone(m: Seq<Seq<u64>>, j: int, i: int, k: int)
    requires
        0 <= i <= k,
    ensures
        0 <= column_sum_to(m, j, i) <= column_sum_to(m, j, k) || k > m.len(),
    decreases k,
{
    if k > 0 {
        if i < k {
            lemma_column_monotone(m, j, i, k - 1);
        } else {
            lemma_column_monotone(m, j, i - 1, k - 1);
        }
    }
}

/// A bond is at most the total of its column.
pub proof fn lemma_bond_within_total(m: Seq<Seq<u64>>, i: int, j: int)
    requires
        0 <= i < m.len(),
        0 <= j < m[i].len(),
    ensures
        m[i][j] <= column_sum_to(m, j, m.len() as int),
{
    lemma_column_monotone(m, j, 0, i);
    lemma_column_monotone(m, j, i + 1, m.len() as int);
}

/// The consensus of a participant with the given trust: a logistic gate
/// `1 / (1 + exp(-(trust - kappa) * rho))`, `None` where the fixed-point
/// evaluation fails.
pub open spec fn consensus_spec(trust: i128, kappa: i128, rho: i128) -> Option<int> {
    let shifted = trust - kappa;
    let scaled = mul_spec(shifted, rho as int);
    if fits(shifted) && fits(scaled) && fits(-scaled) {
        match exp_of((-scaled) as i128) {
            Some(x) => if ONE + x > 0 && fits(ONE + x) && fits(div_spec(ONE as int, ONE + x)) {
                Some(div_spec(ONE as int, ONE + x))
            } else {
                None
            },
            None => None,
        }
    } else {
        None
    }
}

pub fn consensus_of(trust: i128, kappa: i128, rho: i128) -> (r: Option<i128>)
    requires
        rho >= 0,
    ensures
        r.is_some() ==> r.unwrap() >= 0,
        r.is_some() ==> consensus_spec(trust, kappa, rho) == Some(r.unwrap() as int),
        r.is_none() ==> consensus_spec(trust, kappa, rho).is_none(),
{
    let shifted = match trust.checked_sub(kappa) {
        Some(v) => v,
        None => {
            return None;
        },
    };
    let scaled = match checked_mul(shifted, rho) {
        Some(v) => v,
        None => {
            return None;
        },
    };
    if scaled == i128::MIN {
        return None;
    }
    let neg = -scaled;
    let x = match exp(neg) {
        Some(v) => v,
        None => {
            return None;
        },
    };
    let denom = match ONE.checked_add(x) {
        Some(v) => v,
        None => {
            return None;
        },
    };
    if denom <= 0 {
        return None;
    }
    checked_div(ONE, denom)
}

/// Consensus succeeds on `trust`, and rank times consensus fits.
pub open spec fn incentive_fits(rank: i128, trust: i128, kappa: i128, rho: i128) -> bool {
    &&& consensus_spec(trust, kappa, rho).is_some()
    &&& fits(mul_spec(rank as int, consensus_spec(trust, kappa, rho).unwrap()))
}

/// Consensus and incentive (rank times consensus) of every participant.
pub fn consensus_and_incentive(rank: &Vec<i128>, trust: &Vec<i128>, kappa: i128, rho: i128) -> (r: Option<(Vec<i128>, Vec<i128>)>)
    requires
        rank.len() == trust.len(),
        rho >= 0,
    ensures
        r.is_some() ==> ({
            let (c, inc) = r.unwrap();
            &&& c.len() == rank.len()
            &&& inc.len() == rank.len()
            &&& forall|i: int| 0 <= i < c.len() ==> consensus_spec(trust[i], kappa, rho) == Some(c[i] as int)
            &&& forall|i: int| 0 <= i < c.len() ==> inc[i] == mul_spec(rank[i] as int, c[i] as int)
        }),
        r.is_some() <==> forall|i: int| 0 <= i < rank.len() ==> incentive_fits(rank[i], #[trigger] trust[i], kappa, rho),
{
    let mut c: Vec<i128> = Vec::new();
    let mut inc: Vec<i128> = Vec::new();
    let mut i: usize = 0;
    while i < rank.len()
        invariant
            rank.len() == trust.len(),
            rho >= 0,
            i <= rank.len(),
            c.len() == i,
            inc.len() == i,
            forall|k: int| 0 <= k < i ==> consensus_spec(trust[k], kappa, rho) == Some(c[k] as int),
            forall|k: int| 0 <= k < i ==> inc[k] == mul_spec(rank[k] as int, c[k] as int),
            forall|k: int| 0 <= k < i ==> incentive_fits(rank[k], #[trigger] trust[k], kappa, rho),
        decreases rank.len() - i,
    {
        let ci = match consensus_of(trust[i], kappa, rho) {
            Some(v) => v,
            None => {
                return None;
            },
        };
        let ii = match checked_mul(rank[i], ci) {
            Some(v) => v,
            None => {
                return None;
            },
        };
        c.push(ci);
        inc.push(ii);
        i = i + 1;
    }
    Some((c, inc))
}


/// Whether a bond of `bond` in a participant whose bonds total `total` earns
/// a share of that participant's incentive.
pub open spec fn pays(bond: u64, total: u128) -> bool {
    total != 0 && bond != 0
}

/// The part of `incentive` that a bond earns: the share not kept by its
/// owner (`keep`), times the bond's fraction of all bonds in it.
pub open spec fn bond_share(incentive: i128, bond: u64, total: u128, keep: int) -> int {
    mul_spec(incentive as int, mul_spec(keep, div_spec(bond * ONE as int, total * ONE as int)))
}

/// What a participant keeps of its own incentive: its self-ownership share,
/// or all of it where nobody holds bonds in it.
pub open spec fn self_dividend(incentive: i128, total: u128, self_ownership: i128) -> int {
    mul_spec(incentive as int, self_ownership as int) + if total == 0 {
        mul_spec(incentive as int, ONE - self_ownership)
    } else {
        0
    }
}

/// What the bonds `row` earn in the first `k` participants.
pub open spec fn bond_dividends_to(incentive: Seq<i128>, row: Seq<u64>, totals: Seq<u128>, keep: int, k: int) -> int
    decreases k,
{
    if k <= 0 || k > incentive.len() || k > row.len() || k > totals.len() {
        0
    } else {
        bond_dividends_to(incentive, row, totals, keep, k - 1) + if pays(row[k - 1], totals[k - 1]) {
            bond_share(incentive[k - 1], row[k - 1], totals[k - 1], keep)
        } else {
            0
        }
    }
}

/// The earning bonds of `row` among the first `k` participants, as
/// (participant, bond) pairs in order.
pub open spec fn sparse_row_to(row: Seq<u64>, totals: Seq<u128>, k: int) -> Seq<(u32, u64)>
    decreases k,
{
    if k <= 0 || k > row.len() || k > totals.len() {
        Seq::empty()
    } else if pays(row[k - 1], totals[k - 1]) {
        sparse_row_to(row, totals, k - 1).push(((k - 1) as u32, row[k - 1]))
    } else {
        sparse_row_to(row, totals, k - 1)
    }
}

/// The dividends of a participant: what it keeps of its own incentive and
/// what its bonds earn.
pub open spec fn dividend_spec(i: int, incentive: Seq<i128>, bonds: Seq<Seq<u64>>, totals: Seq<u128>, self_ownership: i128) -> int {
    self_dividend(incentive[i], totals[i], self_ownership)
        + bond_dividends_to(incentive, bonds[i], totals, ONE - self_ownership, incentive.len() as int)
}

/// No incentive to share, bond totals that fit, bonds within their totals
/// and a self-ownership of at most one.
pub open spec fn idle(incentive: Seq<i128>, bonds: Seq<Vec<u64>>, totals: Seq<u128>, self_ownership: i128) -> bool {
    &&& forall|i: int| 0 <= i < incentive.len() ==> incentive[i] == 0
    &&& forall|j: int| 0 <= j < totals.len() ==> totals[j] <= U64_MAX
    &&& forall|i: int, j: int| 0 <= i < bonds.len() && 0 <= j < totals.len() ==> #[trigger] bonds[i]@[j] <= totals[j]
    &&& 0 <= self_ownership <= ONE
}

/// What participant `i` keeps of its own incentive fits.
pub open spec fn self_dividend_fits(incentive: i128, total: u128, self_ownership: i128) -> bool {
    &&& fits(mul_spec(incentive as int, self_ownership as int))
    &&& total == 0 ==> fits(mul_spec(incentive as int, ONE - self_ownership))
    &&& fits(self_dividend(incentive, total, self_ownership))
}

/// The share that bond `j` of `row` earns, and the dividend counted up to
/// it, fit.
pub open spec fn bond_dividend_fits(i: int, j: int, incentive: Seq<i128>, row: Seq<u64>, totals: Seq<u128>, self_ownership: i128) -> bool {
    let keep = ONE - self_ownership;
    let frac = div_spec(row[j] * ONE as int, totals[j] * ONE as int);
    pays(row[j], totals[j]) ==> {
        &&& totals[j] <= U64_MAX
        &&& fits(frac)
        &&& fits(bond_share(incentive[j], row[j], totals[j], keep))
        &&& fits(self_dividend(incentive[i], totals[i], self_ownership) + bond_dividends_to(incentive, row, totals, keep, j + 1))
    }
}

/// Every fixed-point step of the dividends fits.
pub open spec fn dividends_fit(incentive: Seq<i128>, bonds: Seq<Seq<u64>>, totals: Seq<u128>, self_ownership: i128) -> bool {
    &&& forall|i: int| 0 <= i < incentive.len() ==> #[trigger] self_dividend_fits(incentive[i], totals[i], self_ownership)
    &&& forall|i: int, j: int| 0 <= i < incentive.len() && 0 <= j < incentive.len()
        ==> #[trigger] bond_dividend_fits(i, j, incentive, bonds[i], totals, self_ownership)
}

/// Dividends of every participant, and the bonds that earned them.
pub fn dividends(incentive: &Vec<i128>, bonds: &Vec<Vec<u64>>, totals: &Vec<u128>, self_ownership: i128) -> (r: Option<(Vec<i128>, Vec<Vec<(u32, u64)>>)>)
    requires
        square(bonds@, incentive.len() as int),
        totals.len() == incentive.len(),
        incentive.len() <= U32_MAX + 1,
        0 <= self_ownership <= ONE,
    ensures
        r.is_some() ==> ({
            let (d, sparse) = r.unwrap();
            &&& d.len() == incentive.len()
            &&& sparse.len() == incentive.len()
            &&& forall|i: int| 0 <= i < d.len() ==> d[i] == dividend_spec(i, incentive@, rows_of(bonds@), totals@, self_ownership)
            &&& forall|i: int| 0 <= i < d.len() ==> (#[trigger] sparse[i])@ == sparse_row_to(bonds[i]@, totals@, incentive.len() as int)
        }),
        r.is_some() <==> dividends_fit(incentive@, rows_of(bonds@), totals@, self_ownership),
        idle(incentive@, bonds@, totals@, self_ownership) ==> r.is_some() && forall|i: int| 0 <= i < r.unwrap().0.len() ==> r.unwrap().0[i] == 0,
{
    let n = incentive.len();
    let keep = match ONE.checked_sub(self_ownership) {
        Some(v) => v,
        None => {
            return None;
        },
    };
    let mut d: Vec<i128> = Vec::new();
    let mut sparse: Vec<Vec<(u32, u64)>> = Vec::new();
    let mut i: usize = 0;
    while i < n
        invariant
            n == incentive.len(),
            n <= U32_MAX + 1,
            square(bonds@, n as int),
            totals.len() == n,
            keep == ONE - self_ownership,
            0 <= self_ownership <= ONE,
            i <= n,
            d.len() == i,
            sparse.len() == i,
            forall|x: int| 0 <= x < i ==> d[x] == dividend_spec(x, incentive@, rows_of(bonds@), totals@, self_ownership),
            forall|x: int| 0 <= x < i ==> (#[trigger] sparse[x])@ == sparse_row_to(bonds[x]@, totals@, n as int),
            idle(incentive@, bonds@, totals@, self_ownership) ==> forall|x: int| 0 <= x < i ==> d[x] == 0,
            forall|x: int| 0 <= x < i ==> #[trigger] self_dividend_fits(incentive[x], totals[x], self_ownership),
            forall|x: int, y: int| 0 <= x < i && 0 <= y < n
                ==> #[trigger] bond_dividend_fits(x, y, incentive@, rows_of(bonds@)[x], totals@, self_ownership),
        decreases n - i,
    {
        let inc_i = incentive[i];
        proof {
            if idle(incentive@, bonds@, totals@, self_ownership) {
                assert(inc_i == 0);
                assert(0 * (self_ownership as int) == 0);
                assert(0 * (keep as int) == 0);
                assert(mul_spec(0, self_ownership as int) == 0);
                assert(mul_spec(0, keep as int) == 0);
            }
        }
        let own = match checked_mul(inc_i, self_ownership) {
            Some(v) => v,
            None => {
                assert(!self_dividend_fits(incentive[i as int], totals[i as int], self_ownership));
                return None;
            },
        };
        let mut di: i128 = own;
        if totals[i] == 0 {
            let rest = match checked_mul(inc_i, keep) {
                Some(v) => v,
                None => {
                    assert(!self_dividend_fits(incentive[i as int], totals[i as int], self_ownership));
                    return None;
                },
            };
            di = match di.checked_add(rest) {
                Some(v) => v,
                None => {
                    assert(!self_dividend_fits(incentive[i as int], totals[i as int], self_ownership));
                    return None;
                },
            };
        }
        assert(self_dividend_fits(incentive[i as int], totals[i as int], self_ownership));
        let ghost base = di as int;
        let row = &bonds[i];
        assert(row.len() == n);
        let mut srow: Vec<(u32, u64)> = Vec::new();
        let mut j: usize = 0;
        while j < n
            invariant
                n == incentive.len(),
                n <= U32_MAX + 1,
                row.len() == n,
                totals.len() == n,
                keep == ONE - self_ownership,
                0 <= self_ownership <= ONE,
                j <= n,
                base == self_dividend(incentive[i as int], totals[i as int], self_ownership),
                di == base + bond_dividends_to(incentive@, row@, totals@, keep as int, j as int),
                srow@ == sparse_row_to(row@, totals@, j as int),
                row@ == bonds[i as int]@,
                i < n,
                square(bonds@, n as int),
                idle(incentive@, bonds@, totals@, self_ownership) ==> di == 0,
                forall|x: int| 0 <= x <= i ==> #[trigger] self_dividend_fits(incentive[x], totals[x], self_ownership),
                forall|x: int, y: int| ((0 <= x < i && 0 <= y < n) || (x == i && 0 <= y < j))
                    ==> #[trigger] bond_dividend_fits(x, y, incentive@, rows_of(bonds@)[x], totals@, self_ownership),
                rows_of(bonds@)[i as int] == row@,
            decreases n - j,
        {
            let b = row[j];
            let t = totals[j];
            if t != 0 && b != 0 {
                if t > U64_MAX as u128 {
                    assert(!bond_dividend_fits(i as int, j as int, incentive@, rows_of(bonds@)[i as int], totals@, self_ownership));
                    return None;
                }
                proof {
                    if idle(incentive@, bonds@, totals@, self_ownership) {
                        assert(bonds@[i as int]@[j as int] <= totals[j as int]);
                        lemma_fraction_bounds(b as int, t as int, keep as int);
                    }
                }
                let frac = match checked_div(from_u64(b), from_u64(t as u64)) {
                    Some(v) => v,
                    None => {
                        assert(!bond_dividend_fits(i as int, j as int, incentive@, rows_of(bonds@)[i as int], totals@, self_ownership));
                        return None;
                    },
                };
                proof {
                    lemma_scale_within(frac as int, keep as int);
                    assert(mul_spec(frac as int, keep as int) == mul_spec(keep as int, frac as int));
                }
                let owned = match checked_mul(keep, frac) {
                    Some(v) => v,
                    None => {
                        return None;
                    },
                };
                proof {
                    lemma_mul_nonneg(keep as int, frac as int);
                    if idle(incentive@, bonds@, totals@, self_ownership) {
                        assert(incentive[j as int] == 0);
                        assert(0 * (owned as int) == 0);
                        assert(mul_spec(0, owned as int) == 0);
                    }
                }
                let share = match checked_mul(incentive[j], owned) {
                    Some(v) => v,
                    None => {
                        assert(!bond_dividend_fits(i as int, j as int, incentive@, rows_of(bonds@)[i as int], totals@, self_ownership));
                        return None;
                    },
                };
                di = match di.checked_add(share) {
                    Some(v) => v,
                    None => {
                        assert(!bond_dividend_fits(i as int, j as int, incentive@, rows_of(bonds@)[i as int], totals@, self_ownership));
                        return None;
                    },
                };
                srow.push((j as u32, b));
            }
            assert(bond_dividend_fits(i as int, j as int, incentive@, rows_of(bonds@)[i as int], totals@, self_ownership));
            j = j + 1;
        }
        d.push(di);
        sparse.push(srow);
        i = i + 1;
    }
    Some((d, sparse))
}

/// The tokens a participant receives: the block's emission times its
/// normalized dividend, rounded down.
pub open spec fn emission_spec(emission: i128, dividend: i128) -> int {
    mul_spec(emission as int, dividend as int) / (ONE as int)
}

/// Tokens emitted to each participant from its normalized dividend.
pub fn emissions(normalized_dividends: &Vec<i128>, emission: i128) -> (r: Option<Vec<u64>>)
    requires
        emission >= 0,
    ensures
        r.is_some() ==> ({
            let e = r.unwrap();
            &&& e.len() == normalized_dividends.len()
            &&& forall|i: int| 0 <= i < e.len() ==> e[i] == emission_spec(emission, normalized_dividends[i])
        }),
        r.is_some() <==> forall|i: int| 0 <= i < normalized_dividends.len() ==> 0 <= #[trigger] mul_spec(emission as int, normalized_dividends[i] as int) <= i128::MAX,
{
    let mut out: Vec<u64> = Vec::new();
    let mut i: usize = 0;
    while i < normalized_dividends.len()
        invariant
            emission >= 0,
            i <= normalized_dividends.len(),
            out.len() == i,
            forall|k: int| 0 <= k < i ==> out[k] == emission_spec(emission, normalized_dividends[k]),
            forall|k: int| 0 <= k < i ==> 0 <= #[trigger] mul_spec(emission as int, normalized_dividends[k] as int) <= i128::MAX,
        decreases normalized_dividends.len() - i,
    {
        let x = match checked_mul(emission, normalized_dividends[i]) {
            Some(v) => v,
            None => {
                return None;
            },
        };
        if x < 0 {
            return None;
        }
        out.push(to_u64(x));
        i = i + 1;
    }
    Some(out)
}

} // verus!
