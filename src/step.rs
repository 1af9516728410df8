//! One mechanism step over the whole participant set: the chain of phases
//! stated over the pallet state, and the driver that runs them and commits
//! the outcome at once or not at all.

use crate::engine::{
    accumulate_scores, active_stake, active_sum_to, bond_totals, checked_sum, column_sum_to,
    consensus_and_incentive, consensus_spec, dividend_spec, dividends, emission_spec, emissions,
    is_active, is_active_spec, last_purchase_to, lemma_bond_within_total, active_stake_overflows,
    normalized_total_overflows, normalize_fits, scores_overflow, incentive_fits, bonds_overflow, dividends_fit, sum_to, next_priority, normalize, normalize_stake,
    normalized_stake_spec, priority_spec, row_bonds_to, rows_of, score_to, sparse_row_to, square,
    sum, targets_in_range, update_bonds,
};
use crate::laws::{
    committed_sum_to, emitted_to, lemma_committed_fields, lemma_committed_sum, lemma_emission_shortfall,
    lemma_emission_within_budget,
    lemma_normalized_sum,
};
use crate::fixed::{
    fits,
    checked_div, checked_mul, div_spec, from_u64, lemma_div_shrinks, lemma_fraction_bounds, mul_spec, to_u64, ONE,
    U32_MAX, U64_MAX,
};
use crate::pallet::{NeuronMetadata, Pallet, StepError};
use vstd::prelude::*;

verus! {

/// Parts per million: the scale of the bonds moving average.
pub const MOVING_AVERAGE_SCALE: u64 = 1_000_000;

/// The dense bond row built from a sparse bond list, leaving out bonds in
/// pruned participants: the first `k` entries applied in order.
pub open spec fn pruned_row(list: Seq<(u32, u64)>, prune: Seq<bool>, n: int, k: int) -> Seq<u64>
    decreases k,
{
    if k <= 0 || k > list.len() {
        Seq::new(n as nat, |j: int| 0u64)
    } else {
        let r = pruned_row(list, prune, n, k - 1);
        let e = list[k - 1];
        if e.0 < n && e.0 < prune.len() && !prune[e.0 as int] {
            r.update(e.0 as int, e.1)
        } else {
            r
        }
    }
}

/// Every partial sum fits.
pub open spec fn partial_sums_fit(v: Seq<i128>) -> bool {
    forall|k: int| 0 < k <= v.len() ==> fits(#[trigger] sum_to(v, k))
}

/// A fraction committed to a record: scaled to the full `u64` range and
/// rounded down.
pub open spec fn committed(x: i128) -> int {
    mul_spec(x as int, U64_MAX * ONE as int) / (ONE as int)
}

pub open spec fn sum_u64_to(s: Seq<u64>, k: int) -> int
    decreases k,
{
    if k <= 0 || k > s.len() {
        0
    } else {
        sum_u64_to(s, k - 1) + s[k - 1]
    }
}

pub open spec fn sum_u64(s: Seq<u64>) -> int {
    sum_u64_to(s, s.len() as int)
}

/// A fraction can be scaled to the `u64` range.
pub open spec fn fraction_commits(x: i128) -> bool {
    let m = mul_spec(x as int, U64_MAX * ONE as int);
    fits(m) && m >= 0
}

/// Record `i` can take the step's outcome.
pub open spec fn record_commits(p: Pallet, emission: u64, i: int) -> bool {
    &&& p.neurons[i].stake + p.emission_spec(emission)[i] <= U64_MAX
    &&& fraction_commits(p.rank_spec()[i])
    &&& fraction_commits(p.trust_spec()[i])
    &&& fraction_commits(p.consensus_spec()[i])
    &&& fraction_commits(p.incentive_spec()[i])
    &&& fraction_commits(p.dividends_spec(emission)[i])
}

/// Every record and register can take the step's outcome.
pub open spec fn commit_fits(p: Pallet, emission: u64) -> bool {
    &&& forall|i: int| 0 <= i < p.n() ==> #[trigger] record_commits(p, emission, i)
    &&& p.total_issuance + sum_u64(p.emission_spec(emission)) <= U64_MAX
    &&& p.total_stake + sum_u64(p.emission_spec(emission)) <= U64_MAX
}

/// Everything that one step writes.
pub struct StepOutcome {
    pub active: Vec<bool>,
    pub priority: Vec<u64>,
    pub rank: Vec<i128>,
    pub trust: Vec<i128>,
    pub consensus: Vec<i128>,
    pub incentive: Vec<i128>,
    pub dividends: Vec<i128>,
    pub emission: Vec<u64>,
    pub bonds: Vec<Vec<(u32, u64)>>,
    pub total_emission: u64,
    pub total_bonds_purchased: u64,
}

impl Pallet {
    pub open spec fn n(&self) -> int {
        self.neurons.len() as int
    }

    pub open spec fn weight_rows(&self) -> Seq<Seq<(u32, u32)>> {
        Seq::new(self.neurons@.len(), |i: int| self.neurons[i].weights@)
    }

    pub open spec fn bond_lists(&self) -> Seq<Seq<(u32, u64)>> {
        Seq::new(self.neurons@.len(), |i: int| self.neurons[i].bonds@)
    }

    /// Uids are dense and in place, every target is a participant, and the
    /// pruning table covers every participant.
    pub open spec fn wf(&self) -> bool {
        &&& self.neurons.len() <= U32_MAX + 1
        &&& self.neurons_to_prune.len() == self.neurons.len()
        &&& forall|i: int| 0 <= i < self.neurons.len() ==> (#[trigger] self.neurons[i]).uid == i
        &&& targets_in_range(self.weight_rows(), self.n())
        &&& targets_in_range(self.bond_lists(), self.n())
    }

    /// A well-formed state in which nobody holds stake, with a consensus
    /// threshold and a self-ownership divisor that are set, and bond columns
    /// whose totals fit in a token amount.
    pub open spec fn quiet(&self) -> bool {
        &&& self.wf()
        &&& forall|i: int| 0 <= i < self.n() ==> (#[trigger] self.neurons[i]).stake == 0
        &&& self.config.kappa > 0
        &&& self.config.self_ownership > 0
        &&& forall|j: int| 0 <= j < self.n() ==> #[trigger] column_sum_to(self.dense_bonds(), j, self.n()) <= U64_MAX
    }

    /// Every fixed-point value and counter of one step, computed in order,
    /// fits its range.
    pub open spec fn step_fits(&self, emission: u64) -> bool {
        let raw_rank = self.raw_scores(false);
        let raw_trust = self.raw_scores(true);
        let e = (emission * ONE as int) as i128;
        &&& self.priorities_fit()
        &&& !active_stake_overflows(self.stake_spec(), self.active_spec())
        &&& !normalized_total_overflows(self.stake_spec(), self.active_spec())
        &&& !scores_overflow(self.normalized_stake(), self.active_spec(), self.weight_rows())
        &&& partial_sums_fit(raw_rank)
        &&& partial_sums_fit(raw_trust)
        &&& self.scores_positive() ==> normalize_fits(raw_rank, sum(raw_rank)) && normalize_fits(raw_trust, self.normalized_active_total())
        &&& self.config.kappa > 0
        &&& self.config.self_ownership > 0
        &&& self.scores_nonzero() ==> forall|i: int| 0 <= i < self.n() ==> incentive_fits(
            self.rank_spec()[i],
            #[trigger] self.trust_spec()[i],
            self.kappa_bits() as i128,
            (self.config.rho * ONE as int) as i128,
        )
        &&& partial_sums_fit(self.raw_incentive())
        &&& sum(self.raw_incentive()) > 0 ==> normalize_fits(self.raw_incentive(), sum(self.raw_incentive()))
        &&& !bonds_overflow(
            self.normalized_stake(),
            self.active_spec(),
            self.weight_rows(),
            self.dense_bonds(),
            self.moving_average_bits() as i128,
            e,
        )
        &&& forall|j: int, i: int| 0 <= j < self.n() && 0 < i <= self.n()
            ==> (#[trigger] column_sum_to(self.bonds_after(emission), j, i)) <= u128::MAX
        &&& dividends_fit(self.incentive_spec(), self.bonds_after(emission), self.bond_totals_spec(emission), self.self_ownership_bits() as i128)
        &&& partial_sums_fit(self.raw_dividends(emission))
        &&& sum(self.raw_dividends(emission)) != 0 ==> {
            &&& normalize_fits(self.raw_dividends(emission), sum(self.raw_dividends(emission)))
            &&& forall|i: int| 0 <= i < self.n() ==> 0 <= #[trigger] mul_spec(e as int, self.dividends_spec(emission)[i] as int) <= i128::MAX
        }
        &&& forall|k: int| 0 < k <= self.n() ==> (#[trigger] sum_u64_to(self.emission_spec(emission), k)) <= U64_MAX
    }

    pub open spec fn active_spec(&self) -> Seq<bool> {
        Seq::new(
            self.neurons@.len(),
            |i: int| is_active_spec(self.block_number, self.neurons[i].last_update, self.config.activity_cutoff),
        )
    }

    /// Every participant's priority can be raised without overflow.
    pub open spec fn priorities_fit(&self) -> bool {
        forall|i: int| 0 <= i < self.n() ==> (#[trigger] self.priority_step()[i]).is_some()
    }

    pub open spec fn stake_spec(&self) -> Seq<u64> {
        Seq::new(self.neurons@.len(), |i: int| self.neurons[i].stake)
    }

    pub open spec fn priority_step(&self) -> Seq<Option<u64>> {
        Seq::new(self.neurons@.len(), |i: int| priority_spec(self.neurons[i].priority, self.neurons[i].stake))
    }

    /// The bond matrix that the step starts from.
    pub open spec fn dense_bonds(&self) -> Seq<Seq<u64>> {
        Seq::new(
            self.neurons@.len(),
            |i: int| pruned_row(self.neurons[i].bonds@, self.neurons_to_prune@, self.n(), self.neurons[i].bonds@.len() as int),
        )
    }

    pub open spec fn normalized_stake(&self) -> Seq<i128> {
        Seq::new(
            self.neurons@.len(),
            |i: int| normalized_stake_spec(self.stake_spec()[i], active_stake(self.stake_spec(), self.active_spec())) as i128,
        )
    }

    pub open spec fn normalized_active_total(&self) -> int {
        active_sum_to(self.normalized_stake(), self.active_spec(), self.n())
    }

    /// Rank (or trust) before normalization.
    pub open spec fn raw_scores(&self, trust: bool) -> Seq<i128> {
        Seq::new(
            self.neurons@.len(),
            |j: int| score_to(trust, self.normalized_stake(), self.active_spec(), self.weight_rows(), j, self.n()) as i128,
        )
    }

    pub open spec fn scores_positive(&self) -> bool {
        sum(self.raw_scores(false)) > 0 && sum(self.raw_scores(true)) > 0
    }

    pub open spec fn scores_nonzero(&self) -> bool {
        sum(self.raw_scores(false)) != 0 && sum(self.raw_scores(true)) != 0
    }

    /// Rank normalized by the total rank.
    pub open spec fn rank_spec(&self) -> Seq<i128> {
        if self.scores_positive() {
            Seq::new(self.neurons@.len(), |j: int| div_spec(self.raw_scores(false)[j] as int, sum(self.raw_scores(false))) as i128)
        } else {
            self.raw_scores(false)
        }
    }

    /// Trust normalized by the normalized active stake.
    pub open spec fn trust_spec(&self) -> Seq<i128> {
        if self.scores_positive() {
            Seq::new(self.neurons@.len(), |j: int| div_spec(self.raw_scores(true)[j] as int, self.normalized_active_total()) as i128)
        } else {
            self.raw_scores(true)
        }
    }

    pub open spec fn moving_average_bits(&self) -> int {
        div_spec(self.config.bonds_moving_average * ONE as int, MOVING_AVERAGE_SCALE * ONE as int)
    }

    pub open spec fn kappa_bits(&self) -> int {
        div_spec(ONE as int, self.config.kappa * ONE as int)
    }

    pub open spec fn self_ownership_bits(&self) -> int {
        div_spec(ONE as int, self.config.self_ownership * ONE as int)
    }

    pub open spec fn consensus_spec(&self) -> Seq<i128> {
        if self.scores_nonzero() {
            Seq::new(
                self.neurons@.len(),
                |i: int| consensus_spec(self.trust_spec()[i], self.kappa_bits() as i128, (self.config.rho * ONE as int) as i128).unwrap() as i128,
            )
        } else {
            Seq::new(self.neurons@.len(), |i: int| 0i128)
        }
    }

    pub open spec fn raw_incentive(&self) -> Seq<i128> {
        if self.scores_nonzero() {
            Seq::new(self.neurons@.len(), |i: int| mul_spec(self.rank_spec()[i] as int, self.consensus_spec()[i] as int) as i128)
        } else {
            Seq::new(self.neurons@.len(), |i: int| 0i128)
        }
    }

    /// Incentive normalized by its total.
    pub open spec fn incentive_spec(&self) -> Seq<i128> {
        if sum(self.raw_incentive()) > 0 {
            Seq::new(self.neurons@.len(), |i: int| div_spec(self.raw_incentive()[i] as int, sum(self.raw_incentive())) as i128)
        } else {
            self.raw_incentive()
        }
    }

    /// The bond matrix after the moving-average update.
    pub open spec fn bonds_after(&self, emission: u64) -> Seq<Seq<u64>> {
        Seq::new(
            self.neurons@.len(),
            |i: int| row_bonds_to(
                self.dense_bonds()[i],
                0,
                self.normalized_stake()[i],
                self.active_spec()[i],
                i,
                self.weight_rows()[i],
                self.moving_average_bits() as i128,
                (emission * ONE as int) as i128,
                self.weight_rows()[i].len() as int,
            ).0,
        )
    }

    pub open spec fn bonds_purchased(&self, emission: u64) -> u64 {
        last_purchase_to(
            self.normalized_stake(),
            self.active_spec(),
            self.weight_rows(),
            self.dense_bonds(),
            self.moving_average_bits() as i128,
            (emission * ONE as int) as i128,
            self.n(),
        )
    }

    /// The total bonds held in each participant after the update.
    pub open spec fn bond_totals_spec(&self, emission: u64) -> Seq<u128> {
        Seq::new(self.neurons@.len(), |j: int| column_sum_to(self.bonds_after(emission), j, self.n()) as u128)
    }

    pub open spec fn raw_dividends(&self, emission: u64) -> Seq<i128> {
        Seq::new(
            self.neurons@.len(),
            |i: int| dividend_spec(
                i,
                self.incentive_spec(),
                self.bonds_after(emission),
                self.bond_totals_spec(emission),
                self.self_ownership_bits() as i128,
            ) as i128,
        )
    }

    /// The committed sparse bonds: those that earned dividends.
    pub open spec fn sparse_bonds(&self, emission: u64) -> Seq<Seq<(u32, u64)>> {
        Seq::new(
            self.neurons@.len(),
            |i: int| sparse_row_to(self.bonds_after(emission)[i], self.bond_totals_spec(emission), self.n()),
        )
    }

    /// Dividends normalized by their total.
    pub open spec fn dividends_spec(&self, emission: u64) -> Seq<i128> {
        if sum(self.raw_dividends(emission)) != 0 {
            Seq::new(
                self.neurons@.len(),
                |i: int| div_spec(self.raw_dividends(emission)[i] as int, sum(self.raw_dividends(emission))) as i128,
            )
        } else {
            self.raw_dividends(emission)
        }
    }

    /// Tokens emitted to each participant.
    pub open spec fn emission_spec(&self, emission: u64) -> Seq<u64> {
        if sum(self.raw_dividends(emission)) != 0 {
            Seq::new(
                self.neurons@.len(),
                |i: int| emission_spec((emission * ONE as int) as i128, self.dividends_spec(emission)[i]) as u64,
            )
        } else {
            Seq::new(self.neurons@.len(), |i: int| 0u64)
        }
    }
}


/// A record after a step: the derived fields replaced, stake raised by the
/// emission, bonds replaced by those that earned dividends.
pub open spec fn committed_record(new: NeuronMetadata, old: NeuronMetadata, p: Pallet, emission: u64, i: int) -> bool {
    &&& new.uid == old.uid
    &&& new.last_update == old.last_update
    &&& new.weights@ == old.weights@
    &&& new.active == if p.active_spec()[i] { 1u32 } else { 0u32 }
    &&& Some(new.priority) == p.priority_step()[i]
    &&& new.emission == p.emission_spec(emission)[i]
    &&& new.stake == old.stake + p.emission_spec(emission)[i]
    &&& new.rank == committed(p.rank_spec()[i])
    &&& new.trust == committed(p.trust_spec()[i])
    &&& new.consensus == committed(p.consensus_spec()[i])
    &&& new.incentive == committed(p.incentive_spec()[i])
    &&& new.dividends == committed(p.dividends_spec(emission)[i])
    &&& new.bonds@ == p.sparse_bonds(emission)[i]
}

fn zeros_i128(n: usize) -> (r: Vec<i128>)
    ensures
        r@ == Seq::new(n as nat, |i: int| 0i128),
{
    let mut v: Vec<i128> = Vec::new();
    let mut i: usize = 0;
    while i < n
        invariant
            i <= n,
            v@ == Seq::new(i as nat, |k: int| 0i128),
        decreases n - i,
    {
        v.push(0);
        i = i + 1;
        assert(v@ =~= Seq::new(i as nat, |k: int| 0i128));
    }
    v
}

fn zeros_u64(n: usize) -> (r: Vec<u64>)
    ensures
        r@ == Seq::new(n as nat, |i: int| 0u64),
{
    let mut v: Vec<u64> = Vec::new();
    let mut i: usize = 0;
    while i < n
        invariant
            i <= n,
            v@ == Seq::new(i as nat, |k: int| 0u64),
        decreases n - i,
    {
        v.push(0);
        i = i + 1;
        assert(v@ =~= Seq::new(i as nat, |k: int| 0u64));
    }
    v
}

fn checked_sum_u64(v: &Vec<u64>) -> (r: Option<u64>)
    ensures
        r.is_some() ==> r.unwrap() == sum_u64(v@),
        r.is_none() <==> exists|k: int| 0 < k <= v.len() && (#[trigger] sum_u64_to(v@, k)) > U64_MAX,
        (forall|i: int| 0 <= i < v.len() ==> v[i] == 0) ==> r == Some(0u64),
{
    let mut total: u64 = 0;
    let mut i: usize = 0;
    while i < v.len()
        invariant
            i <= v.len(),
            total == sum_u64_to(v@, i as int),
            forall|k: int| 0 < k <= i ==> (#[trigger] sum_u64_to(v@, k)) <= U64_MAX,
            (forall|k: int| 0 <= k < v.len() ==> v[k] == 0) ==> total == 0,
        decreases v.len() - i,
    {
        total = match total.checked_add(v[i]) {
            Some(t) => t,
            None => {
                assert(sum_u64_to(v@, i as int + 1) > U64_MAX);
                return None;
            },
        };
        i = i + 1;
    }
    Some(total)
}

fn copy_weights(v: &Vec<(u32, u32)>) -> (r: Vec<(u32, u32)>)
    ensures
        r@ == v@,
{
    let mut out: Vec<(u32, u32)> = Vec::new();
    let mut i: usize = 0;
    while i < v.len()
        invariant
            i <= v.len(),
            out@ == v@.take(i as int),
        decreases v.len() - i,
    {
        out.push(v[i]);
        i = i + 1;
        assert(out@ =~= v@.take(i as int));
    }
    assert(v@.take(v.len() as int) =~= v@);
    out
}

/// A fraction scaled to the full `u64` range, rounded down.
fn commit_fraction(x: i128) -> (r: Option<u64>)
    ensures
        r.is_some() ==> r.unwrap() == committed(x),
        r.is_some() <==> fraction_commits(x),
        x == 0 ==> r == Some(0u64),
{
    match checked_mul(x, from_u64(U64_MAX)) {
        Some(v) => if v < 0 {
            None
        } else {
            let c = to_u64(v);
            Some(c)
        },
        None => None,
    }
}

impl Pallet {
    pub fn check_wf(&self) -> (r: bool)
        ensures
            r == self.wf(),
    {
        let n = self.neurons.len();
        if n as u128 > U32_MAX as u128 + 1 || self.neurons_to_prune.len() != n {
            return false;
        }
        let mut i: usize = 0;
        while i < n
            invariant
                n == self.neurons.len(),
                i <= n,
                forall|x: int| 0 <= x < i ==> (#[trigger] self.neurons[x]).uid == x,
                forall|x: int, k: int| 0 <= x < i && 0 <= k < self.weight_rows()[x].len() ==> (#[trigger] self.weight_rows()[x][k]).0 < n,
                forall|x: int, k: int| 0 <= x < i && 0 <= k < self.bond_lists()[x].len() ==> (#[trigger] self.bond_lists()[x][k]).0 < n,
            decreases n - i,
        {
            let nrn = &self.neurons[i];
            if nrn.uid as usize != i {
                return false;
            }
            let mut k: usize = 0;
            while k < nrn.weights.len()
                invariant
                    n == self.neurons.len(),
                    i < n,
                    nrn == self.neurons[i as int],
                    k <= nrn.weights.len(),
                    forall|y: int| 0 <= y < k ==> (#[trigger] nrn.weights@[y]).0 < n,
                decreases nrn.weights.len() - k,
            {
                if nrn.weights[k].0 as usize >= n {
                    assert(self.weight_rows()[i as int][k as int] == nrn.weights[k as int]);
                    return false;
                }
                k = k + 1;
            }
            let mut k: usize = 0;
            while k < nrn.bonds.len()
                invariant
                    n == self.neurons.len(),
                    i < n,
                    nrn == self.neurons[i as int],
                    k <= nrn.bonds.len(),
                    forall|y: int| 0 <= y < k ==> (#[trigger] nrn.bonds@[y]).0 < n,
                decreases nrn.bonds.len() - k,
            {
                if nrn.bonds[k].0 as usize >= n {
                    assert(self.bond_lists()[i as int][k as int] == nrn.bonds[k as int]);
                    return false;
                }
                k = k + 1;
            }
            assert(self.weight_rows()[i as int] == nrn.weights@);
            assert(self.bond_lists()[i as int] == nrn.bonds@);
            i = i + 1;
        }
        true
    }

    /// Activity, stake, priority and weights of every participant.
    fn ingest(&self) -> (r: Option<(Vec<bool>, Vec<u64>, Vec<u64>, Vec<Vec<(u32, u32)>>)>)
        ensures
            r.is_some() ==> ({
                let (active, stake, priority, weights) = r.unwrap();
                &&& active@ == self.active_spec()
                &&& stake@ == self.stake_spec()
                &&& priority.len() == self.n()
                &&& forall|i: int| 0 <= i < self.n() ==> self.priority_step()[i] == Some(#[trigger] priority[i])
                &&& weights.len() == self.n()
                &&& rows_of(weights@) == self.weight_rows()
            }),
            (forall|i: int| 0 <= i < self.n() ==> (#[trigger] self.neurons[i]).stake == 0) ==> r.is_some(),
            r.is_some() <==> self.priorities_fit(),
    {
        let n = self.neurons.len();
        let block = self.get_current_block_as_u64();
        let mut active: Vec<bool> = Vec::new();
        let mut stake: Vec<u64> = Vec::new();
        let mut priority: Vec<u64> = Vec::new();
        let mut weights: Vec<Vec<(u32, u32)>> = Vec::new();
        let mut i: usize = 0;
        while i < n
            invariant
                n == self.neurons.len(),
                block == self.block_number,
                i <= n,
                active.len() == i,
                stake.len() == i,
                priority.len() == i,
                weights.len() == i,
                forall|k: int| 0 <= k < i ==> active[k] == self.active_spec()[k],
                forall|k: int| 0 <= k < i ==> stake[k] == self.stake_spec()[k],
                forall|k: int| 0 <= k < i ==> self.priority_step()[k] == Some(#[trigger] priority[k]),
                forall|k: int| 0 <= k < i ==> (#[trigger] weights[k])@ == self.weight_rows()[k],
                forall|k: int| 0 <= k < i ==> (#[trigger] self.priority_step()[k]).is_some(),
            decreases n - i,
        {
            let nrn = &self.neurons[i];
            active.push(is_active(block, nrn.last_update, self.config.activity_cutoff));
            stake.push(nrn.stake);
            match next_priority(nrn.priority, nrn.stake) {
                Some(p) => priority.push(p),
                None => {
                    assert(self.priority_step()[i as int].is_none());
                    return None;
                },
            }
            weights.push(copy_weights(&nrn.weights));
            i = i + 1;
        }
        assert(active@ =~= self.active_spec());
        assert(stake@ =~= self.stake_spec());
        assert(rows_of(weights@) =~= self.weight_rows());
        Some((active, stake, priority, weights))
    }

    /// The bond matrix that the step starts from, bonds in pruned
    /// participants left out.
    fn build_dense_bonds(&self) -> (r: Vec<Vec<u64>>)
        requires
            self.wf(),
        ensures
            square(r@, self.n()),
            rows_of(r@) == self.dense_bonds(),
    {
        let n = self.neurons.len();
        let mut out: Vec<Vec<u64>> = Vec::new();
        let mut i: usize = 0;
        while i < n
            invariant
                n == self.neurons.len(),
                self.wf(),
                i <= n,
                out.len() == i,
                forall|k: int| 0 <= k < i ==> (#[trigger] out[k]).len() == n,
                forall|k: int| 0 <= k < i ==> (#[trigger] out[k])@ == self.dense_bonds()[k],
            decreases n - i,
        {
            let list = &self.neurons[i].bonds;
            let mut row = zeros_u64(n);
            let mut k: usize = 0;
            while k < list.len()
                invariant
                    n == self.neurons.len(),
                    self.wf(),
                    i < n,
                    list@ == self.neurons[i as int].bonds@,
                    k <= list.len(),
                    row.len() == n,
                    row@ == pruned_row(list@, self.neurons_to_prune@, n as int, k as int),
                decreases list.len() - k,
            {
                let e = list[k];
                assert(e.0 < n) by {
                    assert(self.bond_lists()[i as int][k as int] == e);
                }
                let t = e.0 as usize;
                if !self.neurons_to_prune[t] {
                    row.set(t, e.1);
                }
                k = k + 1;
            }
            out.push(row);
            i = i + 1;
        }
        assert(rows_of(out@) =~= self.dense_bonds());
        out
    }
}


impl Pallet {
    /// Computes everything one step writes, without writing it.
    #[verifier::rlimit(50)]
    pub fn compute_step(&self, emission: u64) -> (r: Result<StepOutcome, StepError>)
        ensures
            !self.wf() <==> r == Err::<StepOutcome, StepError>(StepError::MalformedState),
            r == Err::<StepOutcome, StepError>(StepError::Overflow) <==> self.wf() && !self.step_fits(emission),
            r is Ok ==> ({
                let o = r->Ok_0;
                &&& o.active@ == self.active_spec()
                &&& o.priority.len() == self.n()
                &&& forall|i: int| 0 <= i < self.n() ==> self.priority_step()[i] == Some(#[trigger] o.priority[i])
                &&& o.rank@ == self.rank_spec()
                &&& o.trust@ == self.trust_spec()
                &&& o.consensus@ == self.consensus_spec()
                &&& o.incentive@ == self.incentive_spec()
                &&& o.dividends@ == self.dividends_spec(emission)
                &&& o.emission@ == self.emission_spec(emission)
                &&& o.bonds.len() == self.n()
                &&& rows_of(o.bonds@) == self.sparse_bonds(emission)
                &&& o.total_emission == sum_u64(self.emission_spec(emission))
                &&& o.total_bonds_purchased == self.bonds_purchased(emission)
                &&& o.total_emission <= emission
                &&& sum(self.raw_dividends(emission)) != 0 ==> emission - 3 * self.n() < o.total_emission
                &&& self.scores_positive() ==> ONE - self.n() < sum(o.rank@) <= ONE
                &&& sum(self.raw_incentive()) > 0 ==> ONE - self.n() < sum(o.incentive@) <= ONE
            }),
            self.quiet() ==> r is Ok && ({
                let o = r->Ok_0;
                &&& o.total_emission == 0
                &&& forall|i: int| 0 <= i < self.n() ==> {
                    &&& o.rank[i] == 0
                    &&& o.trust[i] == 0
                    &&& o.consensus[i] == 0
                    &&& o.incentive[i] == 0
                    &&& o.dividends[i] == 0
                    &&& #[trigger] o.emission[i] == 0
                }
            }),
    {
        if !self.check_wf() {
            return Err(StepError::MalformedState);
        }
        let n = self.neurons.len();
        let (active, stake, priority, weights) = match self.ingest() {
            Some(v) => v,
            None => {
                return Err(StepError::Overflow);
            },
        };
        let dense = self.build_dense_bonds();
        let (norm, norm_active_total) = match normalize_stake(&stake, &active) {
            Some(v) => v,
            None => {
                return Err(StepError::Overflow);
            },
        };
        assert(norm@ =~= self.normalized_stake());
        proof {
            if self.quiet() {
                assert forall|i: int| 0 <= i < n implies norm[i] == 0 by {
                    assert(stake[i] == self.neurons[i].stake);
                    assert(stake[i] == 0);
                }
            }
        }
        let (raw_rank, raw_trust) = match accumulate_scores(&norm, &active, &weights) {
            Some(v) => v,
            None => {
                return Err(StepError::Overflow);
            },
        };
        assert(raw_rank@ =~= self.raw_scores(false));
        assert(raw_trust@ =~= self.raw_scores(true));
        let total_rank = match checked_sum(&raw_rank) {
            Some(v) => v,
            None => {
                return Err(StepError::Overflow);
            },
        };
        let total_trust = match checked_sum(&raw_trust) {
            Some(v) => v,
            None => {
                return Err(StepError::Overflow);
            },
        };
        let (rank, trust) = if total_trust > 0 && total_rank > 0 {
            let r = match normalize(&raw_rank, total_rank) {
                Some(v) => v,
                None => {
                    return Err(StepError::Overflow);
                },
            };
            let t = match normalize(&raw_trust, norm_active_total) {
                Some(v) => v,
                None => {
                    return Err(StepError::Overflow);
                },
            };
            assert(r@ =~= self.rank_spec());
            assert(t@ =~= self.trust_spec());
            proof {
                lemma_normalized_sum(raw_rank@, r@);
            }
            (r, t)
        } else {
            (raw_rank, raw_trust)
        };
        if self.config.kappa == 0 || self.config.self_ownership == 0 {
            return Err(StepError::Overflow);
        }
        proof {
            lemma_div_shrinks(self.config.bonds_moving_average * ONE as int, MOVING_AVERAGE_SCALE * ONE as int);
            assert(self.config.bonds_moving_average * ONE as int <= i128::MAX) by (nonlinear_arith)
                requires self.config.bonds_moving_average <= U64_MAX, ONE == 0x8000_0000_0000_0000i128;
            assert(MOVING_AVERAGE_SCALE * ONE as int >= ONE) by (nonlinear_arith)
                requires MOVING_AVERAGE_SCALE == 1_000_000u64, ONE > 0;
            if self.config.kappa > 0 {
                lemma_fraction_bounds(1, self.config.kappa as int, 0);
                assert(1 * ONE as int == ONE as int);
            }
            if self.config.self_ownership > 0 {
                lemma_fraction_bounds(1, self.config.self_ownership as int, 0);
                assert(1 * ONE as int == ONE as int);
            }
        }
        let moving_average = match checked_div(from_u64(self.config.bonds_moving_average), from_u64(MOVING_AVERAGE_SCALE)) {
            Some(v) => v,
            None => {
                return Err(StepError::Overflow);
            },
        };
        let rho = from_u64(self.config.rho);
        let kappa = match checked_div(ONE, from_u64(self.config.kappa)) {
            Some(v) => v,
            None => {
                return Err(StepError::Overflow);
            },
        };
        let self_ownership = match checked_div(ONE, from_u64(self.config.self_ownership)) {
            Some(v) => v,
            None => {
                return Err(StepError::Overflow);
            },
        };
        let (consensus, raw_incentive) = if total_rank != 0 && total_trust != 0 {
            match consensus_and_incentive(&rank, &trust, kappa, rho) {
                Some(v) => v,
                None => {
                    return Err(StepError::Overflow);
                },
            }
        } else {
            (zeros_i128(n), zeros_i128(n))
        };
        assert(consensus@ =~= self.consensus_spec());
        assert(raw_incentive@ =~= self.raw_incentive());
        let total_incentive = match checked_sum(&raw_incentive) {
            Some(v) => v,
            None => {
                return Err(StepError::Overflow);
            },
        };
        let incentive = if total_incentive > 0 {
            match normalize(&raw_incentive, total_incentive) {
                Some(v) => {
                    proof {
                        lemma_normalized_sum(raw_incentive@, v@);
                    }
                    v
                },
                None => {
                    return Err(StepError::Overflow);
                },
            }
        } else {
            raw_incentive
        };
        assert(incentive@ =~= self.incentive_spec());
        let block_emission = from_u64(emission);
        let (new_bonds, purchased) = match update_bonds(&norm, &active, &weights, &dense, moving_average, block_emission) {
            Some(v) => v,
            None => {
                return Err(StepError::Overflow);
            },
        };
        assert(rows_of(new_bonds@) =~= self.bonds_after(emission));
        proof {
            if self.quiet() {
                assert(rows_of(new_bonds@) =~= rows_of(dense@));
                assert forall|j: int| 0 <= j < new_bonds.len() implies #[trigger] column_sum_to(rows_of(new_bonds@), j, new_bonds.len() as int) <= U64_MAX by {
                    assert(column_sum_to(self.dense_bonds(), j, self.n()) <= U64_MAX);
                }
            }
        }
        let totals = match bond_totals(&new_bonds) {
            Some(v) => v,
            None => {
                return Err(StepError::Overflow);
            },
        };
        assert(totals@ =~= self.bond_totals_spec(emission));
        proof {
            if self.quiet() {
                assert forall|i: int, j: int| 0 <= i < new_bonds.len() && 0 <= j < totals.len() implies #[trigger] new_bonds@[i]@[j] <= totals[j] by {
                    assert(rows_of(new_bonds@)[i] == new_bonds@[i]@);
                    lemma_bond_within_total(rows_of(new_bonds@), i, j);
                }
                assert forall|j: int| 0 <= j < totals.len() implies totals[j] <= U64_MAX by {
                    assert(column_sum_to(rows_of(new_bonds@), j, new_bonds.len() as int) <= U64_MAX);
                }
            }
        }
        let (raw_dividends, sparse) = match dividends(&incentive, &new_bonds, &totals, self_ownership) {
            Some(v) => v,
            None => {
                return Err(StepError::Overflow);
            },
        };
        assert(raw_dividends@ =~= self.raw_dividends(emission));
        assert(rows_of(sparse@) =~= self.sparse_bonds(emission));
        let total_dividends = match checked_sum(&raw_dividends) {
            Some(v) => v,
            None => {
                return Err(StepError::Overflow);
            },
        };
        let (divs, emitted) = if total_dividends != 0 {
            let d = match normalize(&raw_dividends, total_dividends) {
                Some(v) => v,
                None => {
                    return Err(StepError::Overflow);
                },
            };
            assert(d@ =~= self.dividends_spec(emission));
            assert(block_emission == (emission * ONE as int) as i128);
            let e = match emissions(&d, block_emission) {
                Some(v) => v,
                None => {
                    return Err(StepError::Overflow);
                },
            };
            assert(d@ =~= self.dividends_spec(emission));
            assert(e@ =~= self.emission_spec(emission));
            proof {
                lemma_normalized_sum(raw_dividends@, d@);
                lemma_budget(emission, d@, e@);
                lemma_emitted_matches((emission * ONE as int) as i128, d@, e@, e@.len() as int);
                lemma_emission_shortfall(emission, d@);
            }
            (d, e)
        } else {
            (raw_dividends, zeros_u64(n))
        };
        assert(divs@ =~= self.dividends_spec(emission));
        assert(emitted@ =~= self.emission_spec(emission));
        proof {
            if total_dividends == 0 {
                lemma_sum_zeros(emitted@, n as int);
            }
        }
        let total_emission = match checked_sum_u64(&emitted) {
            Some(v) => v,
            None => {
                return Err(StepError::Overflow);
            },
        };
        Ok(StepOutcome {
            active,
            priority,
            rank,
            trust,
            consensus,
            incentive,
            dividends: divs,
            emission: emitted,
            bonds: sparse,
            total_emission,
            total_bonds_purchased: purchased,
        })
    }
}


proof fn lemma_sum_zeros(s: Seq<u64>, k: int)
    requires
        forall|i: int| 0 <= i < s.len() ==> s[i] == 0,
    ensures
        sum_u64_to(s, k) == 0,
    decreases k,
{
    if k > 0 {
        lemma_sum_zeros(s, k - 1);
    }
}

proof fn lemma_emitted_matches(emission: i128, d: Seq<i128>, e: Seq<u64>, k: int)
    requires
        e.len() == d.len(),
        forall|i: int| 0 <= i < e.len() ==> e[i] == emission_spec(emission, d[i]),
    ensures
        sum_u64_to(e, k) == emitted_to(emission, d, k),
    decreases k,
{
    if k > 0 {
        lemma_emitted_matches(emission, d, e, k - 1);
    }
}

/// Emissions computed from dividends normalized to at most one stay
/// within the block's emission.
proof fn lemma_budget(emission: u64, d: Seq<i128>, e: Seq<u64>)
    requires
        sum(d) <= ONE,
        e.len() == d.len(),
        forall|i: int| 0 <= i < e.len() ==> e[i] == emission_spec((emission * ONE as int) as i128, d[i]),
        forall|i: int| 0 <= i < d.len() ==> 0 <= #[trigger] mul_spec((emission * ONE as int) as i128 as int, d[i] as int),
    ensures
        sum_u64(e) <= emission,
{
    let b = emission * ONE as int;
    assert(0 <= b <= i128::MAX) by (nonlinear_arith)
        requires emission <= 0xffff_ffff_ffff_ffffu64, ONE == 0x8000_0000_0000_0000i128, b == emission * ONE as int;
    if emission == 0 {
        assert forall|i: int| 0 <= i < e.len() implies e[i] == 0 by {
            assert(mul_spec(0, d[i] as int) == 0);
        }
        lemma_sum_zeros(e, e.len() as int);
    } else {
        assert forall|i: int| 0 <= i < d.len() implies d[i] >= 0 by {
            let m = mul_spec((emission * ONE as int) as i128 as int, d[i] as int);
            assert(0 <= m);
            assert((emission * ONE as int) as i128 as int == b);
            if d[i] < 0 {
                assert(b * d[i] < 0) by (nonlinear_arith)
                    requires b > 0, d[i] < 0;
                assert(b * d[i] <= -1);
                assert((b * d[i]) / (ONE as int) < 0);
            }
        }
        lemma_emitted_matches(b as i128, d, e, e.len() as int);
        lemma_emission_within_budget(emission, d);
    }
}

/// The values written to one record.
struct Commit {
    stake: u64,
    rank: u64,
    trust: u64,
    consensus: u64,
    incentive: u64,
    dividends: u64,
}

impl Pallet {
    /// Runs one step of the mechanism, emitting `emission_this_step` tokens
    /// as dividends, and commits its outcome. Where the state is malformed
    /// or a value leaves its range, nothing is written.
    pub fn mechanism_step(&mut self, emission_this_step: u64) -> (r: Result<(), StepError>)
        ensures
            !old(self).wf() <==> r == Err::<(), StepError>(StepError::MalformedState),
            old(self).quiet() ==> r is Ok,
            r == Err::<(), StepError>(StepError::Overflow) <==> old(self).wf() && !(old(self).step_fits(emission_this_step)
                && commit_fits(*old(self), emission_this_step)),
            r is Err ==> *final(self) == *old(self),
            r is Ok ==> ({
                let (p, q) = (*old(self), *final(self));
                let total = sum_u64(p.emission_spec(emission_this_step));
                &&& q.neurons.len() == p.neurons.len()
                &&& forall|i: int| 0 <= i < p.n() ==> #[trigger] committed_record(q.neurons[i], p.neurons[i], p, emission_this_step, i)
                &&& q.neurons_to_prune.len() == p.neurons_to_prune.len()
                &&& forall|i: int| 0 <= i < q.neurons_to_prune.len() ==> !q.neurons_to_prune[i]
                &&& q.total_emission == total
                &&& total <= emission_this_step
                &&& sum(p.raw_dividends(emission_this_step)) != 0 ==> emission_this_step - 3 * p.n() < total
                &&& p.scores_positive() ==> U64_MAX - 3 * p.n() < sum_u64(Seq::new(p.neurons@.len(), |i: int| q.neurons[i].rank)) <= U64_MAX
                &&& sum(p.raw_incentive()) > 0
                    ==> U64_MAX - 3 * p.n() < sum_u64(Seq::new(p.neurons@.len(), |i: int| q.neurons[i].incentive)) <= U64_MAX
                &&& q.total_bonds_purchased == p.bonds_purchased(emission_this_step)
                &&& q.total_issuance == p.total_issuance + total
                &&& q.total_stake == p.total_stake + total
                &&& q.last_mechanism_step_block == p.block_number
                &&& q.block_number == p.block_number
                &&& q.difficulty == p.difficulty
            }),
    {
        let o = match self.compute_step(emission_this_step) {
            Ok(o) => o,
            Err(e) => {
                return Err(e);
            },
        };
        let n = self.neurons.len();
        let ghost p = *self;
        proof {
            if p.quiet() {
                assert forall|k: int| 0 <= k < n implies o.rank[k] == 0 && o.trust[k] == 0 && o.consensus[k] == 0 && o.incentive[k] == 0
                    && o.dividends[k] == 0 by {
                    assert(o.emission[k] == 0);
                }
            }
        }
        let mut commits: Vec<Commit> = Vec::new();
        let mut i: usize = 0;
        while i < n
            invariant
                n == self.neurons.len(),
                *self == p,
                p.wf(),
                o.emission@ == p.emission_spec(emission_this_step),
                o.rank@ == p.rank_spec(),
                o.trust@ == p.trust_spec(),
                o.consensus@ == p.consensus_spec(),
                o.incentive@ == p.incentive_spec(),
                o.dividends@ == p.dividends_spec(emission_this_step),
                p.quiet() ==> o.total_emission == 0,
                p.quiet() ==> forall|k: int| 0 <= k < n ==> #[trigger] o.emission[k] == 0,
                p.quiet() ==> forall|k: int| 0 <= k < n ==> #[trigger] o.rank[k] == 0,
                p.quiet() ==> forall|k: int| 0 <= k < n ==> #[trigger] o.trust[k] == 0,
                p.quiet() ==> forall|k: int| 0 <= k < n ==> #[trigger] o.consensus[k] == 0,
                p.quiet() ==> forall|k: int| 0 <= k < n ==> #[trigger] o.incentive[k] == 0,
                p.quiet() ==> forall|k: int| 0 <= k < n ==> #[trigger] o.dividends[k] == 0,
                i <= n,
                p.scores_positive() ==> ONE - p.n() < sum(p.rank_spec()) <= ONE,
                sum(p.raw_incentive()) > 0 ==> ONE - p.n() < sum(p.incentive_spec()) <= ONE,
                p.step_fits(emission_this_step),
                forall|k: int| 0 <= k < i ==> #[trigger] record_commits(p, emission_this_step, k),
                commits.len() == i,
                forall|k: int| 0 <= k < i ==> ({
                    let c = #[trigger] commits[k];
                    &&& c.stake == p.neurons[k].stake + o.emission[k]
                    &&& c.rank == committed(o.rank[k])
                    &&& c.trust == committed(o.trust[k])
                    &&& c.consensus == committed(o.consensus[k])
                    &&& c.incentive == committed(o.incentive[k])
                    &&& c.dividends == committed(o.dividends[k])
                }),
            decreases n - i,
        {
            let stake = match self.neurons[i].stake.checked_add(o.emission[i]) {
                Some(v) => v,
                None => {
                    assert(!record_commits(p, emission_this_step, i as int));
                    return Err(StepError::Overflow);
                },
            };
            let rank = match commit_fraction(o.rank[i]) {
                Some(v) => v,
                None => {
                    assert(!record_commits(p, emission_this_step, i as int));
                    return Err(StepError::Overflow);
                },
            };
            let trust = match commit_fraction(o.trust[i]) {
                Some(v) => v,
                None => {
                    assert(!record_commits(p, emission_this_step, i as int));
                    return Err(StepError::Overflow);
                },
            };
            let consensus = match commit_fraction(o.consensus[i]) {
                Some(v) => v,
                None => {
                    assert(!record_commits(p, emission_this_step, i as int));
                    return Err(StepError::Overflow);
                },
            };
            let incentive = match commit_fraction(o.incentive[i]) {
                Some(v) => v,
                None => {
                    assert(!record_commits(p, emission_this_step, i as int));
                    return Err(StepError::Overflow);
                },
            };
            let dividends = match commit_fraction(o.dividends[i]) {
                Some(v) => v,
                None => {
                    assert(!record_commits(p, emission_this_step, i as int));
                    return Err(StepError::Overflow);
                },
            };
            assert(record_commits(p, emission_this_step, i as int));
            commits.push(Commit { stake, rank, trust, consensus, incentive, dividends });
            i = i + 1;
        }
        let total_issuance = match self.total_issuance.checked_add(o.total_emission) {
            Some(v) => v,
            None => {
                return Err(StepError::Overflow);
            },
        };
        let total_stake = match self.total_stake.checked_add(o.total_emission) {
            Some(v) => v,
            None => {
                return Err(StepError::Overflow);
            },
        };
        let mut bonds = o.bonds;
        let mut i: usize = 0;
        while i < n
            invariant
                n == p.neurons.len(),
                self.neurons.len() == n,
                self.neurons_to_prune.len() == p.neurons_to_prune.len(),
                self.total_issuance == p.total_issuance,
                self.total_stake == p.total_stake,
                self.block_number == p.block_number,
                self.difficulty == p.difficulty,
                p.wf(),
                o.active@ == p.active_spec(),
                o.priority.len() == n,
                forall|k: int| 0 <= k < n ==> p.priority_step()[k] == Some(#[trigger] o.priority[k]),
                o.emission@ == p.emission_spec(emission_this_step),
                o.rank@ == p.rank_spec(),
                o.trust@ == p.trust_spec(),
                o.consensus@ == p.consensus_spec(),
                o.incentive@ == p.incentive_spec(),
                o.dividends@ == p.dividends_spec(emission_this_step),
                p.scores_positive() ==> ONE - p.n() < sum(p.rank_spec()) <= ONE,
                sum(p.raw_incentive()) > 0 ==> ONE - p.n() < sum(p.incentive_spec()) <= ONE,
                bonds.len() == n,
                forall|k: int| i <= k < n ==> (#[trigger] bonds[k])@ == p.sparse_bonds(emission_this_step)[k],
                commits.len() == n,
                forall|k: int| 0 <= k < n ==> ({
                    let c = #[trigger] commits[k];
                    &&& c.stake == p.neurons[k].stake + o.emission[k]
                    &&& c.rank == committed(o.rank[k])
                    &&& c.trust == committed(o.trust[k])
                    &&& c.consensus == committed(o.consensus[k])
                    &&& c.incentive == committed(o.incentive[k])
                    &&& c.dividends == committed(o.dividends[k])
                }),
                i <= n,
                forall|k: int| 0 <= k < i ==> #[trigger] committed_record(self.neurons[k], p.neurons[k], p, emission_this_step, k),
                forall|k: int| i <= k < n ==> self.neurons[k] == p.neurons[k],
                forall|k: int| 0 <= k < i ==> !self.neurons_to_prune[k],
            decreases n - i,
        {
            let ghost before = self.neurons@;
            let mut neuron = self.neurons.remove(i);
            let row = bonds.remove(i);
            bonds.insert(i, Vec::new());
            let c = &commits[i];
            neuron.active = if o.active[i] { 1 } else { 0 };
            neuron.priority = o.priority[i];
            neuron.emission = o.emission[i];
            neuron.stake = c.stake;
            neuron.rank = c.rank;
            neuron.trust = c.trust;
            neuron.consensus = c.consensus;
            neuron.incentive = c.incentive;
            neuron.dividends = c.dividends;
            neuron.bonds = row;
            let ghost done = neuron;
            self.neurons.insert(i, neuron);
            assert(self.neurons@ =~= before.update(i as int, done));
            assert(committed_record(done, p.neurons[i as int], p, emission_this_step, i as int));
            if i < self.neurons_to_prune.len() {
                self.neurons_to_prune.set(i, false);
            }
            i = i + 1;
        }
        self.total_emission = o.total_emission;
        self.total_bonds_purchased = o.total_bonds_purchased;
        self.total_issuance = total_issuance;
        self.total_stake = total_stake;
        self.last_mechanism_step_block = self.block_number;
        proof {
            let ranks = Seq::new(p.neurons@.len(), |k: int| self.neurons[k].rank);
            let incentives = Seq::new(p.neurons@.len(), |k: int| self.neurons[k].incentive);
            assert forall|k: int| 0 <= k < n implies ranks[k] == committed(p.rank_spec()[k]) && incentives[k] == committed(
                p.incentive_spec()[k],
            ) by {
                assert(committed_record(self.neurons[k], p.neurons[k], p, emission_this_step, k));
            }
            if p.scores_positive() {
                lemma_committed_fields(ranks, p.rank_spec(), n as int);
                lemma_committed_sum(p.rank_spec());
            }
            if sum(p.raw_incentive()) > 0 {
                lemma_committed_fields(incentives, p.incentive_spec(), n as int);
                lemma_committed_sum(p.incentive_spec());
            }
        }
        Ok(())
    }
}

} // verus!
