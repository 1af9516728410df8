//! The state of the network that the two per-block entry points read and
//! write: participant records, pruning marks, configuration and global
//! counters.

use crate::difficulty::{adjustment_due, is_adjustment_due, next_difficulty, next_difficulty_spec};
use vstd::prelude::*;

verus! {

/// One registered participant.
pub struct NeuronMetadata {
    pub uid: u32,
    /// Tokens backing this participant.
    pub stake: u64,
    /// Block at which it last set weights.
    pub last_update: u64,
    pub priority: u64,
    /// Target uid and weight as a fraction of `u32::MAX`.
    pub weights: Vec<(u32, u32)>,
    /// Target uid and bond held in it.
    pub bonds: Vec<(u32, u64)>,
    pub active: u32,
    pub rank: u64,
    pub trust: u64,
    pub consensus: u64,
    pub incentive: u64,
    pub dividends: u64,
    pub emission: u64,
}

/// Configuration, validated by whoever sets it.
pub struct Config {
    pub min_difficulty: u64,
    pub max_difficulty: u64,
    pub adjustment_interval: u64,
    pub target_registrations_per_interval: u64,
    pub activity_cutoff: u64,
    /// Weight of the old bond in the moving average, in parts per million.
    pub bonds_moving_average: u64,
    pub rho: u64,
    /// The consensus gate is centred at a trust of `1 / kappa`.
    pub kappa: u64,
    /// A participant keeps `1 / self_ownership` of its incentive.
    pub self_ownership: u64,
}

/// Why a mechanism step was abandoned. Either way no state was written.
#[derive(Clone, Copy, Debug, PartialEq, Eq, Structural)]
pub enum StepError {
    /// A uid out of place, a target outside the participant set, or a
    /// pruning table of another size.
    MalformedState,
    /// A fixed-point value or a counter left its representable range.
    Overflow,
}

pub struct Pallet {
    /// Participant records, the one with uid `i` at index `i`.
    pub neurons: Vec<NeuronMetadata>,
    /// Whether each uid is to be pruned at the next step.
    pub neurons_to_prune: Vec<bool>,
    pub config: Config,
    /// The number of the block being executed.
    pub block_number: u64,
    pub total_stake: u64,
    pub total_issuance: u64,
    pub total_emission: u64,
    pub total_bonds_purchased: u64,
    pub difficulty: u64,
    pub last_difficulty_adjustment_block: u64,
    pub registrations_this_interval: u64,
    pub registrations_this_block: u64,
    pub last_mechanism_step_block: u64,
}

/// Two records agree on every field but bonds.
pub open spec fn same_inputs(a: NeuronMetadata, b: NeuronMetadata) -> bool {
    &&& a.uid == b.uid
    &&& a.stake == b.stake
    &&& a.last_update == b.last_update
    &&& a.priority == b.priority
    &&& a.weights@ == b.weights@
    &&& a.active == b.active
    &&& a.rank == b.rank
    &&& a.trust == b.trust
    &&& a.consensus == b.consensus
    &&& a.incentive == b.incentive
    &&& a.dividends == b.dividends
    &&& a.emission == b.emission
}

/// Two states agree on the pruning table, the configuration, the block and
/// every register outside the difficulty controller.
pub open spec fn same_step_registers(a: Pallet, b: Pallet) -> bool {
    &&& a.neurons_to_prune@ == b.neurons_to_prune@
    &&& a.config == b.config
    &&& a.block_number == b.block_number
    &&& a.total_stake == b.total_stake
    &&& a.total_issuance == b.total_issuance
    &&& a.total_emission == b.total_emission
    &&& a.total_bonds_purchased == b.total_bonds_purchased
    &&& a.last_mechanism_step_block == b.last_mechanism_step_block
}

impl Pallet {
    pub fn get_current_block_as_u64(&self) -> (r: u64)
        ensures
            r == self.block_number,
    {
        self.block_number
    }

    /// Resets the block's registration count and, once an adjustment
    /// interval has passed, retargets the difficulty.
    pub fn update_difficulty(&mut self)
        ensures
            final(self).registrations_this_block == 0,
            adjustment_due(old(self).block_number, old(self).last_difficulty_adjustment_block, old(self).config.adjustment_interval) ==> {
                &&& final(self).difficulty == next_difficulty_spec(
                    old(self).difficulty,
                    old(self).registrations_this_interval,
                    old(self).config.target_registrations_per_interval,
                    old(self).config.min_difficulty,
                    old(self).config.max_difficulty,
                )
                &&& final(self).last_difficulty_adjustment_block == old(self).block_number
                &&& final(self).registrations_this_interval == 0
            },
            !adjustment_due(old(self).block_number, old(self).last_difficulty_adjustment_block, old(self).config.adjustment_interval) ==> {
                &&& final(self).difficulty == old(self).difficulty
                &&& final(self).last_difficulty_adjustment_block == old(self).last_difficulty_adjustment_block
                &&& final(self).registrations_this_interval == old(self).registrations_this_interval
            },
            final(self).neurons@ == old(self).neurons@,
            same_step_registers(*final(self), *old(self)),
    {
        self.registrations_this_block = 0;
        let current_block = self.get_current_block_as_u64();
        if is_adjustment_due(current_block, self.last_difficulty_adjustment_block, self.config.adjustment_interval) {
            self.difficulty = next_difficulty(
                self.difficulty,
                self.registrations_this_interval,
                self.config.target_registrations_per_interval,
                self.config.min_difficulty,
                self.config.max_difficulty,
            );
            self.last_difficulty_adjustment_block = current_block;
            self.registrations_this_interval = 0;
        }
    }

    /// Clears the bonds of every participant.
    pub fn reset_bonds(&mut self)
        ensures
            final(self).neurons.len() == old(self).neurons.len(),
            forall|i: int| 0 <= i < final(self).neurons.len() ==> (#[trigger] final(self).neurons[i]).bonds@.len() == 0,
            forall|i: int| 0 <= i < final(self).neurons.len() ==> #[trigger] same_inputs(final(self).neurons[i], old(self).neurons[i]),
            same_step_registers(*final(self), *old(self)),
            final(self).difficulty == old(self).difficulty,
            final(self).last_difficulty_adjustment_block == old(self).last_difficulty_adjustment_block,
            final(self).registrations_this_interval == old(self).registrations_this_interval,
            final(self).registrations_this_block == old(self).registrations_this_block,
    {
        let n = self.neurons.len();
        let mut i: usize = 0;
        while i < n
            invariant
                n == self.neurons.len(),
                n == old(self).neurons.len(),
                i <= n,
                forall|k: int| 0 <= k < i ==> (#[trigger] self.neurons[k]).bonds@.len() == 0,
                forall|k: int| 0 <= k < n ==> #[trigger] same_inputs(self.neurons[k], old(self).neurons[k]),
                same_step_registers(*self, *old(self)),
                self.difficulty == old(self).difficulty,
                self.last_difficulty_adjustment_block == old(self).last_difficulty_adjustment_block,
                self.registrations_this_interval == old(self).registrations_this_interval,
                self.registrations_this_block == old(self).registrations_this_block,
            decreases n - i,
        {
            let ghost prev = self.neurons@;
            let mut neuron = self.neurons.remove(i);
            neuron.bonds = Vec::new();
            let ghost cleared = neuron;
            self.neurons.insert(i, neuron);
            assert(self.neurons@ =~= prev.update(i as int, cleared));
            assert forall|k: int| 0 <= k < n implies #[trigger] same_inputs(self.neurons[k], old(self).neurons[k]) by {
                assert(same_inputs(prev[k], old(self).neurons[k]));
            }
            i = i + 1;
        }
    }
}

} // verus!
