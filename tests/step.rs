use subtensor_step::difficulty::{is_adjustment_due, next_difficulty};
use subtensor_step::engine::{consensus_of, emissions, next_priority, normalize};
use subtensor_step::fixed::{from_u64, to_u64, ONE};
use subtensor_step::pallet::{Config, NeuronMetadata, Pallet, StepError};

const FULL: u64 = u64::MAX;
const EMISSION: u64 = 1_000_000_000;

fn neuron(uid: u32, stake: u64, last_update: u64, weights: Vec<(u32, u32)>, bonds: Vec<(u32, u64)>) -> NeuronMetadata {
    NeuronMetadata {
        uid,
        stake,
        last_update,
        priority: 0,
        weights,
        bonds,
        active: 0,
        rank: 0,
        trust: 0,
        consensus: 0,
        incentive: 0,
        dividends: 0,
        emission: 0,
    }
}

fn config() -> Config {
    Config {
        min_difficulty: 1,
        max_difficulty: 1_000_000,
        adjustment_interval: 100,
        target_registrations_per_interval: 10,
        activity_cutoff: 100,
        bonds_moving_average: 900_000,
        rho: 10,
        kappa: 2,
        self_ownership: 2,
    }
}

fn pallet(neurons: Vec<NeuronMetadata>) -> Pallet {
    let n = neurons.len();
    Pallet {
        neurons,
        neurons_to_prune: vec![false; n],
        config: config(),
        block_number: 1000,
        total_stake: 1000,
        total_issuance: 1000,
        total_emission: 0,
        total_bonds_purchased: 0,
        difficulty: 1000,
        last_difficulty_adjustment_block: 0,
        registrations_this_interval: 0,
        registrations_this_block: 3,
        last_mechanism_step_block: 0,
    }
}

/// Participant 0 active with all the stake, weighting 1 fully and 2 not at all.
fn three() -> Pallet {
    pallet(vec![
        neuron(0, 1000, 990, vec![(1, u32::MAX), (2, 0)], vec![]),
        neuron(1, 0, 0, vec![], vec![]),
        neuron(2, 0, 0, vec![], vec![]),
    ])
}

#[test]
fn difficulty_doubles_when_registrations_exceed_target() {
    assert_eq!(next_difficulty(1000, 50, 10, 1, 1_000_000), 2000);
    assert_eq!(next_difficulty(1000, 50, 10, 1, 1500), 1500);
    assert_eq!(next_difficulty(u64::MAX, 50, 10, 1, u64::MAX), u64::MAX);
}

#[test]
fn difficulty_halves_otherwise() {
    assert_eq!(next_difficulty(1000, 2, 10, 1, 1_000_000), 500);
    assert_eq!(next_difficulty(1000, 2, 10, 800, 1_000_000), 800);
    assert_eq!(next_difficulty(1001, 10, 10, 1, 1_000_000), 500);
}

#[test]
fn adjustment_waits_for_interval() {
    assert!(is_adjustment_due(200, 100, 100));
    assert!(!is_adjustment_due(199, 100, 100));
    assert!(!is_adjustment_due(50, 100, 10));
}

#[test]
fn update_difficulty_retargets_at_interval() {
    let mut p = three();
    p.registrations_this_interval = 50;
    p.update_difficulty();
    assert_eq!(p.difficulty, 2000);
    assert_eq!(p.registrations_this_block, 0);
    assert_eq!(p.registrations_this_interval, 0);
    assert_eq!(p.last_difficulty_adjustment_block, 1000);

    let mut q = three();
    q.registrations_this_interval = 2;
    q.update_difficulty();
    assert_eq!(q.difficulty, 500);

    let mut r = three();
    r.last_difficulty_adjustment_block = 950;
    r.registrations_this_interval = 50;
    r.update_difficulty();
    assert_eq!(r.difficulty, 1000);
    assert_eq!(r.registrations_this_interval, 50);
    assert_eq!(r.registrations_this_block, 0);
}

#[test]
fn current_block() {
    assert_eq!(three().get_current_block_as_u64(), 1000);
}

#[test]
fn reset_bonds_clears_every_row() {
    let mut p = three();
    p.neurons[0].bonds = vec![(1, 5), (2, 7)];
    p.neurons[2].bonds = vec![(0, 1)];
    p.reset_bonds();
    assert!(p.neurons.iter().all(|n| n.bonds.is_empty()));
    assert_eq!(p.neurons[0].weights, vec![(1, u32::MAX), (2, 0)]);
}

#[test]
fn single_validator_scenario() {
    let mut p = three();
    assert_eq!(p.mechanism_step(EMISSION), Ok(()));
    assert_eq!(p.neurons[1].rank, FULL);
    assert_eq!(p.neurons[2].rank, 0);
    assert_eq!(p.neurons[0].rank, 0);
    assert_eq!(p.neurons[1].trust, FULL);
    assert_eq!(p.neurons[0].active, 1);
    assert_eq!(p.neurons[1].active, 0);
    // One tenth of the increment after one step of a 0.9 moving average.
    assert_eq!(p.neurons[0].bonds, vec![(1, EMISSION / 10)]);
    // Only the last edge's change is kept: here the zero weight toward 2.
    assert_eq!(p.total_bonds_purchased, 0);
    assert_eq!(p.neurons[0].emission, EMISSION / 2);
    assert_eq!(p.neurons[1].emission, EMISSION / 2);
    assert_eq!(p.neurons[0].stake, 1000 + EMISSION / 2);
    assert_eq!(p.total_emission, EMISSION);
    assert_eq!(p.total_issuance, 1000 + EMISSION);
    assert_eq!(p.total_stake, 1000 + EMISSION);
    assert_eq!(p.last_mechanism_step_block, 1000);
}

#[test]
fn bond_converges_toward_emission() {
    let mut p = three();
    let mut last: u64 = 0;
    for _ in 0..40 {
        p.neurons[0].stake = 1000;
        assert_eq!(p.mechanism_step(EMISSION), Ok(()));
        let b = p.neurons[0].bonds[0].1;
        assert!(b > last && b <= EMISSION);
        // The gap to the emission shrinks by the moving average each step.
        assert!(EMISSION - b <= (EMISSION - last) * 9 / 10 + 1);
        last = b;
    }
    assert!(EMISSION - last < EMISSION / 50);
}

#[test]
fn normalized_incentive_is_full_scale() {
    let mut p = pallet(vec![
        neuron(0, 600, 990, vec![(1, u32::MAX), (2, u32::MAX / 2)], vec![]),
        neuron(1, 400, 990, vec![(2, u32::MAX)], vec![]),
        neuron(2, 0, 0, vec![], vec![]),
    ]);
    assert_eq!(p.mechanism_step(EMISSION), Ok(()));
    // A unit of fixed-point precision is two units of the committed scale.
    let total: u128 = p.neurons.iter().map(|n| n.incentive as u128).sum();
    assert!(total <= FULL as u128 && total + 9 > FULL as u128);
    let ranks: u128 = p.neurons.iter().map(|n| n.rank as u128).sum();
    assert!(ranks <= FULL as u128 && ranks + 9 > FULL as u128);
    let emitted: u64 = p.neurons.iter().map(|n| n.emission).sum();
    assert!(emitted <= EMISSION && EMISSION - emitted < 3);
    assert_eq!(p.total_emission, emitted);
}

#[test]
fn idle_participant_gets_nothing() {
    let mut p = pallet(vec![
        neuron(0, 1000, 990, vec![(1, u32::MAX)], vec![]),
        neuron(1, 0, 0, vec![], vec![]),
        neuron(2, 0, 0, vec![], vec![]),
    ]);
    assert_eq!(p.mechanism_step(EMISSION), Ok(()));
    let idle = &p.neurons[2];
    assert_eq!((idle.rank, idle.trust, idle.incentive, idle.dividends, idle.emission), (0, 0, 0, 0, 0));
    assert!(idle.bonds.is_empty());
    assert_eq!(idle.stake, 0);
}

#[test]
fn self_weight_changes_nothing() {
    let mut a = three();
    let mut b = three();
    b.neurons[0].weights.push((0, u32::MAX));
    assert_eq!(a.mechanism_step(EMISSION), Ok(()));
    assert_eq!(b.mechanism_step(EMISSION), Ok(()));
    assert_eq!(a.neurons[0].rank, b.neurons[0].rank);
    assert_eq!(a.neurons[0].trust, b.neurons[0].trust);
    assert_eq!(a.neurons[0].rank, 0);
    assert_eq!(a.neurons[1].rank, b.neurons[1].rank);
}

#[test]
fn pruned_target_bonds_are_dropped() {
    let mut p = three();
    p.neurons[0].bonds = vec![(2, 5_000)];
    p.neurons[1].bonds = vec![(2, 7_000)];
    p.neurons_to_prune[2] = true;
    assert_eq!(p.mechanism_step(EMISSION), Ok(()));
    assert!(p.neurons.iter().all(|n| n.bonds.iter().all(|b| b.0 != 2)));
    assert!(p.neurons_to_prune.iter().all(|x| !*x));

    let mut q = three();
    q.neurons[0].bonds = vec![(2, 5_000)];
    q.neurons[1].bonds = vec![(2, 7_000)];
    assert_eq!(q.mechanism_step(EMISSION), Ok(()));
    assert_eq!(q.neurons[1].bonds, vec![(2, 7_000)]);
}

#[test]
fn malformed_state_is_refused_untouched() {
    let mut p = three();
    p.neurons[1].uid = 7;
    assert_eq!(p.mechanism_step(EMISSION), Err(StepError::MalformedState));
    assert_eq!(p.neurons[0].stake, 1000);
    assert_eq!(p.total_emission, 0);

    let mut q = three();
    q.neurons[0].weights.push((9, 1));
    assert_eq!(q.mechanism_step(EMISSION), Err(StepError::MalformedState));

    let mut r = three();
    r.neurons_to_prune.pop();
    assert_eq!(r.mechanism_step(EMISSION), Err(StepError::MalformedState));
}

#[test]
fn overflow_is_refused_untouched() {
    let mut p = three();
    p.config.kappa = 0;
    assert_eq!(p.mechanism_step(EMISSION), Err(StepError::Overflow));
    assert_eq!(p.neurons[1].rank, 0);

    let mut q = three();
    q.total_issuance = u64::MAX;
    assert_eq!(q.mechanism_step(EMISSION), Err(StepError::Overflow));
    assert_eq!(q.neurons[0].stake, 1000);
    assert_eq!(q.last_mechanism_step_block, 0);
}

#[test]
fn no_stake_no_emission() {
    let mut p = pallet(vec![neuron(0, 0, 990, vec![], vec![]), neuron(1, 0, 0, vec![], vec![])]);
    assert_eq!(p.mechanism_step(EMISSION), Ok(()));
    assert_eq!(p.total_emission, 0);
    assert!(p.neurons.iter().all(|n| n.emission == 0 && n.rank == 0));
}

#[test]
fn priority_rises_by_log_of_stake() {
    assert_eq!(next_priority(5, 1023), Some(15));
    assert_eq!(next_priority(0, 0), Some(0));
    assert_eq!(next_priority(0, 2), Some(1));
    assert_eq!(next_priority(1, u64::MAX), None);
    assert_eq!(next_priority(u64::MAX, 1), None);
}

#[test]
fn consensus_is_half_at_the_threshold() {
    let kappa = ONE / 2;
    assert_eq!(consensus_of(kappa, kappa, 10 * ONE), Some(ONE / 2));
    let high = consensus_of(ONE, kappa, 10 * ONE).unwrap();
    let low = consensus_of(0, kappa, 10 * ONE).unwrap();
    assert!(high > ONE * 99 / 100 && high < ONE);
    assert!(low < ONE / 100 && low > 0);
}

#[test]
fn normalize_divides_by_total() {
    let v = vec![ONE, 3 * ONE];
    assert_eq!(normalize(&v, 4 * ONE), Some(vec![ONE / 4, 3 * ONE / 4]));
    assert_eq!(normalize(&v, 0), None);
    assert_eq!(normalize(&vec![-1], ONE), None);
}

#[test]
fn emissions_scale_the_budget() {
    let e = from_u64(1000);
    assert_eq!(emissions(&vec![ONE / 4, ONE / 2, 0], e), Some(vec![250, 500, 0]));
}

#[test]
fn fixed_conversions() {
    assert_eq!(from_u64(3), 3 * ONE);
    assert_eq!(to_u64(3 * ONE + ONE / 2), 3);
    assert_eq!(to_u64(from_u64(u64::MAX)), u64::MAX);
}

#[test]
fn stakeless_network_keeps_bonds() {
    let mut p = pallet(vec![
        neuron(0, 0, 990, vec![(1, u32::MAX)], vec![(1, 40)]),
        neuron(1, 0, 990, vec![(0, u32::MAX)], vec![(0, 60)]),
    ]);
    p.neurons[1].priority = 9;
    assert_eq!(p.mechanism_step(EMISSION), Ok(()));
    assert_eq!(p.total_emission, 0);
    assert_eq!(p.total_issuance, 1000);
    assert_eq!(p.neurons[0].bonds, vec![(1, 40)]);
    assert_eq!(p.neurons[1].bonds, vec![(0, 60)]);
    assert_eq!(p.neurons[1].priority, 9);
    assert!(p.neurons.iter().all(|n| n.rank == 0 && n.dividends == 0 && n.stake == 0));
}
