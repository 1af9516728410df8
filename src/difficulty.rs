//! Retargeting of the registration difficulty.

use vstd::prelude::*;

verus! {

/// The difficulty after one adjustment: doubled, up to `max`, when more
/// registrations came in than targeted; otherwise halved, down to `min`.
pub open spec fn next_difficulty_spec(current: u64, registrations: u64, target: u64, min: u64, max: u64) -> int {
    if registrations > target {
        if 2 * current >= max { max as int } else { 2 * current }
    } else {
        if current / 2 <= min { min as int } else { (current / 2) as int }
    }
}

/// Whether an adjustment is due at `current_block`.
pub open spec fn adjustment_due(current_block: u64, last_adjustment: u64, interval: u64) -> bool {
    current_block - last_adjustment >= interval
}

pub fn next_difficulty(current: u64, registrations: u64, target: u64, min: u64, max: u64) -> (r: u64)
    ensures
        r == next_difficulty_spec(current, registrations, target, min, max),
{
    if registrations > target {
        if current >= max / 2 + max % 2 {
            max
        } else {
            current * 2
        }
    } else {
        let half = current / 2;
        if half <= min {
            min
        } else {
            half
        }
    }
}

pub fn is_adjustment_due(current_block: u64, last_adjustment: u64, interval: u64) -> (r: bool)
    ensures
        r == adjustment_due(current_block, last_adjustment, interval),
{
    current_block >= last_adjustment && current_block - last_adjustment >= interval
}

} // verus!
