//! The integer rules by which a persona's pattern library evolves.

use vstd::prelude::*;

verus! {

/// Successes a pattern learned from MIDI needs before it spawns a variant.
pub const EVOLVE_AFTER_SUCCESSES: u32 = 5;

/// Evolved patterns a persona needs before its soul is named.
pub const SOUL_AFTER_EVOLVED: usize = 10;

/// A pattern spawns an evolved variant when it was learned from MIDI
/// (generation 0) and has succeeded more than five times.
pub fn spawns_variant(generation: u32, success_count: u32) -> (r: bool)
    ensures
        r == (generation == 0 && success_count > EVOLVE_AFTER_SUCCESSES),
{
    generation == 0 && success_count > EVOLVE_AFTER_SUCCESSES
}

/// A persona's soul is named when it has none yet and more than ten of its
/// patterns are evolved.
pub fn names_soul(already_named: bool, evolved_count: usize) -> (r: bool)
    ensures
        r == (!already_named && evolved_count > SOUL_AFTER_EVOLVED),
{
    !already_named && evolved_count > SOUL_AFTER_EVOLVED
}

} // verus!
