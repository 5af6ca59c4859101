//! Laws of the simulation that relate several functions, stated and proved
//! once and for all inputs.

use vstd::prelude::*;
use crate::store::Nommer;
use crate::sim::{player_eats, enemy_eats};

verus! {

/// Consumption is symmetric-exclusive: while the player has no active
/// power-up, one enemy can never both be eaten and eat the player in the
/// same tick's evaluation, because the size comparisons are strict.
/// (With an active power-up both conditions can hold at once; the applied
/// shrink is then suppressed, but the conditions themselves are not
/// exclusive, so the law is stated for the powerless case.)
pub proof fn lemma_consumption_exclusive(p: Nommer, e: Nommer)
    requires
        p.powerup_remaining == 0,
    ensures
        !(player_eats(p, e) && enemy_eats(p, e)),
{
}

} // verus!
