//! The player character of the little text adventure that drives the
//! simulation repository's side experiment: three byte-sized attributes and
//! a guarded way to lose health.

use vstd::prelude::*;

verus! {

/// The largest health a player can have.
const MAX_HEALTH: u8 = 255;

/// A player character.
#[derive(Clone, Copy, Debug)]
pub struct Player {
    health: u8,
    strength: u8,
    luck: u8,
}

impl Player {
    pub closed spec fn spec_health(self) -> u8 {
        self.health
    }

    pub closed spec fn spec_strength(self) -> u8 {
        self.strength
    }

    pub closed spec fn spec_luck(self) -> u8 {
        self.luck
    }

    pub fn new(health: u8, strength: u8, luck: u8) -> (player: Player)
        ensures
            player.spec_health() == health,
            player.spec_strength() == strength,
            player.spec_luck() == luck,
    {
        Player { health, strength, luck }
    }

    pub fn health(&self) -> (health: &u8)
        ensures
            *health == self.spec_health(),
    {
        &self.health
    }

    pub fn strength(&self) -> (strength: &u8)
        ensures
            *strength == self.spec_strength(),
    {
        &self.strength
    }

    pub fn luck(&self) -> (luck: &u8)
        ensures
            *luck == self.spec_luck(),
    {
        &self.luck
    }

    /// Lowers health by `amount`, clamped into the valid range. Taking more
    /// than the player has is a caller bug and is ruled out by the
    /// contract.
    pub fn change_health_by(&mut self, amount: u8)
        requires
            amount <= old(self).spec_health(),
        ensures
            final(self).spec_health() == old(self).spec_health() - amount,
            final(self).spec_strength() == old(self).spec_strength(),
            final(self).spec_luck() == old(self).spec_luck(),
    {
        self.health = clamp(self.health - amount, 0, MAX_HEALTH);
    }
}

/// Bounds `value` to the closed range from `minimum` to `maximum`.
fn clamp(value: u8, minimum: u8, maximum: u8) -> (clamped: u8)
    ensures
        clamped == (if value < minimum {
            minimum
        } else if value > maximum {
            maximum
        } else {
            value
        }),
{
    if value < minimum {
        minimum
    } else if value > maximum {
        maximum
    } else {
        value
    }
}

} // verus!
