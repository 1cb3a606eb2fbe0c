//! Rarity classes of identifiers, from the ubiquitous to the one of a kind.

use vstd::prelude::*;

use crate::ordinal::ordinal_cycle;
use crate::ordinal::ordinal_height;
use crate::ordinal::ordinal_third;

verus! {

/// How rare an identifier is, by the boundaries its block sits on:
/// the first satoshi of a block is at least uncommon, of a difficulty
/// period rare, of an epoch epic, of a cycle legendary; the very first is
/// mythic, and everything else is common.
#[derive(Clone, Copy, Debug, PartialEq, Eq, Structural, Hash)]
pub enum Rarity {
    /// Not the first satoshi of its block.
    Common,
    /// First satoshi of its block.
    Uncommon,
    /// First satoshi of a difficulty period.
    Rare,
    /// First satoshi of an epoch.
    Epic,
    /// First satoshi of a cycle.
    Legendary,
    /// The first satoshi of all.
    Mythic,
}

/// The rarity of identifier `n`, read off the fields of its degree.
pub open spec fn rarity_of(n: nat) -> Rarity {
    let hour = ordinal_cycle(n);
    let minute = ordinal_height(n) % 210_000;
    let second = ordinal_height(n) % 2016;
    let third = ordinal_third(n);
    if hour == 0 && minute == 0 && second == 0 && third == 0 {
        Rarity::Mythic
    } else if minute == 0 && second == 0 && third == 0 {
        Rarity::Legendary
    } else if minute == 0 && third == 0 {
        Rarity::Epic
    } else if second == 0 && third == 0 {
        Rarity::Rare
    } else if third == 0 {
        Rarity::Uncommon
    } else {
        Rarity::Common
    }
}

} // verus!
