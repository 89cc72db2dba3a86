//! The persisted state describing one outstanding offer.

use vstd::prelude::*;

verus! {

/// One outstanding offer: a maker's standing proposal to exchange a fixed
/// amount of asset A, escrowed in the offer's vault, for a fixed amount of
/// asset B. All fields are set once, atomically, at creation; the record is
/// immutable afterwards and is destroyed as a unit with its vault when the
/// offer is settled.
#[derive(Clone, Copy, PartialEq, Eq, Structural, Debug)]
pub struct Offer {
    /// Caller-chosen id, unique per maker (not globally unique).
    pub id: u64,
    /// Identity of the offer's creator.
    pub maker: u64,
    /// Asset type escrowed in the vault.
    pub token_mint_a: u64,
    /// Asset type the maker wants in return.
    pub token_mint_b: u64,
    /// Amount of asset B the maker requires.
    pub token_b_wanted_amount: u64,
    /// The derivation completion value fixed at creation; re-deriving the
    /// vault authority with it is what authorizes draining the vault later.
    pub bump: u8,
}

} // verus!
