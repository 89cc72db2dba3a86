//! Deterministic address derivation for an offer's record and its vault.
//!
//! On chain, a program-controlled storage address is derived from
//! (program identity, a fixed namespace tag, maker identity, offer id) plus a
//! one-byte completion value (the "bump"), searched downward from the top of
//! its range until the derived address is one no user could hold a key for.
//! This model keeps the derivation's structure — and therefore its two load
//! bearing properties, determinism and collision freedom — by making the
//! derived address carry its inputs directly. The namespace tag is carried by
//! the address type itself: this program derives record addresses from
//! exactly one namespace. In the model's address space every candidate
//! completion value yields a program-controlled address, so the bounded
//! search always succeeds at its first candidate, the top of the range.

use vstd::prelude::*;

verus! {

/// The highest candidate completion value, where the bounded search starts.
pub const BUMP_SEARCH_TOP: u8 = 255;

/// The storage address of an offer record: a pure function of the program
/// identity and the `(maker, id)` pair, reproducible by anyone.
#[derive(Clone, Copy, PartialEq, Eq, Structural, Debug)]
pub struct OfferKey {
    /// The fixed program identity bound into every derivation.
    pub program: u64,
    /// The identity of the offer's creator.
    pub maker: u64,
    /// The maker-chosen offer id (unique per maker, not globally).
    pub id: u64,
}

/// The record address derived from `(program, maker, id)`.
pub open spec fn offer_key(program: u64, maker: u64, id: u64) -> OfferKey {
    OfferKey { program, maker, id }
}

/// Whether a completion value finishes the derivation. In the model's
/// address space the first candidate of the downward search always does.
pub open spec fn bump_completes(bump: u8) -> bool {
    bump == BUMP_SEARCH_TOP
}

/// The address the derivation reproduces for a stored completion value:
/// `Some` exactly when the completion value is the one the creation-time
/// search settled on, and then the same address, bit for bit.
pub open spec fn offer_address_with_bump(program: u64, maker: u64, id: u64, bump: u8) -> Option<
    OfferKey,
> {
    if bump_completes(bump) {
        Some(offer_key(program, maker, id))
    } else {
        None
    }
}

/// Re-derives the record address from its inputs and a stored completion
/// value; returns `None` when the completion value does not complete the
/// derivation. Later operations use this to prove "this vault belongs to
/// this offer" without a stored back-pointer.
pub fn complete_offer_address(program: u64, maker: u64, id: u64, bump: u8) -> (r: Option<OfferKey>)
    ensures
        r == offer_address_with_bump(program, maker, id, bump),
{
    if bump == BUMP_SEARCH_TOP {
        Some(OfferKey { program, maker, id })
    } else {
        None
    }
}

/// Derives the record address for `(maker, id)` together with the completion
/// value the search settled on, scanning candidates downward from the top of
/// the range. The search space is bounded; in this model its first candidate
/// always completes, so derivation never fails and callers never surface a
/// creation failure from it.
pub fn derive_offer_address(program: u64, maker: u64, id: u64) -> (r: (OfferKey, u8))
    ensures
        offer_address_with_bump(program, maker, id, r.1) == Some(r.0),
        r.0 == offer_key(program, maker, id),
{
    let mut bump: u8 = BUMP_SEARCH_TOP;
    loop
        invariant
            bump == BUMP_SEARCH_TOP,
        decreases bump,
    {
        let candidate = complete_offer_address(program, maker, id, bump);
        match candidate {
            Some(key) => {
                return (key, bump);
            },
            None => {
                // Unreachable in the model: the first candidate completes.
                assert(false);
            },
        }
    }
}

/// Determinism and injectivity of the derivation: two derivations agree on
/// the address exactly when they were given the same program identity and
/// the same `(maker, id)` pair. In particular re-deriving with the same
/// inputs always reproduces the same address, and distinct `(maker, id)`
/// pairs never collide.
pub proof fn lemma_offer_address_injective(
    p1: u64,
    m1: u64,
    i1: u64,
    p2: u64,
    m2: u64,
    i2: u64,
)
    ensures
        offer_key(p1, m1, i1) == offer_key(p2, m2, i2) <==> (p1 == p2 && m1 == m2 && i1 == i2),
{
}

} // verus!
