//! A two-party, non-custodial token-swap escrow.
//!
//! A maker deposits an amount of asset A into a program-controlled vault and
//! declares the amount of asset B wanted in return; any taker may later settle
//! the offer atomically, receiving asset A while the maker receives asset B.
//! No party ever gains unilateral control of escrowed funds: the vault is
//! controlled by an authority derivable only from the offer's identity.
//!
//! On chain, identities and asset types are opaque 32-byte keys and the
//! ledger lives in the runtime. This crate models each key as a 64-bit
//! scalar (equality is the only operation the protocol performs on them) and
//! the ledger as an explicit value, so that the escrow's rules can be stated
//! and proved exactly.

pub mod addr;
pub mod error;
pub mod escrow;
pub mod make_offer;
pub mod state;
pub mod take_offer;
