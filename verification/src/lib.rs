//! A verified registry of unique digital assets ("kitties"): minting,
//! ownership, pricing, trading and breeding over an explicit persistent
//! store, with the store's invariants proved across every operation.

pub mod kvlist;
pub mod hash;
pub mod dna;
pub mod errors;
pub mod currency;
pub mod ledger;
