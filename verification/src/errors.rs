//! The closed set of reasons an operation can be rejected. Every rejection
//! leaves all state exactly as it was.

use vstd::prelude::*;

verus! {

/// Why an operation was rejected.
#[derive(Clone, Copy, Debug, PartialEq, Eq, Structural)]
pub enum Error {
    /// A newly computed asset identity collides with an existing one.
    AssetIdExists,
    /// The asset counter, or a balance being credited, would leave the
    /// representable range.
    Overflow,
    /// The receiving account already owns the configured maximum of assets.
    ExceedMaxOwned,
    /// The caller, or the stated source, does not own the referenced asset.
    NotOwner,
    /// Source and destination of a transfer are the same account.
    TransferToSelf,
    /// The asset has no listed price.
    NotForSale,
    /// The listed price exceeds the buyer's stated ceiling.
    PriceTooHigh,
    /// The payer cannot cover the amount while retaining the minimum
    /// balance the currency ledger requires.
    InsufficientFunds,
    /// Both breeding parents share one gender.
    SameGender,
    /// The referenced asset is not in the store.
    NotFound,
}

} // verus!
