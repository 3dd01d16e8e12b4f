//! The errors of the market.
use vstd::prelude::*;

verus! {

/// Every way a market operation or a price computation can fail.
#[derive(Clone, Copy, Debug, PartialEq, Eq, Structural)]
pub enum GGError {
    /// The caller's identity does not match the one an operation is gated on.
    Unauthorized,
    /// The subject has no mint, its supply is zero, the amount bought is zero,
    /// or a sale would drain the supply.
    InvalidSupply,
    /// The caller cannot pay the minting fee.
    InsufficientMintAmount,
    /// The caller or an accumulator lacks the balance required.
    InsufficientFunds,
    /// The seller holds fewer shares than it wants to sell.
    InsufficientShares,
    /// The subject already has a mint.
    AlreadyExists,
    /// A checked arithmetic step overflowed, or an intermediate went negative.
    MathOverflow,
    /// A sale asked for more units than the supply holds.
    MathUnderflow,
}

} // verus!
