//! A constant-product liquidity-exchange engine.
//!
//! Two fungible-asset types can be paired into a pool; deposits mint a
//! proportional ownership share ("liquidity"), owners redeem their share for a
//! proportional slice of the pooled assets, and third parties swap one pooled
//! asset for the other at a price set by the reserve ratio, net of a fee.
//! The accounting and math engine is verified; the actual movement of asset
//! value is left to the host, which realizes the transfers the engine decides.
//!
//! Amounts, reserves and liquidity are 64-bit counters, computed through
//! exact 128-bit intermediates. A call whose updated counters would not fit
//! is excluded by that operation's precondition; `check_add_liquidity_fits`
//! and `check_swap_fits` let a host test the bound before calling.

pub mod bytes;
pub mod hashing;
pub mod math;
pub mod engine;

pub use bytes::{Address, Bytes32};
pub use engine::{Pool, Position, StylusSwap, StylusSwapError};
pub use math::integer_sqrt;
