//! Core of a spot-exchange matching engine: exact decimal arithmetic,
//! a per-user balance ledger with available/frozen partitions, price-time
//! priority order books, limit/market matching with deterministic fee
//! accounting, an operation log for replay, and snapshots.
#![allow(unused_imports)]

use vstd::prelude::*;

pub mod asset;
pub mod balance;
pub mod config;
pub mod controller;
pub mod decimal;
pub mod laws;
pub mod market;
pub mod persist;
pub mod order;
pub mod sequencer;
pub mod snapshot;

verus! {

/// The error kinds the core surfaces to callers.
#[derive(Clone, Copy, Debug, PartialEq, Eq, Structural)]
pub enum EngineError {
    /// Malformed decimals, unknown market or asset, amount below the
    /// market minimum, a market order with `post_only`, inconsistent
    /// batch markets, or a value beyond the declared numeric bounds.
    InvalidArgument,
    /// A freeze or subtraction would drive a balance negative.
    InsufficientBalance,
    /// An idempotency key was reused with a different delta.
    RepeatUpdate,
    /// The user is at the simultaneous-open-order cap.
    TooManyActiveOrders,
    /// An event sink signals backpressure.
    ServiceUnavailable,
    /// Cancel by an order id that is not resting.
    NotFound,
    /// Arithmetic left the declared bounds.
    Internal,
}

} // verus!
