use vstd::prelude::*;

verus! {

/// The ways a signal cycle step can fail.
#[derive(Clone, Debug, PartialEq, Eq)]
pub enum SignalError {
    /// Too few prices to produce two histogram points.
    InsufficientData,
    /// No order amounts are configured for this pair.
    UnknownPair(String),
    /// A fetcher is already registered under this key.
    DuplicateKey(String),
    /// No fetcher is registered under this key.
    UnknownKey(String),
}

} // verus!
