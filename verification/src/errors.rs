//! Structured failure codes of the pool core.
//!
//! Every operation aborts atomically on the first failed check and
//! surfaces exactly one of these codes; none is ever swallowed or
//! downgraded.

use vstd::prelude::*;

verus! {

/// Why a pool operation was refused.
#[derive(Clone, Copy, Debug, PartialEq, Eq, Structural)]
pub enum PoolError {
    /// The caller lacks the pool's stored authority credential.
    AuthorizationError,
    /// The commitment tree is at capacity, so no further deposit fits.
    CapacityError,
    /// The presented nullifier digest was already spent.
    DoubleSpendError,
    /// The inclusion proof does not check out against the current root;
    /// this also covers an unknown commitment, a stale root and a
    /// malformed proof.
    ProofError,
    /// The vault would be underfunded by the withdrawal; unreachable
    /// under correct accounting, guarded defensively.
    BalanceError,
}

impl PoolError {
    /// A short stable name for the failure, for hosts that log it.
    pub fn name(&self) -> (r: &'static str)
    {
        match self {
            PoolError::AuthorizationError => "authorization error",
            PoolError::CapacityError => "capacity error",
            PoolError::DoubleSpendError => "double spend error",
            PoolError::ProofError => "proof error",
            PoolError::BalanceError => "balance error",
        }
    }
}

} // verus!
