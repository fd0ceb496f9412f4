//! Interfaces of the two external ledger services this registry settles
//! through, and the outbound-request values the state machine emits.
//!
//! The registry never awaits these services: a mutating operation commits its
//! local state change and *returns* a request value describing the outbound
//! transfer it wants issued. The embedding runtime is responsible for
//! scheduling the actual cross-service call; its eventual success or failure
//! is not observable here.

use vstd::prelude::*;

use crate::{AccountId, TokenId};

verus! {

/// Every way an invocation of the registry can be rejected. A rejected
/// invocation leaves the registry state exactly as it was.
#[derive(Clone, Copy, Debug, PartialEq, Eq, Structural)]
pub enum StakingError {
    /// A receipt-gateway provenance check failed, or an asset is already
    /// staked under a different account.
    Unauthorized,
    /// An owner-only configuration call was made by a non-owner.
    Forbidden,
    /// The caller asked to unstake or claim without holding the asset(s).
    NotStaked,
    /// A state-mutating call arrived without the minimum attached payment.
    InsufficientProof,
    /// A settlement timestamp lies ahead of the supplied current time, or a
    /// staked asset is missing its settlement record.
    ArithmeticUnderflow,
    /// The accrued reward does not fit the reward counter.
    ArithmeticOverflow,
    /// Reward accrual was requested while the epoch length is configured as
    /// zero.
    DivisionByZero,
}

/// An outbound request to the non-fungible asset-transfer service: return
/// `token_id` to `receiver_id`. Mirrors `NonFungibleToken::nft_transfer`.
#[derive(Debug, PartialEq, Eq)]
pub struct NftTransferRequest {
    pub receiver_id: AccountId,
    pub token_id: TokenId,
    pub approval_id: Option<u64>,
    pub memo: Option<String>,
}

/// An outbound request to the fungible reward-token service: pay `amount`
/// (already scaled to the token's smallest unit) to `receiver_id`. Mirrors
/// `FungibleToken::ft_transfer`.
#[derive(Debug, PartialEq, Eq)]
pub struct FtTransferRequest {
    pub receiver_id: AccountId,
    pub amount: u128,
    pub memo: Option<String>,
}

/// Interface of the external fungible reward-token service. The registry
/// only describes calls to it (as `FtTransferRequest` values); nothing here
/// is invoked or verified locally.
pub trait FungibleToken {
    fn ft_transfer(&mut self, receiver_id: AccountId, amount: u128, memo: Option<String>);
}

/// Interface of the external non-fungible asset-transfer service. The
/// registry only describes calls to it (as `NftTransferRequest` values).
pub trait NonFungibleToken {
    fn nft_transfer(
        &mut self,
        receiver_id: AccountId,
        token_id: TokenId,
        approval_id: Option<u64>,
        memo: Option<String>,
    );
}

} // verus!
