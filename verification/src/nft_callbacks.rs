//! The asset-receipt gateway: validates an incoming asset-transfer
//! notification's provenance and, if it is genuine, records the deposit
//! as a stake transition.

use vstd::prelude::*;

use crate::external::StakingError;
use crate::stake_applied;
use crate::{AccountId, Contract, TokenId};

verus! {

impl Contract {
    /// Handle the asset-transfer service's notification that `sender_id`
    /// deposited `token_id`. The deposit is admitted only if all of:
    /// the immediate `caller` differs from the outer-request `signer`
    /// (the notification must arrive as a cross-service call, not
    /// directly), the `caller` is the configured asset-transfer service,
    /// and `previous_owner_id` is the `signer`. On success the asset is
    /// staked for `sender_id` at `now_sec` and `Ok(false)` reports that
    /// the asset was consumed, not returned to its sender. On any
    /// failure nothing changes.
    pub fn nft_on_transfer(
        &mut self,
        caller: &AccountId,
        signer: &AccountId,
        sender_id: AccountId,
        previous_owner_id: &AccountId,
        token_id: TokenId,
        _msg: String,
        now_sec: u64,
    ) -> (r: Result<bool, StakingError>)
        requires
            old(self).wf(),
            old(self).total_staked < u64::MAX,
        ensures
            final(self).wf(),
            (caller@ == signer@ || caller@ != old(self).nft_contract_id@ || previous_owner_id@
                != signer@ || old(self).staked_by_other(sender_id@, token_id@)) ==> r == Err::<
                bool,
                StakingError,
            >(StakingError::Unauthorized) && *final(self) == *old(self),
            !(caller@ == signer@ || caller@ != old(self).nft_contract_id@ || previous_owner_id@
                != signer@ || old(self).staked_by_other(sender_id@, token_id@)) ==> r == Ok::<
                bool,
                StakingError,
            >(false) && stake_applied(*old(self), *final(self), sender_id@, token_id@, now_sec),
    {
        if *caller == *signer {
            return Err(StakingError::Unauthorized);
        }
        if !(*caller == self.nft_contract_id) {
            return Err(StakingError::Unauthorized);
        }
        if !(*previous_owner_id == *signer) {
            return Err(StakingError::Unauthorized);
        }
        match self.stake(sender_id, token_id, now_sec) {
            Ok(()) => Ok(false),
            Err(e) => Err(e),
        }
    }
}

} // verus!
