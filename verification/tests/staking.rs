use nft_staking::{Contract, FtTransferRequest, NftTransferRequest, StakingError};

fn s(x: &str) -> String {
    x.to_string()
}

const WEEK: u64 = 604800;

fn sum_of_sets(c: &Contract, accounts: &[&str]) -> u64 {
    let mut total: u64 = 0;
    for a in accounts {
        total += c.get_amount_by_owner(s(a)).len() as u64;
    }
    total
}

#[test]
fn new_has_documented_defaults() {
    let c = Contract::new(s("owner.near"));
    assert_eq!(c.owner_id, s("owner.near"));
    assert_eq!(c.nft_contract_id, s("kaizofighters.tenk.near"));
    assert_eq!(c.ft_token_id, s("dojo.near"));
    assert_eq!(c.token_reward, 3);
    assert_eq!(c.time_epoch, WEEK);
    assert_eq!(c.get_status(), 0);
}

#[test]
fn total_staked_matches_sum_of_sets_along_a_sequence() {
    let mut c = Contract::new(s("owner.near"));
    let accounts = ["alice.near", "bob.near"];
    assert_eq!(c.get_status(), sum_of_sets(&c, &accounts));
    assert!(c.stake(s("alice.near"), s("a1"), 10).is_ok());
    assert_eq!(c.get_status(), sum_of_sets(&c, &accounts));
    assert!(c.stake(s("alice.near"), s("a2"), 11).is_ok());
    assert_eq!(c.get_status(), sum_of_sets(&c, &accounts));
    assert!(c.stake(s("bob.near"), s("b1"), 12).is_ok());
    assert_eq!(c.get_status(), sum_of_sets(&c, &accounts));
    assert!(c.unstake(s("alice.near"), 1, s("a1")).is_ok());
    assert_eq!(c.get_status(), sum_of_sets(&c, &accounts));
    assert!(c.unstake(s("bob.near"), 1, s("b1")).is_ok());
    assert_eq!(c.get_status(), sum_of_sets(&c, &accounts));
    assert_eq!(c.get_status(), 1);
}

#[test]
fn restake_same_account_does_not_duplicate() {
    let mut c = Contract::new(s("owner.near"));
    assert!(c.stake(s("alice.near"), s("kaizo1"), 100).is_ok());
    assert!(c.stake(s("alice.near"), s("kaizo1"), 200).is_ok());
    assert_eq!(c.get_amount_by_owner(s("alice.near")), vec![s("kaizo1")]);
    assert_eq!(c.get_status(), 1);
    // the re-stake reset the settlement clock
    assert_eq!(c.get_staked_time(vec![s("kaizo1")]), vec![200]);
}

#[test]
fn stake_for_a_second_account_is_rejected() {
    let mut c = Contract::new(s("owner.near"));
    assert!(c.stake(s("alice.near"), s("kaizo1"), 100).is_ok());
    assert_eq!(
        c.stake(s("bob.near"), s("kaizo1"), 150),
        Err(StakingError::Unauthorized)
    );
    assert_eq!(c.get_amount_by_owner(s("bob.near")), Vec::<String>::new());
    assert_eq!(c.get_amount_by_owner(s("alice.near")), vec![s("kaizo1")]);
    assert_eq!(c.get_status(), 1);
    assert_eq!(c.get_staked_time(vec![s("kaizo1")]), vec![100]);
}

#[test]
fn claim_with_zero_elapsed_epochs_is_a_noop() {
    let mut c = Contract::new(s("owner.near"));
    assert!(c.stake(s("alice.near"), s("kaizo1"), 1000).is_ok());
    let r = c.claim(s("alice.near"), 1, 1000 + WEEK - 1);
    assert_eq!(r, Ok(None));
    // no settlement clock was touched
    assert_eq!(c.get_staked_time(vec![s("kaizo1")]), vec![1000]);
}

#[test]
fn claim_after_two_epochs_pays_six_units() {
    let mut c = Contract::new(s("owner.near"));
    assert!(c.stake(s("alice.near"), s("kaizo1"), 1000).is_ok());
    let now = 1000 + 2 * WEEK;
    let r = c.claim(s("alice.near"), 1, now);
    let req = r.expect("claim must settle").expect("reward must be positive");
    assert_eq!(req.receiver_id, s("alice.near"));
    // reward = rate 3 x 2 whole epochs = 6, scaled by 10^18
    assert_eq!(req.amount, 6 * 10u128.pow(18));
    assert_eq!(req.memo, None);
    // the settlement clock was reset
    assert_eq!(c.get_staked_time(vec![s("kaizo1")]), vec![now]);
}

#[test]
fn claim_reward_is_rate_times_summed_epochs() {
    let mut c = Contract::new(s("owner.near"));
    assert!(c.stake(s("alice.near"), s("t1"), 0).is_ok());
    assert!(c.stake(s("alice.near"), s("t2"), 3 * WEEK).is_ok());
    // at 5*WEEK: t1 accrued 5 epochs, t2 accrued 2 epochs
    assert_eq!(c.get_reward(s("alice.near"), 5 * WEEK), Ok(3 * (5 + 2)));
}

#[test]
fn get_reward_of_unknown_account_is_zero() {
    let c = Contract::new(s("owner.near"));
    assert_eq!(c.get_reward(s("nobody.near"), 123456), Ok(0));
}

#[test]
fn get_reward_is_read_only() {
    let mut c = Contract::new(s("owner.near"));
    assert!(c.stake(s("alice.near"), s("t1"), 0).is_ok());
    let _ = c.get_reward(s("alice.near"), 5 * WEEK);
    assert_eq!(c.get_staked_time(vec![s("t1")]), vec![0]);
    assert_eq!(c.get_status(), 1);
}

#[test]
fn unstake_of_asset_not_owned_fails_with_not_staked() {
    let mut c = Contract::new(s("owner.near"));
    assert!(c.stake(s("alice.near"), s("kaizo1"), 100).is_ok());
    assert_eq!(
        c.unstake(s("bob.near"), 1, s("kaizo1")),
        Err(StakingError::NotStaked)
    );
    assert_eq!(
        c.unstake(s("alice.near"), 1, s("other")),
        Err(StakingError::NotStaked)
    );
    assert_eq!(c.get_amount_by_owner(s("alice.near")), vec![s("kaizo1")]);
    assert_eq!(c.get_status(), 1);
    assert_eq!(c.get_staked_time(vec![s("kaizo1")]), vec![100]);
}

#[test]
fn get_staked_time_of_unknown_id_is_zero() {
    let c = Contract::new(s("owner.near"));
    assert_eq!(c.get_staked_time(vec![s("unknown")]), vec![0]);
}

#[test]
fn get_staked_time_keeps_input_order() {
    let mut c = Contract::new(s("owner.near"));
    assert!(c.stake(s("alice.near"), s("t1"), 11).is_ok());
    assert!(c.stake(s("alice.near"), s("t2"), 22).is_ok());
    assert_eq!(
        c.get_staked_time(vec![s("t2"), s("nope"), s("t1")]),
        vec![22, 0, 11]
    );
}

#[test]
fn stake_then_query_then_unstake_round_trip() {
    let mut c = Contract::new(s("owner.near"));
    assert!(c.stake(s("alice.near"), s("kaizo1"), 100).is_ok());
    assert!(c.get_amount_by_owner(s("alice.near")).contains(&s("kaizo1")));
    let req = c.unstake(s("alice.near"), 1, s("kaizo1")).expect("unstake must succeed");
    assert_eq!(
        req,
        NftTransferRequest {
            receiver_id: s("alice.near"),
            token_id: s("kaizo1"),
            approval_id: None,
            memo: None,
        }
    );
    // kaizo1 was alice's only asset: her entry is gone entirely
    assert_eq!(c.get_amount_by_owner(s("alice.near")), Vec::<String>::new());
    assert_eq!(c.get_status(), 0);
}

#[test]
fn unstake_keeps_remaining_assets() {
    let mut c = Contract::new(s("owner.near"));
    assert!(c.stake(s("alice.near"), s("t1"), 1).is_ok());
    assert!(c.stake(s("alice.near"), s("t2"), 2).is_ok());
    assert!(c.unstake(s("alice.near"), 1, s("t1")).is_ok());
    assert_eq!(c.get_amount_by_owner(s("alice.near")), vec![s("t2")]);
    assert_eq!(c.get_status(), 1);
}

#[test]
fn setters_by_non_owner_fail_and_change_nothing() {
    let mut c = Contract::new(s("owner.near"));
    let intruder = s("mallory.near");
    assert_eq!(
        c.set_nft_contract(&intruder, s("x.near")),
        Err(StakingError::Forbidden)
    );
    assert_eq!(
        c.set_ft_contract(&intruder, s("x.near")),
        Err(StakingError::Forbidden)
    );
    assert_eq!(
        c.set_owner(&intruder, s("mallory.near")),
        Err(StakingError::Forbidden)
    );
    assert_eq!(c.set_time_epoch(&intruder, 1), Err(StakingError::Forbidden));
    assert_eq!(c.set_token_reward(&intruder, 9), Err(StakingError::Forbidden));
    assert_eq!(c.owner_id, s("owner.near"));
    assert_eq!(c.nft_contract_id, s("kaizofighters.tenk.near"));
    assert_eq!(c.ft_token_id, s("dojo.near"));
    assert_eq!(c.time_epoch, WEEK);
    assert_eq!(c.token_reward, 3);
}

#[test]
fn setters_by_owner_take_effect() {
    let mut c = Contract::new(s("owner.near"));
    let owner = s("owner.near");
    assert_eq!(c.set_nft_contract(&owner, s("nft.near")), Ok(()));
    assert_eq!(c.set_ft_contract(&owner, s("ft.near")), Ok(()));
    assert_eq!(c.set_time_epoch(&owner, 3600), Ok(()));
    assert_eq!(c.set_token_reward(&owner, 7), Ok(()));
    assert_eq!(c.nft_contract_id, s("nft.near"));
    assert_eq!(c.ft_token_id, s("ft.near"));
    assert_eq!(c.time_epoch, 3600);
    assert_eq!(c.token_reward, 7);
    assert_eq!(c.set_owner(&owner, s("new-owner.near")), Ok(()));
    assert_eq!(c.owner_id, s("new-owner.near"));
    // the old owner lost its rights
    assert_eq!(c.set_token_reward(&owner, 8), Err(StakingError::Forbidden));
}

#[test]
fn unstake_and_claim_require_attached_proof() {
    let mut c = Contract::new(s("owner.near"));
    assert!(c.stake(s("alice.near"), s("t1"), 0).is_ok());
    assert_eq!(
        c.unstake(s("alice.near"), 0, s("t1")),
        Err(StakingError::InsufficientProof)
    );
    assert_eq!(
        c.claim(s("alice.near"), 0, 5 * WEEK),
        Err(StakingError::InsufficientProof)
    );
    assert_eq!(c.get_amount_by_owner(s("alice.near")), vec![s("t1")]);
}

#[test]
fn claim_without_staked_assets_fails_with_not_staked() {
    let mut c = Contract::new(s("owner.near"));
    assert_eq!(c.claim(s("alice.near"), 1, 1000), Err(StakingError::NotStaked));
}

#[test]
fn zero_epoch_length_is_rejected_at_accrual_time() {
    let mut c = Contract::new(s("owner.near"));
    assert_eq!(c.set_time_epoch(&s("owner.near"), 0), Ok(()));
    assert!(c.stake(s("alice.near"), s("t1"), 10).is_ok());
    assert_eq!(
        c.get_reward(s("alice.near"), 100),
        Err(StakingError::DivisionByZero)
    );
    assert_eq!(
        c.claim(s("alice.near"), 1, 100),
        Err(StakingError::DivisionByZero)
    );
    assert_eq!(c.get_staked_time(vec![s("t1")]), vec![10]);
}

#[test]
fn settlement_time_in_the_future_is_rejected() {
    let mut c = Contract::new(s("owner.near"));
    assert!(c.stake(s("alice.near"), s("t1"), 100).is_ok());
    assert_eq!(
        c.get_reward(s("alice.near"), 50),
        Err(StakingError::ArithmeticUnderflow)
    );
    assert_eq!(
        c.claim(s("alice.near"), 1, 50),
        Err(StakingError::ArithmeticUnderflow)
    );
    assert_eq!(c.get_staked_time(vec![s("t1")]), vec![100]);
}

#[test]
fn reward_too_large_for_the_counter_is_rejected() {
    let mut c = Contract::new(s("owner.near"));
    assert_eq!(c.set_time_epoch(&s("owner.near"), 1), Ok(()));
    assert_eq!(c.set_token_reward(&s("owner.near"), u64::MAX), Ok(()));
    assert!(c.stake(s("alice.near"), s("t1"), 0).is_ok());
    assert_eq!(
        c.get_reward(s("alice.near"), u64::MAX),
        Err(StakingError::ArithmeticOverflow)
    );
    assert_eq!(
        c.claim(s("alice.near"), 1, u64::MAX),
        Err(StakingError::ArithmeticOverflow)
    );
}

#[test]
fn claim_effect_carries_the_scaled_amount() {
    let mut c = Contract::new(s("owner.near"));
    assert_eq!(c.set_time_epoch(&s("owner.near"), 100), Ok(()));
    assert_eq!(c.set_token_reward(&s("owner.near"), 2), Ok(()));
    assert!(c.stake(s("alice.near"), s("t1"), 0).is_ok());
    assert!(c.stake(s("alice.near"), s("t2"), 0).is_ok());
    // at 250: each asset accrued 2 epochs; reward = 2 x (2 + 2) = 8
    let req = c
        .claim(s("alice.near"), 1, 250)
        .expect("claim must settle")
        .expect("reward must be positive");
    assert_eq!(
        req,
        FtTransferRequest {
            receiver_id: s("alice.near"),
            amount: 8 * 10u128.pow(18),
            memo: None,
        }
    );
    assert_eq!(c.get_staked_time(vec![s("t1"), s("t2")]), vec![250, 250]);
    // right after settling, nothing further is owed
    assert_eq!(c.claim(s("alice.near"), 1, 250), Ok(None));
}

#[test]
fn to_sec_truncates_nanoseconds() {
    assert_eq!(Contract::to_sec(1_500_000_000), 1);
    assert_eq!(Contract::to_sec(999_999_999), 0);
    assert_eq!(Contract::to_sec(0), 0);
}
