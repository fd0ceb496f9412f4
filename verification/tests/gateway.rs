use nft_staking::{Contract, StakingError};

fn s(x: &str) -> String {
    x.to_string()
}

const NFT: &str = "kaizofighters.tenk.near";

#[test]
fn genuine_notification_stakes_the_asset() {
    let mut c = Contract::new(s("owner.near"));
    let r = c.nft_on_transfer(
        &s(NFT),
        &s("alice.near"),
        s("alice.near"),
        &s("alice.near"),
        s("kaizo1"),
        s(""),
        100,
    );
    assert_eq!(r, Ok(false));
    assert_eq!(c.get_amount_by_owner(s("alice.near")), vec![s("kaizo1")]);
    assert_eq!(c.get_staked_time(vec![s("kaizo1")]), vec![100]);
    assert_eq!(c.get_status(), 1);
}

#[test]
fn direct_call_by_the_signer_is_rejected() {
    let mut c = Contract::new(s("owner.near"));
    // caller == signer: not a cross-service call
    let r = c.nft_on_transfer(
        &s("alice.near"),
        &s("alice.near"),
        s("alice.near"),
        &s("alice.near"),
        s("kaizo1"),
        s(""),
        100,
    );
    assert_eq!(r, Err(StakingError::Unauthorized));
    assert_eq!(c.get_status(), 0);
}

#[test]
fn notification_from_a_foreign_service_is_rejected() {
    let mut c = Contract::new(s("owner.near"));
    let r = c.nft_on_transfer(
        &s("evil.near"),
        &s("alice.near"),
        s("alice.near"),
        &s("alice.near"),
        s("kaizo1"),
        s(""),
        100,
    );
    assert_eq!(r, Err(StakingError::Unauthorized));
    assert_eq!(c.get_status(), 0);
}

#[test]
fn notification_for_someone_elses_asset_is_rejected() {
    let mut c = Contract::new(s("owner.near"));
    // previous owner differs from the signer
    let r = c.nft_on_transfer(
        &s(NFT),
        &s("alice.near"),
        s("alice.near"),
        &s("bob.near"),
        s("kaizo1"),
        s(""),
        100,
    );
    assert_eq!(r, Err(StakingError::Unauthorized));
    assert_eq!(c.get_status(), 0);
}

#[test]
fn notification_for_an_asset_staked_elsewhere_is_rejected() {
    let mut c = Contract::new(s("owner.near"));
    assert!(c.stake(s("bob.near"), s("kaizo1"), 50).is_ok());
    let r = c.nft_on_transfer(
        &s(NFT),
        &s("alice.near"),
        s("alice.near"),
        &s("alice.near"),
        s("kaizo1"),
        s(""),
        100,
    );
    assert_eq!(r, Err(StakingError::Unauthorized));
    assert_eq!(c.get_amount_by_owner(s("bob.near")), vec![s("kaizo1")]);
    assert_eq!(c.get_staked_time(vec![s("kaizo1")]), vec![50]);
    assert_eq!(c.get_status(), 1);
}
