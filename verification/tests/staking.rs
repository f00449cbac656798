use stake_cw20::claims::MAX_CLAIMS;
use stake_cw20::engine::{ReceiveAction, StakingEngine};
use stake_cw20::queries::{claims, get_config, list_hooks, staked_balance_at_height,
    staked_value, total_power_at_height, total_staked_at_height, total_value,
    voting_power_at_height};
use stake_cw20::types::{BlockInfo, ContractError, Duration, Expiration};

fn block(height: u64) -> BlockInfo {
    BlockInfo { height, time: height * 5 }
}

fn engine(duration: Option<Duration>) -> StakingEngine {
    StakingEngine::new(
        Some("owner".to_string()),
        Some("manager".to_string()),
        "token".to_string(),
        duration,
    )
    .unwrap()
}

fn stake(e: &mut StakingEngine, staker: &str, amount: u128, height: u64) {
    e.receive(
        &"token".to_string(),
        &staker.to_string(),
        amount,
        ReceiveAction::Stake,
        block(height),
    )
    .unwrap();
}

#[test]
fn never_staked_reads_zero() {
    let e = engine(None);
    for h in [0u64, 5, 100] {
        let r = staked_balance_at_height(&e, &"alice".to_string(), Some(h), &block(200));
        assert_eq!(r.balance, 0);
        assert_eq!(r.height, h);
    }
    let r = staked_balance_at_height(&e, &"alice".to_string(), None, &block(200));
    assert_eq!(r.balance, 0);
    assert_eq!(r.height, 200);
}

#[test]
fn stake_zero_fails() {
    let mut e = engine(None);
    let r = e.receive(
        &"token".to_string(),
        &"alice".to_string(),
        0,
        ReceiveAction::Stake,
        block(1),
    );
    assert_eq!(r.unwrap_err(), ContractError::ZeroAmount);
}

#[test]
fn receive_from_wrong_sender_fails() {
    let mut e = engine(None);
    let r = e.receive(
        &"impostor".to_string(),
        &"alice".to_string(),
        10,
        ReceiveAction::Stake,
        block(1),
    );
    assert_eq!(r.unwrap_err(), ContractError::Unauthorized);
}

#[test]
fn receive_with_bad_action_fails() {
    let mut e = engine(None);
    let r = e.receive(
        &"token".to_string(),
        &"alice".to_string(),
        10,
        ReceiveAction::Unrecognized,
        block(1),
    );
    assert_eq!(r.unwrap_err(), ContractError::InvalidReceiveAction);
}

#[test]
fn unstake_more_than_staked_fails() {
    let mut e = engine(None);
    let r = e.unstake(&"alice".to_string(), 1, block(1));
    assert_eq!(r.unwrap_err(), ContractError::InsufficientStaked);
    stake(&mut e, "alice", 100, 2);
    let r = e.unstake(&"alice".to_string(), 150, block(3));
    assert_eq!(r.unwrap_err(), ContractError::InsufficientStaked);
}

#[test]
fn unstake_zero_fails() {
    let mut e = engine(None);
    stake(&mut e, "alice", 100, 1);
    let r = e.unstake(&"alice".to_string(), 0, block(2));
    assert_eq!(r.unwrap_err(), ContractError::ZeroAmount);
}

#[test]
fn instantiate_zero_duration_fails() {
    for d in [Duration::Height(0), Duration::Time(0)] {
        let r = StakingEngine::new(None, None, "token".to_string(), Some(d));
        assert_eq!(r.unwrap_err(), ContractError::InvalidDuration);
    }
}

#[test]
fn unstake_without_duration_transfers_at_once() {
    let mut e = engine(None);
    stake(&mut e, "alice", 100, 10);
    let out = e.unstake(&"alice".to_string(), 40, block(11)).unwrap();
    assert_eq!(out.transfer, Some(40));
    assert!(claims(&e, &"alice".to_string()).claims.is_empty());
    let r = e.claim(&"alice".to_string(), block(12));
    assert_eq!(r.unwrap_err(), ContractError::NothingToClaim);
    assert_eq!(staked_value(&e, &"alice".to_string()).value, 60);
}

#[test]
fn claim_matures_after_duration() {
    let mut e = engine(Some(Duration::Height(2)));
    stake(&mut e, "alice", 100, 10);
    let out = e.unstake(&"alice".to_string(), 40, block(15)).unwrap();
    assert_eq!(out.transfer, None);
    let cs = claims(&e, &"alice".to_string()).claims;
    assert_eq!(cs.len(), 1);
    assert_eq!(cs[0].amount, 40);
    assert_eq!(cs[0].release_at, Expiration::AtHeight(17));
    let r = e.claim(&"alice".to_string(), block(16));
    assert_eq!(r.unwrap_err(), ContractError::NothingToClaim);
    let released = e.claim(&"alice".to_string(), block(17)).unwrap();
    assert_eq!(released, 40);
    assert!(claims(&e, &"alice".to_string()).claims.is_empty());
}

#[test]
fn time_duration_matures_by_timestamp() {
    let mut e = engine(Some(Duration::Time(1000)));
    stake(&mut e, "alice", 50, 1);
    let now = BlockInfo { height: 2, time: 500 };
    e.unstake(&"alice".to_string(), 50, now).unwrap();
    let cs = claims(&e, &"alice".to_string()).claims;
    assert_eq!(cs[0].release_at, Expiration::AtTime(1500));
    let early = BlockInfo { height: 3, time: 1499 };
    assert_eq!(
        e.claim(&"alice".to_string(), early).unwrap_err(),
        ContractError::NothingToClaim
    );
    let due = BlockInfo { height: 4, time: 1500 };
    assert_eq!(e.claim(&"alice".to_string(), due).unwrap(), 50);
}

#[test]
fn end_to_end_scenario() {
    let mut e = engine(Some(Duration::Height(2)));
    let alice = "alice".to_string();
    stake(&mut e, "alice", 100, 10);

    assert_eq!(staked_balance_at_height(&e, &alice, Some(5), &block(10)).balance, 0);
    assert_eq!(staked_balance_at_height(&e, &alice, Some(10), &block(10)).balance, 100);
    assert_eq!(staked_balance_at_height(&e, &alice, Some(20), &block(10)).balance, 100);

    e.unstake(&alice, 40, block(15)).unwrap();
    assert_eq!(staked_balance_at_height(&e, &alice, Some(15), &block(15)).balance, 60);
    assert_eq!(total_staked_at_height(&e, Some(15), &block(15)).total, 60);
    assert_eq!(total_staked_at_height(&e, Some(14), &block(15)).total, 100);

    let cs = claims(&e, &alice).claims;
    assert_eq!(cs.len(), 1);
    assert_eq!(cs[0].amount, 40);
    assert_eq!(cs[0].release_at, Expiration::AtHeight(17));

    assert_eq!(
        e.claim(&alice, block(16)).unwrap_err(),
        ContractError::NothingToClaim
    );
    assert_eq!(e.claim(&alice, block(17)).unwrap(), 40);
    assert!(claims(&e, &alice).claims.is_empty());
}

#[test]
fn max_claims_bound_is_enforced() {
    let mut e = engine(Some(Duration::Height(1000)));
    let alice = "alice".to_string();
    stake(&mut e, "alice", 10_000, 1);
    for _ in 0..MAX_CLAIMS {
        e.unstake(&alice, 1, block(2)).unwrap();
    }
    assert_eq!(claims(&e, &alice).claims.len(), MAX_CLAIMS);
    assert_eq!(
        e.unstake(&alice, 1, block(2)).unwrap_err(),
        ContractError::TooManyClaims
    );
    let released = e.claim(&alice, block(1002)).unwrap();
    assert_eq!(released, MAX_CLAIMS as u128);
    e.unstake(&alice, 1, block(1002)).unwrap();
}

#[test]
fn writes_at_one_height_collapse() {
    let mut e = engine(None);
    stake(&mut e, "alice", 10, 5);
    stake(&mut e, "alice", 20, 5);
    assert_eq!(staked_balance_at_height(&e, &"alice".to_string(), Some(5), &block(5)).balance, 30);
    assert_eq!(staked_balance_at_height(&e, &"alice".to_string(), Some(4), &block(5)).balance, 0);
    assert_eq!(total_staked_at_height(&e, Some(5), &block(5)).total, 30);
}

#[test]
fn total_tracks_sum_of_balances() {
    let mut e = engine(None);
    stake(&mut e, "alice", 70, 3);
    stake(&mut e, "bob", 30, 4);
    assert_eq!(total_staked_at_height(&e, Some(3), &block(4)).total, 70);
    assert_eq!(total_staked_at_height(&e, Some(4), &block(4)).total, 100);
    assert_eq!(total_value(&e).total, 100);
    e.unstake(&"bob".to_string(), 30, block(5)).unwrap();
    assert_eq!(total_value(&e).total, 70);
    assert_eq!(total_power_at_height(&e, Some(4), &block(5)).power, 100);
}

#[test]
fn voting_power_equals_staked_balance() {
    let mut e = engine(None);
    stake(&mut e, "alice", 100, 10);
    let p = voting_power_at_height(&e, &"alice".to_string(), None, &block(11));
    assert_eq!(p.power, 100);
    assert_eq!(p.height, 11);
    let p = voting_power_at_height(&e, &"alice".to_string(), Some(9), &block(11));
    assert_eq!(p.power, 0);
}

#[test]
fn update_config_keeps_existing_claims() {
    let mut e = engine(Some(Duration::Height(10)));
    stake(&mut e, "alice", 100, 1);
    e.unstake(&"alice".to_string(), 25, block(2)).unwrap();
    let before = claims(&e, &"alice".to_string()).claims;
    assert_eq!(before[0].release_at, Expiration::AtHeight(12));

    e.update_config(
        &"owner".to_string(),
        Some("owner".to_string()),
        Some("manager".to_string()),
        Some(Duration::Height(999)),
    )
    .unwrap();

    let after = claims(&e, &"alice".to_string()).claims;
    assert_eq!(after.len(), 1);
    assert_eq!(after[0].amount, 25);
    assert_eq!(after[0].release_at, Expiration::AtHeight(12));
    let cfg = get_config(&e);
    assert_eq!(cfg.unstaking_duration, Some(Duration::Height(999)));

    e.unstake(&"alice".to_string(), 5, block(3)).unwrap();
    let cs = claims(&e, &"alice".to_string()).claims;
    assert_eq!(cs[1].release_at, Expiration::AtHeight(1002));
}

#[test]
fn update_config_authorization() {
    let mut e = engine(None);
    let r = e.update_config(&"stranger".to_string(), None, None, None);
    assert_eq!(r.unwrap_err(), ContractError::Unauthorized);

    let r = e.update_config(
        &"manager".to_string(),
        Some("manager".to_string()),
        Some("manager".to_string()),
        None,
    );
    assert_eq!(r.unwrap_err(), ContractError::Unauthorized);

    e.update_config(
        &"manager".to_string(),
        Some("owner".to_string()),
        Some("manager".to_string()),
        Some(Duration::Time(60)),
    )
    .unwrap();
    assert_eq!(get_config(&e).unstaking_duration, Some(Duration::Time(60)));

    let r = e.update_config(
        &"owner".to_string(),
        Some("owner".to_string()),
        Some("manager".to_string()),
        Some(Duration::Height(0)),
    );
    assert_eq!(r.unwrap_err(), ContractError::InvalidDuration);

    e.update_config(&"owner".to_string(), None, None, None).unwrap();
    let cfg = get_config(&e);
    assert_eq!(cfg.owner, None);
    assert_eq!(cfg.manager, None);
}

#[test]
fn hooks_subscribe_notify_and_remove() {
    let mut e = engine(None);
    let owner = "owner".to_string();
    assert_eq!(
        e.add_hook(&"stranger".to_string(), "h1".to_string()).unwrap_err(),
        ContractError::Unauthorized
    );
    e.add_hook(&owner, "h1".to_string()).unwrap();
    e.add_hook(&owner, "h2".to_string()).unwrap();
    assert_eq!(
        e.add_hook(&owner, "h1".to_string()).unwrap_err(),
        ContractError::HookAlreadyRegistered
    );
    assert_eq!(list_hooks(&e).hooks, vec!["h1".to_string(), "h2".to_string()]);

    let msgs = e
        .receive(
            &"token".to_string(),
            &"alice".to_string(),
            100,
            ReceiveAction::Stake,
            block(1),
        )
        .unwrap();
    assert_eq!(msgs.len(), 2);
    assert_eq!(msgs[0].recipient, "h1");
    assert_eq!(msgs[1].recipient, "h2");
    assert_eq!(msgs[0].staker, "alice");
    assert_eq!(msgs[0].old_balance, 0);
    assert_eq!(msgs[0].new_balance, 100);

    let out = e.unstake(&"alice".to_string(), 30, block(2)).unwrap();
    assert_eq!(out.hooks.len(), 2);
    assert_eq!(out.hooks[1].old_balance, 100);
    assert_eq!(out.hooks[1].new_balance, 70);

    e.remove_hook(&owner, &"h1".to_string()).unwrap();
    assert_eq!(list_hooks(&e).hooks, vec!["h2".to_string()]);
    assert_eq!(
        e.remove_hook(&owner, &"h1".to_string()).unwrap_err(),
        ContractError::HookNotRegistered
    );
}

#[test]
fn total_overflow_is_rejected() {
    let mut e = engine(None);
    stake(&mut e, "alice", u128::MAX, 1);
    let r = e.receive(
        &"token".to_string(),
        &"bob".to_string(),
        1,
        ReceiveAction::Stake,
        block(2),
    );
    assert_eq!(r.unwrap_err(), ContractError::Overflow);
}

#[test]
fn claim_sum_overflow_is_rejected() {
    let mut e = engine(Some(Duration::Height(1)));
    let alice = "alice".to_string();
    stake(&mut e, "alice", u128::MAX, 1);
    e.unstake(&alice, u128::MAX, block(2)).unwrap();
    stake(&mut e, "alice", u128::MAX, 3);
    e.unstake(&alice, u128::MAX, block(4)).unwrap();
    assert_eq!(claims(&e, &alice).claims.len(), 2);
    assert_eq!(
        e.claim(&alice, block(100)).unwrap_err(),
        ContractError::Overflow
    );
    assert_eq!(claims(&e, &alice).claims.len(), 2);
}

#[test]
fn maturity_height_overflow_is_rejected() {
    let mut e = engine(Some(Duration::Height(5)));
    let h = u64::MAX - 1;
    let at = BlockInfo { height: h, time: 0 };
    e.receive(
        &"token".to_string(),
        &"alice".to_string(),
        10,
        ReceiveAction::Stake,
        at,
    )
    .unwrap();
    let r = e.unstake(&"alice".to_string(), 10, at);
    assert_eq!(r.unwrap_err(), ContractError::Overflow);
}

#[test]
fn get_config_round_trip() {
    let e = engine(Some(Duration::Time(86_400)));
    let cfg = get_config(&e);
    assert_eq!(cfg.owner, Some("owner".to_string()));
    assert_eq!(cfg.manager, Some("manager".to_string()));
    assert_eq!(cfg.token_address, "token");
    assert_eq!(cfg.unstaking_duration, Some(Duration::Time(86_400)));
}

#[test]
fn staked_value_tracks_current_balance() {
    let mut e = engine(None);
    assert_eq!(staked_value(&e, &"alice".to_string()).value, 0);
    stake(&mut e, "alice", 100, 1);
    assert_eq!(staked_value(&e, &"alice".to_string()).value, 100);
    e.unstake(&"alice".to_string(), 40, block(2)).unwrap();
    assert_eq!(staked_value(&e, &"alice".to_string()).value, 60);
    assert_eq!(total_value(&e).total, 60);
}
