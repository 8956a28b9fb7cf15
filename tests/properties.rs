use staking_pool::contract::{
    execute, execute_update_pool_total, execute_withdraw, instantiate, stake,
    verify_token_deposit, Pool,
};
use staking_pool::error::ContractError;
use staking_pool::ledger::Account;
use staking_pool::msg::{Coin, InstantiateMsg, MessageInfo};

fn funds(amount: u128) -> Vec<Coin> {
    vec![Coin { denom: "ubay".to_string(), amount }]
}

fn info(sender: &str, amount: u128) -> MessageInfo {
    MessageInfo { sender: sender.to_string(), funds: funds(amount) }
}

fn admin_pool() -> Pool {
    instantiate("creator".to_string(), InstantiateMsg { admin: None })
}

#[test]
fn admin_defaults_to_sender() {
    let pool = instantiate("boss".to_string(), InstantiateMsg { admin: None });
    assert_eq!(pool.admin_addr(), "boss".to_string());
    let pool = instantiate("boss".to_string(), InstantiateMsg { admin: Some("other".to_string()) });
    assert_eq!(pool.admin_addr(), "other".to_string());
}

#[test]
fn last_coin_of_pool_denomination_counts() {
    let coins = vec![
        Coin { denom: "ubay".to_string(), amount: 7 },
        Coin { denom: "toto".to_string(), amount: 9 },
        Coin { denom: "ubay".to_string(), amount: 3 },
    ];
    assert_eq!(verify_token_deposit(&coins), Ok(3));
    assert_eq!(verify_token_deposit(&vec![]), Err(ContractError::InvalidDeposit));
    assert_eq!(verify_token_deposit(&funds(0)), Err(ContractError::InvalidDeposit));
}

#[test]
fn unknown_identity_reads_zero() {
    let pool = admin_pool();
    assert_eq!(pool.get_principal(&"ghost".to_string()), 0);
    assert_eq!(pool.get_gain(&"ghost".to_string()), 0);
}

#[test]
fn pool_total_is_sum_of_principals_without_yield() {
    let mut pool = admin_pool();
    stake(&mut pool, &info("a", 5)).unwrap();
    stake(&mut pool, &info("b", 7)).unwrap();
    execute_withdraw(&mut pool, &info("a", 0), 2).unwrap();
    let sum = pool.get_principal(&"a".to_string()) + pool.get_principal(&"b".to_string());
    assert_eq!(sum, 10);
    assert_eq!(pool.get_pool_total(), 10);
}

#[test]
fn full_withdrawal_clears_both_balances() {
    let mut pool = admin_pool();
    stake(&mut pool, &info("a", 3)).unwrap();
    stake(&mut pool, &info("b", 4)).unwrap();
    execute_update_pool_total(&mut pool, &info("creator", 10)).unwrap();
    assert_eq!(pool.get_gain(&"a".to_string()), 4);
    let res = execute_withdraw(&mut pool, &info("a", 0), 3).unwrap();
    assert_eq!(res.payout.unwrap().amount, 7);
    assert_eq!(pool.get_principal(&"a".to_string()), 0);
    assert_eq!(pool.get_gain(&"a".to_string()), 0);
    assert_eq!(pool.get_principal(&"b".to_string()), 4);
}

#[test]
fn distribution_rounds_down_per_account() {
    let mut pool = admin_pool();
    stake(&mut pool, &info("a", 1)).unwrap();
    stake(&mut pool, &info("b", 2)).unwrap();
    execute_update_pool_total(&mut pool, &info("creator", 10)).unwrap();
    // floor(1 * 10 / 3) and floor(2 * 10 / 3)
    assert_eq!(pool.get_gain(&"a".to_string()), 3);
    assert_eq!(pool.get_gain(&"b".to_string()), 6);
    assert_eq!(pool.get_pool_total(), 13);
}

#[test]
fn distribution_needs_the_admin() {
    let mut pool = admin_pool();
    stake(&mut pool, &info("a", 1)).unwrap();
    let res = execute_update_pool_total(&mut pool, &info("a", 10));
    assert_eq!(res, Err(ContractError::Unauthorized));
    let res = execute_update_pool_total(&mut pool, &info("creator", 0));
    assert_eq!(res, Err(ContractError::InvalidDeposit));
    assert_eq!(pool.get_pool_total(), 1);
}

#[test]
fn overflowing_deposit_changes_nothing() {
    let mut pool = admin_pool();
    stake(&mut pool, &info("a", u128::MAX)).unwrap();
    let res = stake(&mut pool, &info("b", 1));
    assert_eq!(res, Err(ContractError::ArithmeticOverflow));
    assert_eq!(pool.get_pool_total(), u128::MAX);
    assert_eq!(pool.get_principal(&"b".to_string()), 0);
}

#[test]
fn distribution_on_empty_pool_only_grows_total() {
    let mut pool = admin_pool();
    execute_update_pool_total(&mut pool, &info("creator", 5)).unwrap();
    assert_eq!(pool.get_pool_total(), 5);
    stake(&mut pool, &info("a", 5)).unwrap();
    execute_update_pool_total(&mut pool, &info("creator", 10)).unwrap();
    // floor(5 * 10 / 10)
    assert_eq!(pool.get_gain(&"a".to_string()), 5);
}

#[test]
fn queries_do_not_change_the_pool() {
    let mut pool = admin_pool();
    stake(&mut pool, &info("a", 4)).unwrap();
    let first = (pool.get_principal(&"a".to_string()), pool.get_gain(&"a".to_string()), pool.get_pool_total());
    let second = (pool.get_principal(&"a".to_string()), pool.get_gain(&"a".to_string()), pool.get_pool_total());
    assert_eq!(first, second);
    let res = execute(&mut pool, &info("a", 0), &staking_pool::msg::ExecuteMsg::Withdraw { amount: 5 });
    assert!(matches!(res, Err(ContractError::InvalidArgument { .. })));
}

#[test]
fn restore_checks_stored_balances() {
    let acc = |addr: &str, principal: u128, gain: u128| Account { addr: addr.to_string(), principal, gain };
    let pool = Pool::restore("creator".to_string(), 10, vec![acc("a", 3, 1), acc("b", 4, 2)]).unwrap();
    assert_eq!(pool.get_principal(&"b".to_string()), 4);
    assert_eq!(pool.get_gain(&"a".to_string()), 1);
    assert_eq!(pool.get_pool_total(), 10);
    assert_eq!(pool.accounts().len(), 2);
    assert!(Pool::restore("creator".to_string(), 10, vec![acc("a", 3, 1), acc("a", 4, 2)]).is_none());
    assert!(Pool::restore("creator".to_string(), 9, vec![acc("a", 3, 1), acc("b", 4, 2)]).is_none());
}
