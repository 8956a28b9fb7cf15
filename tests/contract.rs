use staking_pool::contract::{execute, instantiate, query, Pool};
use staking_pool::error::ContractError;
use staking_pool::msg::{Coin, ExecuteMsg, InstantiateMsg, MessageInfo, Payout, QueryMsg};

fn coins(amount: u128, denom: &str) -> Vec<Coin> {
    vec![Coin { denom: denom.to_string(), amount }]
}

fn mock_info(sender: &str, funds: &[Coin]) -> MessageInfo {
    MessageInfo { sender: sender.to_string(), funds: funds.to_vec() }
}

fn setup() -> Pool {
    let msg = InstantiateMsg { admin: Some("creator".to_string()) };
    instantiate("creator".to_string(), msg)
}

fn deposit_tokens(pool: &mut Pool, address: &str) {
    let info = mock_info(address, &coins(2_000_000, "ubay"));
    execute(pool, &info, &ExecuteMsg::Deposit).unwrap();
}

fn call_update_pool_total_amount(pool: &mut Pool) {
    let info = mock_info("creator", &coins(2_000_000, "ubay"));
    execute(pool, &info, &ExecuteMsg::UpdatePoolTotalAmount).unwrap();
}

fn user_amount(pool: &Pool, user: &str) -> u128 {
    query(pool, &QueryMsg::GetUserAmount { user: user.to_string() })
}

fn user_gain(pool: &Pool, user: &str) -> u128 {
    query(pool, &QueryMsg::GetUserGain { user: user.to_string() })
}

fn pool_total(pool: &Pool) -> u128 {
    query(pool, &QueryMsg::GetPoolTotalAmount)
}

#[test]
fn proper_initialization() {
    let msg = InstantiateMsg { admin: Some("creator".to_string()) };
    let pool = instantiate("creator".to_string(), msg);
    let _funds = coins(1000, "earth");
    assert_eq!(pool.admin_addr(), "creator".to_string());
    assert_eq!(0, pool_total(&pool));
}

#[test]
fn deposit() {
    let mut pool = setup();

    let info = mock_info("anyone", &coins(2_000_000, "ubay"));
    execute(&mut pool, &info, &ExecuteMsg::Deposit).unwrap();
    assert_eq!(2_000_000u128, user_amount(&pool, "anyone"));

    let info = mock_info("anyone", &coins(2_000_000, "ubay"));
    execute(&mut pool, &info, &ExecuteMsg::Deposit).unwrap();
    assert_eq!(4_000_000u128, user_amount(&pool, "anyone"));

    let mut multi_coins = coins(2_000_000, "toto");
    multi_coins.push(Coin { denom: "ubay".to_string(), amount: 1_000_000 });
    let info = mock_info("anyone", &multi_coins);
    execute(&mut pool, &info, &ExecuteMsg::Deposit).unwrap();
    assert_eq!(5_000_000u128, user_amount(&pool, "anyone"));
    assert_eq!(5_000_000u128, pool_total(&pool));

    let info = mock_info("anyone", &coins(2_000_000, "toto"));
    let res = execute(&mut pool, &info, &ExecuteMsg::Deposit);
    match res {
        Err(ContractError::InvalidDeposit) => {}
        _ => panic!("Must return WrongDeposit error"),
    }
}

#[test]
fn call_update_pool_total_amount_1_user() {
    let mut pool = setup();
    deposit_tokens(&mut pool, "user1");

    let info = mock_info("creator", &coins(2_000_000, "ubay"));
    execute(&mut pool, &info, &ExecuteMsg::UpdatePoolTotalAmount).unwrap();

    assert_eq!(2_000_000u128, user_gain(&pool, "user1"));
}

#[test]
fn call_update_pool_total_amount_3_users() {
    let mut pool = setup();
    deposit_tokens(&mut pool, "user1");
    deposit_tokens(&mut pool, "user2");
    deposit_tokens(&mut pool, "user3");

    let info = mock_info("creator", &coins(2_000_000, "ubay"));
    execute(&mut pool, &info, &ExecuteMsg::UpdatePoolTotalAmount).unwrap();

    assert_eq!(666_666u128, user_gain(&pool, "user3"));
    assert_eq!(8_000_000u128, pool_total(&pool));

    let info = mock_info("creator", &coins(2_000_000, "ubay"));
    execute(&mut pool, &info, &ExecuteMsg::UpdatePoolTotalAmount).unwrap();

    // 666_666 + (25% of 2_000_000) = 1_166_666
    assert_eq!(1_166_666u128, user_gain(&pool, "user3"));
}

#[test]
fn withdraw_all_amount() {
    let mut pool = setup();
    deposit_tokens(&mut pool, "user1");
    call_update_pool_total_amount(&mut pool);

    let info = mock_info("user1", &[]);
    let res = execute(&mut pool, &info, &ExecuteMsg::Withdraw { amount: 0 });
    match res {
        Err(ContractError::InvalidArgument { name }) => assert_eq!(name, "amount".to_string()),
        _ => panic!("Must return WrongDeposit error"),
    }

    let info = mock_info("user1", &[]);
    let res = execute(&mut pool, &info, &ExecuteMsg::Withdraw { amount: 2_000_001 });
    match res {
        Err(ContractError::InvalidArgument { name }) => assert_eq!(name, "amount".to_string()),
        _ => panic!("Must return WrongDeposit error"),
    }

    let info = mock_info("user1", &[]);
    let res = execute(&mut pool, &info, &ExecuteMsg::Withdraw { amount: 2_000_000 }).unwrap();
    assert_eq!(
        res.payout,
        Some(Payout { to_address: "user1".to_string(), amount: 4_000_000 })
    );

    assert_eq!(0, user_gain(&pool, "user1"));
    assert_eq!(0, user_amount(&pool, "user1"));
}

#[test]
fn withdraw_half_amount() {
    let mut pool = setup();
    deposit_tokens(&mut pool, "user1");
    call_update_pool_total_amount(&mut pool);

    let info = mock_info("user1", &[]);
    let res = execute(&mut pool, &info, &ExecuteMsg::Withdraw { amount: 1_000_000 }).unwrap();
    assert_eq!(
        res.payout,
        Some(Payout { to_address: "user1".to_string(), amount: 2_000_000 })
    );

    assert_eq!(1_000_000u128, user_gain(&pool, "user1"));
    assert_eq!(1_000_000u128, user_amount(&pool, "user1"));
}
