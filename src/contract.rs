//! The pool: its state, the commands that change it and the queries that
//! read it.
use vstd::prelude::*;

use vstd::arithmetic::div_mod::lemma_fundamental_div_mod;

use crate::error::{is_invalid_amount, ContractError};
use crate::ledger::{
    gain_in, holds_at, lemma_lookup_at, lemma_lookup_le_sum, lemma_lookup_push,
    lemma_lookup_update, lemma_principal_le_sum, lemma_sum_prefix_le, lemma_sum_prefix_step,
    lemma_sum_same_principals, lemma_sum_update, principal_in, sum_gain, sum_principal,
    unique_addrs, Account,
};
use crate::msg::{
    Coin, ExecuteMsg, InstantiateMsg, MessageInfo, Payout, QueryMsg, Response, POOL_DENOM,
};

verus! {

/// The pool's global record.
pub struct State {
    pub admin: String,
    pub pool_total_amount: u128,
}

/// A pool together with the balances of every identity that ever deposited.
pub struct Pool {
    state: State,
    accounts: Vec<Account>,
    /// The yield injected so far, which the pool total counts on top of the
    /// principals.
    injected: Ghost<nat>,
}

/// `floor(principal * amount / total)`: the part of an injection of `amount`
/// that falls to a principal when the pool held `total`.
pub open spec fn share_of(principal: nat, amount: nat, total: nat) -> nat {
    if total == 0 {
        0
    } else {
        principal * amount / total
    }
}

/// `floor(gain * amount / principal)`: the gain that leaves with a withdrawal
/// of `amount` out of `principal`.
pub open spec fn gain_withdrawn(gain: nat, amount: nat, principal: nat) -> nat {
    if principal == 0 {
        0
    } else {
        gain * amount / principal
    }
}

/// The amount of the pool token among `funds`: that of the last coin of the
/// pool's denomination, zero where there is none.
pub open spec fn token_amount(funds: Seq<Coin>) -> nat
    decreases funds.len(),
{
    if funds.len() == 0 {
        0
    } else if funds.last().denom@ == POOL_DENOM@ {
        funds.last().amount as nat
    } else {
        token_amount(funds.drop_last())
    }
}

/// The token amount is that of one coin, so it fits in `u128`.
proof fn lemma_token_amount_bounded(funds: Seq<Coin>)
    ensures
        token_amount(funds) <= u128::MAX,
    decreases funds.len(),
{
    if funds.len() > 0 {
        lemma_token_amount_bounded(funds.drop_last());
    }
}

/// Relies on cosmwasm_std's `Uint128::checked_multiply_ratio`: `a * n / d`
/// rounded down, with a 256-bit intermediate product; `None` where `d` is
/// zero or the quotient does not fit in 128 bits.
#[verifier::external_body]
fn multiply_ratio(a: u128, n: u128, d: u128) -> (r: Option<u128>)
    ensures
        r == (if d != 0 && a * n / (d as int) <= u128::MAX {
            Some((a * n / (d as int)) as u128)
        } else {
            None::<u128>
        }),
{
    match cosmwasm_std::Uint128::new(a).checked_multiply_ratio(n, d) {
        Ok(v) => Some(v.u128()),
        Err(_) => None,
    }
}

/// Scaling `n` by a ratio of at most one does not make it larger.
proof fn lemma_ratio_bounded(a: nat, n: nat, d: nat)
    requires
        a <= d,
        d > 0,
    ensures
        a * n / d <= n,
{
    assert(a * n <= d * n) by (nonlinear_arith)
        requires
            a <= d,
    ;
    assert(a * n / d <= d * n / d) by (nonlinear_arith)
        requires
            a * n <= d * n,
            d > 0,
    ;
    assert(d * n / d == n) by (nonlinear_arith)
        requires
            d > 0,
    ;
}

impl Pool {
    /// The administrator's identity.
    pub closed spec fn admin(&self) -> Seq<char> {
        self.state.admin@
    }

    /// The pool total: all principals plus all yield injected.
    pub closed spec fn pool_total(&self) -> nat {
        self.state.pool_total_amount as nat
    }

    /// The principal of `a`, zero where `a` never deposited.
    pub closed spec fn principal_of(&self, a: Seq<char>) -> nat {
        principal_in(self.accounts@, a)
    }

    /// The accrued gain of `a`, zero where `a` never received any.
    pub closed spec fn gain_of(&self, a: Seq<char>) -> nat {
        gain_in(self.accounts@, a)
    }

    /// The sum of the principals of all accounts.
    pub closed spec fn total_principal(&self) -> nat {
        sum_principal(self.accounts@)
    }

    /// The sum of all yield injected since the pool was set up.
    pub closed spec fn injected(&self) -> nat {
        self.injected@
    }

    /// The sum of the accrued gains of all accounts.
    pub closed spec fn total_gain(&self) -> nat {
        sum_gain(self.accounts@)
    }

    /// Each identity has one account, the pool total is the sum of the
    /// principals plus the yield injected, and the gains still held add up to
    /// no more than that yield.
    pub closed spec fn wf(&self) -> bool {
        &&& unique_addrs(self.accounts@)
        &&& self.pool_total() == self.total_principal() + self.injected()
        &&& self.total_gain() <= self.injected()
    }

    /// The index of the account of `a`, if it has one.
    fn find(&self, a: &String) -> (r: Option<usize>)
        ensures
            match r {
                Some(i) => holds_at(self.accounts@, a@, i as int),
                None => forall|k: int| !holds_at(self.accounts@, a@, k),
            },
    {
        let mut i: usize = 0;
        while i < self.accounts.len()
            invariant
                i <= self.accounts@.len(),
                forall|k: int| 0 <= k < i ==> !holds_at(self.accounts@, a@, k),
            decreases self.accounts@.len() - i,
        {
            if self.accounts[i].addr == *a {
                return Some(i);
            }
            i = i + 1;
        }
        None
    }

    /// The principal of `user`.
    pub fn get_principal(&self, user: &String) -> (r: u128)
        requires
            self.wf(),
        ensures
            r == self.principal_of(user@),
    {
        match self.find(user) {
            Some(i) => {
                proof {
                    lemma_lookup_at(self.accounts@, user@, i as int);
                }
                self.accounts[i].principal
            },
            None => 0,
        }
    }

    /// The accrued gain of `user`.
    pub fn get_gain(&self, user: &String) -> (r: u128)
        requires
            self.wf(),
        ensures
            r == self.gain_of(user@),
    {
        match self.find(user) {
            Some(i) => {
                proof {
                    lemma_lookup_at(self.accounts@, user@, i as int);
                }
                self.accounts[i].gain
            },
            None => 0,
        }
    }

    /// The pool total.
    pub fn get_pool_total(&self) -> (r: u128)
        ensures
            r == self.pool_total(),
    {
        self.state.pool_total_amount
    }

    /// The administrator.
    pub fn admin_addr(&self) -> (r: String)
        ensures
            r@ == self.admin(),
    {
        self.state.admin.clone()
    }

    /// The records of all accounts, in the order of their first deposit.
    pub closed spec fn records(&self) -> Seq<Account> {
        self.accounts@
    }

    /// The records of all accounts, in the order of their first deposit.
    pub fn accounts(&self) -> (r: &Vec<Account>)
        requires
            self.wf(),
        ensures
            r@ == self.records(),
            unique_addrs(r@),
            forall|a: Seq<char>|
                principal_in(r@, a) == self.principal_of(a) && gain_in(r@, a) == self.gain_of(a),
            sum_principal(r@) + sum_gain(r@) <= self.pool_total(),
    {
        &self.accounts
    }

    /// Rebuilds a pool from its stored parts. It is `None` where an identity
    /// has two records or the principals and gains add up to more than the
    /// pool total; what the total holds beyond the principals counts as yield
    /// injected.
    pub fn restore(admin: String, pool_total_amount: u128, accounts: Vec<Account>) -> (r: Option<
        Pool,
    >)
        ensures
            r is Some <==> unique_addrs(accounts@) && sum_principal(accounts@) + sum_gain(
                accounts@,
            ) <= pool_total_amount,
            r matches Some(pool) ==> {
                &&& pool.wf()
                &&& pool.admin() == admin@
                &&& pool.pool_total() == pool_total_amount
                &&& pool.records() == accounts@
                &&& pool.injected() == pool_total_amount - sum_principal(accounts@)
            },
    {
        let n = accounts.len();
        let mut i: usize = 0;
        let mut sum: u128 = 0;
        let mut used: u128 = 0;
        while i < n
            invariant
                n == accounts@.len(),
                i <= n,
                unique_addrs(accounts@.take(i as int)),
                sum == sum_principal(accounts@.take(i as int)),
                used == sum + sum_gain(accounts@.take(i as int)),
                used <= pool_total_amount,
            decreases n - i,
        {
            let mut j: usize = 0;
            while j < i
                invariant
                    n == accounts@.len(),
                    j <= i < n,
                    forall|k: int| 0 <= k < j ==> accounts@[k].addr@ != accounts@[i as int].addr@,
                decreases i - j,
            {
                if accounts[j].addr == accounts[i].addr {
                    proof {
                        assert(!unique_addrs(accounts@));
                    }
                    return None;
                }
                j = j + 1;
            }
            proof {
                lemma_sum_prefix_step(accounts@, i as int);
                lemma_sum_prefix_le(accounts@, i as int + 1);
                let t = accounts@.take(i + 1);
                assert forall|k: int, l: int|
                    0 <= k < t.len() && 0 <= l < t.len() && t[k].addr@ == t[l].addr@ implies k
                    == l by {
                    if k < i && l < i {
                        assert(accounts@.take(i as int)[k] == t[k]);
                        assert(accounts@.take(i as int)[l] == t[l]);
                    }
                }
            }
            if accounts[i].principal > pool_total_amount - used {
                return None;
            }
            if accounts[i].gain > pool_total_amount - used - accounts[i].principal {
                return None;
            }
            sum = sum + accounts[i].principal;
            used = used + accounts[i].principal + accounts[i].gain;
            i = i + 1;
        }
        assert(accounts@.take(n as int) =~= accounts@);
        Some(
            Pool {
                state: State { admin, pool_total_amount },
                accounts,
                injected: Ghost((pool_total_amount - sum) as nat),
            },
        )
    }
}

/// The answer to `msg` on `pool`.
pub open spec fn query_result(pool: Pool, msg: QueryMsg) -> nat {
    match msg {
        QueryMsg::GetUserAmount { user } => pool.principal_of(user@),
        QueryMsg::GetUserGain { user } => pool.gain_of(user@),
        QueryMsg::GetPoolTotalAmount => pool.pool_total(),
    }
}

/// Answers a query; the pool is only read.
pub fn query(pool: &Pool, msg: &QueryMsg) -> (r: u128)
    requires
        pool.wf(),
    ensures
        r == query_result(*pool, *msg),
{
    match msg {
        QueryMsg::GetUserAmount { user } => pool.get_principal(user),
        QueryMsg::GetUserGain { user } => pool.get_gain(user),
        QueryMsg::GetPoolTotalAmount => pool.get_pool_total(),
    }
}

/// Sets up an empty pool. The administrator is the one that `msg` names, or
/// else `sender`.
pub fn instantiate(sender: String, msg: InstantiateMsg) -> (r: Pool)
    ensures
        r.wf(),
        r.admin() == (match msg.admin {
            Some(a) => a@,
            None => sender@,
        }),
        r.pool_total() == 0,
        r.injected() == 0,
        forall|a: Seq<char>| r.principal_of(a) == 0 && r.gain_of(a) == 0,
{
    let admin = match msg.admin {
        Some(a) => a,
        None => sender,
    };
    let r = Pool {
        state: State { admin, pool_total_amount: 0 },
        accounts: Vec::new(),
        injected: Ghost(0),
    };
    assert forall|a: Seq<char>| r.principal_of(a) == 0 && r.gain_of(a) == 0 by {
        assert(!exists|k: int| holds_at(r.accounts@, a, k));
    }
    r
}

/// The amount of the pool token among `funds`, or `InvalidDeposit` where it
/// is zero.
pub fn verify_token_deposit(funds: &Vec<Coin>) -> (r: Result<u128, ContractError>)
    ensures
        token_amount(funds@) <= u128::MAX,
        token_amount(funds@) == 0 ==> r == Err::<u128, ContractError>(ContractError::InvalidDeposit),
        token_amount(funds@) > 0 ==> r == Ok::<u128, ContractError>(token_amount(funds@) as u128),
{
    proof {
        lemma_token_amount_bounded(funds@);
    }
    let token = String::from_str(POOL_DENOM);
    let mut amount: u128 = 0;
    let mut i: usize = 0;
    while i < funds.len()
        invariant
            i <= funds@.len(),
            token@ == POOL_DENOM@,
            amount == token_amount(funds@.take(i as int)),
        decreases funds@.len() - i,
    {
        assert(funds@.take(i + 1).drop_last() =~= funds@.take(i as int));
        if funds[i].denom == token {
            amount = funds[i].amount;
        }
        i = i + 1;
    }
    assert(funds@.take(i as int) =~= funds@);
    if amount == 0 {
        Err(ContractError::InvalidDeposit)
    } else {
        Ok(amount)
    }
}

/// `after` is the pool `before` once `who` has deposited `amount`.
pub open spec fn deposited(before: Pool, after: Pool, who: Seq<char>, amount: nat) -> bool {
    &&& after.admin() == before.admin()
    &&& after.pool_total() == before.pool_total() + amount
    &&& after.injected() == before.injected()
    &&& after.principal_of(who) == before.principal_of(who) + amount
    &&& forall|b: Seq<char>| b != who ==> after.principal_of(b) == before.principal_of(b)
    &&& forall|b: Seq<char>| after.gain_of(b) == before.gain_of(b)
}

/// A deposit with `info` turns `before` into `after` and returns `r`.
pub open spec fn stake_outcome(
    before: Pool,
    after: Pool,
    info: MessageInfo,
    r: Result<Response, ContractError>,
) -> bool {
    let amount = token_amount(info.funds@);
    if amount == 0 {
        r == Err::<Response, ContractError>(ContractError::InvalidDeposit) && after == before
    } else if before.pool_total() + amount > u128::MAX {
        r == Err::<Response, ContractError>(ContractError::ArithmeticOverflow) && after == before
    } else {
        r == Ok::<Response, ContractError>(Response { payout: None }) && deposited(
            before,
            after,
            info.sender@,
            amount,
        )
    }
}

/// `after` is the pool `before` once yield `amount` was shared out: each identity gains its
/// share of `amount` in proportion to its principal, with the pool total
/// before the injection as denominator.
pub open spec fn distributed(before: Pool, after: Pool, amount: nat) -> bool {
    &&& after.admin() == before.admin()
    &&& after.pool_total() == before.pool_total() + amount
    &&& after.injected() == before.injected() + amount
    &&& forall|b: Seq<char>| after.principal_of(b) == before.principal_of(b)
    &&& forall|b: Seq<char>|
        after.gain_of(b) == before.gain_of(b) + share_of(before.principal_of(b), amount, before.pool_total())
}

/// Sharing out `amount` would carry some gain, or the pool total, past `u128`.
pub open spec fn distribution_overflows(before: Pool, amount: nat) -> bool {
    ||| before.pool_total() + amount > u128::MAX
    ||| exists|b: Seq<char>|
        before.gain_of(b) + share_of(before.principal_of(b), amount, before.pool_total()) > u128::MAX
}

/// An injection of yield with `info` turns `before` into `after` and returns `r`.
pub open spec fn update_outcome(
    before: Pool,
    after: Pool,
    info: MessageInfo,
    r: Result<Response, ContractError>,
) -> bool {
    let amount = token_amount(info.funds@);
    if info.sender@ != before.admin() {
        r == Err::<Response, ContractError>(ContractError::Unauthorized) && after == before
    } else if amount == 0 {
        r == Err::<Response, ContractError>(ContractError::InvalidDeposit) && after == before
    } else if distribution_overflows(before, amount) {
        r == Err::<Response, ContractError>(ContractError::ArithmeticOverflow) && after == before
    } else {
        r == Ok::<Response, ContractError>(Response { payout: None }) && distributed(
            before,
            after,
            amount,
        )
    }
}

/// `after` is the pool `before` once `who` withdrew principal `amount` and gain `gain`.
pub open spec fn withdrawn(before: Pool, after: Pool, who: Seq<char>, amount: nat, gain: nat) -> bool {
    &&& after.admin() == before.admin()
    &&& after.pool_total() == before.pool_total() - amount
    &&& after.injected() == before.injected()
    &&& after.principal_of(who) == before.principal_of(who) - amount
    &&& after.gain_of(who) == before.gain_of(who) - gain
    &&& forall|b: Seq<char>| b != who ==> after.principal_of(b) == before.principal_of(b)
    &&& forall|b: Seq<char>| b != who ==> after.gain_of(b) == before.gain_of(b)
}

/// A withdrawal of principal `amount` by `who` turns `before` into `after` and returns `r`.
pub open spec fn withdraw_outcome(
    before: Pool,
    after: Pool,
    who: Seq<char>,
    amount: nat,
    r: Result<Response, ContractError>,
) -> bool {
    let p = before.principal_of(who);
    let w = gain_withdrawn(before.gain_of(who), amount, p);
    if amount == 0 || amount > p {
        (r matches Err(e) && is_invalid_amount(e)) && after == before
    } else {
        &&& withdrawn(before, after, who, amount, w)
        &&& match r {
            Ok(resp) => match resp.payout {
                Some(pay) => pay.to_address@ == who && pay.amount == amount + w,
                None => false,
            },
            Err(_) => false,
        }
    }
}

/// Deposits the pool token that `info` carries into the sender's principal.
pub fn stake(pool: &mut Pool, info: &MessageInfo) -> (r: Result<Response, ContractError>)
    requires
        old(pool).wf(),
    ensures
        final(pool).wf(),
        stake_outcome(*old(pool), *final(pool), *info, r),
{
    let amount = match verify_token_deposit(&info.funds) {
        Ok(a) => a,
        Err(e) => return Err(e),
    };
    let total = match pool.state.pool_total_amount.checked_add(amount) {
        Some(t) => t,
        None => return Err(ContractError::ArithmeticOverflow),
    };
    let ghost old_accounts = pool.accounts@;
    let who = &info.sender;
    proof {
        lemma_lookup_le_sum(old_accounts, who@);
    }
    match pool.find(who) {
        Some(i) => {
            proof {
                lemma_lookup_at(old_accounts, who@, i as int);
            }
            let p = pool.accounts[i].principal + amount;
            pool.accounts[i].principal = p;
            proof {
                let x = pool.accounts@[i as int];
                assert(pool.accounts@ == old_accounts.update(i as int, x));
                lemma_sum_update(old_accounts, i as int, x);
                assert forall|b: Seq<char>|
                    b != who@ implies principal_in(pool.accounts@, b) == principal_in(
                        old_accounts,
                        b,
                    ) by {
                    lemma_lookup_update(old_accounts, i as int, x, b);
                }
                assert forall|b: Seq<char>|
                    gain_in(pool.accounts@, b) == gain_in(old_accounts, b) by {
                    lemma_lookup_update(old_accounts, i as int, x, b);
                }
                lemma_lookup_update(old_accounts, i as int, x, who@);
            }
        },
        None => {
            let x = Account { addr: who.clone(), principal: amount, gain: 0 };
            pool.accounts.push(x);
            proof {
                assert(pool.accounts@ == old_accounts.push(x));
                assert forall|b: Seq<char>|
                    b != who@ implies principal_in(pool.accounts@, b) == principal_in(
                        old_accounts,
                        b,
                    ) by {
                    lemma_lookup_push(old_accounts, x, b);
                }
                assert forall|b: Seq<char>|
                    gain_in(pool.accounts@, b) == gain_in(old_accounts, b) by {
                    lemma_lookup_push(old_accounts, x, b);
                }
                lemma_lookup_push(old_accounts, x, who@);
                if exists|k: int| holds_at(old_accounts, who@, k) {
                    let k = choose|k: int| holds_at(old_accounts, who@, k);
                    assert(false);
                }
            }
        },
    }
    pool.state.pool_total_amount = total;
    Ok(Response { payout: None })
}
/// Withdraws principal `amount` of the sender, together with the same
/// fraction of the sender's accrued gain, and hands back the transfer of
/// both.
pub fn execute_withdraw(pool: &mut Pool, info: &MessageInfo, amount: u128) -> (r: Result<
    Response,
    ContractError,
>)
    requires
        old(pool).wf(),
    ensures
        final(pool).wf(),
        withdraw_outcome(*old(pool), *final(pool), info.sender@, amount as nat, r),
{
    let who = &info.sender;
    let ghost old_accounts = pool.accounts@;
    proof {
        lemma_lookup_le_sum(old_accounts, who@);
    }
    let i = match pool.find(who) {
        Some(i) => i,
        None => {
            return Err(ContractError::InvalidArgument { name: String::from_str("amount") });
        },
    };
    proof {
        lemma_lookup_at(old_accounts, who@, i as int);
    }
    let p = pool.accounts[i].principal;
    let g = pool.accounts[i].gain;
    if amount > p || amount == 0 {
        return Err(ContractError::InvalidArgument { name: String::from_str("amount") });
    }
    proof {
        lemma_ratio_bounded(amount as nat, g as nat, p as nat);
        assert(g * amount == amount * g) by (nonlinear_arith);
    }
    let w = multiply_ratio(g, amount, p).unwrap();
    let sent = amount + w;
    pool.accounts[i].principal = p - amount;
    pool.accounts[i].gain = g - w;
    pool.state.pool_total_amount = pool.state.pool_total_amount - amount;
    proof {
        let x = pool.accounts@[i as int];
        assert(pool.accounts@ == old_accounts.update(i as int, x));
        lemma_sum_update(old_accounts, i as int, x);
        assert forall|b: Seq<char>| b != who@ implies principal_in(pool.accounts@, b)
            == principal_in(old_accounts, b) && gain_in(pool.accounts@, b) == gain_in(
            old_accounts,
            b,
        ) by {
            lemma_lookup_update(old_accounts, i as int, x, b);
        }
        lemma_lookup_update(old_accounts, i as int, x, who@);
    }
    Ok(Response { payout: Some(Payout { to_address: who.clone(), amount: sent }) })
}

/// Shares out the pool token that the administrator sends with `info`:
/// every account gains `floor(principal * amount / total)`, where `total`
/// is the pool total before the call, and the pool total grows by
/// `amount`. Each share depends on the account's own principal and on that
/// one total alone, so the order in which accounts are visited does not
/// matter. Nothing changes unless every account can take its share.
pub fn execute_update_pool_total(pool: &mut Pool, info: &MessageInfo) -> (r: Result<
    Response,
    ContractError,
>)
    requires
        old(pool).wf(),
    ensures
        final(pool).wf(),
        update_outcome(*old(pool), *final(pool), *info, r),
{
    if info.sender != pool.state.admin {
        return Err(ContractError::Unauthorized);
    }
    let amount = match verify_token_deposit(&info.funds) {
        Ok(a) => a,
        Err(e) => return Err(e),
    };
    let total = pool.state.pool_total_amount;
    let new_total = match total.checked_add(amount) {
        Some(t) => t,
        None => return Err(ContractError::ArithmeticOverflow),
    };
    let ghost old_accounts = pool.accounts@;
    let mut next: Vec<Account> = Vec::new();
    let mut i: usize = 0;
    while i < pool.accounts.len()
        invariant
            pool.wf(),
            *pool == *old(pool),
            info.sender@ == pool.admin(),
            amount == token_amount(info.funds@),
            amount > 0,
            new_total == total + amount,
            pool.accounts@ == old_accounts,
            total == pool.state.pool_total_amount,
            i <= old_accounts.len(),
            next@.len() == i,
            sum_gain(old_accounts.take(i as int)) <= sum_gain(next@),
            total == 0 ==> sum_gain(next@) == sum_gain(old_accounts.take(i as int)),
            total * (sum_gain(next@) - sum_gain(old_accounts.take(i as int))) <= amount
                * sum_principal(old_accounts.take(i as int)),
            forall|k: int|
                #![trigger next@[k]]
                0 <= k < i ==> {
                    &&& next@[k].addr@ == old_accounts[k].addr@
                    &&& next@[k].principal == old_accounts[k].principal
                    &&& next@[k].gain == old_accounts[k].gain + share_of(
                        old_accounts[k].principal as nat,
                        amount as nat,
                        total as nat,
                    )
                },
        decreases old_accounts.len() - i,
    {
        let p = pool.accounts[i].principal;
        let delta: u128 = if p == 0 {
            assert(0 * (amount as int) == 0);
            0
        } else {
            proof {
                lemma_principal_le_sum(old_accounts, i as int);
                lemma_ratio_bounded(p as nat, amount as nat, total as nat);
            }
            multiply_ratio(p, amount, total).unwrap()
        };
        assert(delta == share_of(p as nat, amount as nat, total as nat));
        let gain = match pool.accounts[i].gain.checked_add(delta) {
            Some(g) => g,
            None => {
                proof {
                    let b = old_accounts[i as int].addr@;
                    lemma_lookup_at(old_accounts, b, i as int);
                    assert(pool.gain_of(b) + share_of(
                        pool.principal_of(b),
                        amount as nat,
                        pool.pool_total(),
                    ) > u128::MAX);
                    assert(distribution_overflows(*pool, amount as nat));
                }
                return Err(ContractError::ArithmeticOverflow);
            },
        };
        let ghost prev = next@;
        next.push(Account { addr: pool.accounts[i].addr.clone(), principal: p, gain });
        proof {
            assert(next@.drop_last() =~= prev);
            lemma_sum_prefix_step(old_accounts, i as int);
            lemma_principal_le_sum(old_accounts, i as int);
            let dg = sum_gain(prev) - sum_gain(old_accounts.take(i as int));
            let sp = sum_principal(old_accounts.take(i as int));
            if total > 0 {
                lemma_fundamental_div_mod(p * amount, total as int);
                assert(total * delta <= p * amount);
                assert(total * (dg + delta) <= amount * (sp + p)) by (nonlinear_arith)
                    requires
                        total * dg <= amount * sp,
                        total * delta <= p * amount,
                ;
            }
        }
        i = i + 1;
    }
    proof {
        lemma_sum_same_principals(old_accounts, next@);
        assert(old_accounts.take(old_accounts.len() as int) =~= old_accounts);
        if total > 0 {
            let dg = sum_gain(next@) - sum_gain(old_accounts);
            let sp = sum_principal(old_accounts);
            assert(dg <= amount) by (nonlinear_arith)
                requires
                    total * dg <= amount * sp,
                    sp <= total,
                    total > 0,
            ;
        }
        let t = next@;
        assert(unique_addrs(t)) by {
            assert forall|k: int, l: int|
                0 <= k < t.len() && 0 <= l < t.len() && t[k].addr@ == t[l].addr@ implies k
                == l by {
                assert(t[k].addr@ == old_accounts[k].addr@);
                assert(t[l].addr@ == old_accounts[l].addr@);
            }
        }
        assert forall|b: Seq<char>|
            principal_in(t, b) == principal_in(old_accounts, b) && gain_in(t, b) == gain_in(
                old_accounts,
                b,
            ) + share_of(principal_in(old_accounts, b), amount as nat, total as nat) by {
            if exists|k: int| holds_at(old_accounts, b, k) {
                let k = choose|k: int| holds_at(old_accounts, b, k);
                assert(t[k].addr@ == old_accounts[k].addr@);
                lemma_lookup_at(old_accounts, b, k);
                lemma_lookup_at(t, b, k);
            } else {
                assert forall|k: int| !holds_at(t, b, k) by {
                    if 0 <= k < t.len() {
                        assert(t[k].addr@ == old_accounts[k].addr@);
                        assert(!holds_at(old_accounts, b, k));
                    }
                }
                assert(0 * (amount as int) == 0);
            }
        }
        assert(!distribution_overflows(*pool, amount as nat)) by {
            assert forall|b: Seq<char>|
                pool.gain_of(b) + share_of(pool.principal_of(b), amount as nat, total as nat)
                    <= u128::MAX by {
                if exists|k: int| holds_at(old_accounts, b, k) {
                    let k = choose|k: int| holds_at(old_accounts, b, k);
                    assert(t[k].addr@ == old_accounts[k].addr@);
                    lemma_lookup_at(t, b, k);
                }
            }
        }
    }
    pool.accounts = next;
    pool.state.pool_total_amount = new_total;
    pool.injected = Ghost((pool.injected@ + amount) as nat);
    Ok(Response { payout: None })
}

/// Runs a command for the caller described by `info`.
pub fn execute(pool: &mut Pool, info: &MessageInfo, msg: &ExecuteMsg) -> (r: Result<
    Response,
    ContractError,
>)
    requires
        old(pool).wf(),
    ensures
        final(pool).wf(),
        match *msg {
            ExecuteMsg::Deposit => stake_outcome(*old(pool), *final(pool), *info, r),
            ExecuteMsg::UpdatePoolTotalAmount => update_outcome(*old(pool), *final(pool), *info, r),
            ExecuteMsg::Withdraw { amount } => withdraw_outcome(
                *old(pool),
                *final(pool),
                info.sender@,
                amount as nat,
                r,
            ),
        },
{
    match msg {
        ExecuteMsg::Deposit => stake(pool, info),
        ExecuteMsg::UpdatePoolTotalAmount => execute_update_pool_total(pool, info),
        ExecuteMsg::Withdraw { amount } => execute_withdraw(pool, info, *amount),
    }
}

/// In every state the pool can reach, its total is the sum of all principals
/// plus the yield injected so far; while no yield has been injected it is
/// exactly the sum of all principals. The gains still held never add up to
/// more than the yield injected.
pub proof fn law_pool_total(pool: Pool)
    requires
        pool.wf(),
    ensures
        pool.pool_total() == pool.total_principal() + pool.injected(),
        pool.injected() == 0 ==> pool.pool_total() == pool.total_principal(),
        pool.total_gain() <= pool.injected(),
{
}

/// Balances are never negative, and no principal exceeds the sum of all
/// principals, which in turn does not exceed the pool total.
pub proof fn law_balances_in_range(pool: Pool, a: Seq<char>)
    requires
        pool.wf(),
    ensures
        0 <= pool.principal_of(a) <= pool.total_principal() <= pool.pool_total(),
        0 <= pool.gain_of(a),
{
    lemma_lookup_le_sum(pool.accounts@, a);
}

/// Withdrawing one's whole principal always succeeds, takes all accrued gain
/// with it and leaves both balances at zero.
pub proof fn law_full_withdrawal(
    before: Pool,
    after: Pool,
    who: Seq<char>,
    r: Result<Response, ContractError>,
)
    requires
        before.wf(),
        before.principal_of(who) > 0,
        withdraw_outcome(before, after, who, before.principal_of(who), r),
    ensures
        r is Ok,
        after.principal_of(who) == 0,
        after.gain_of(who) == 0,
{
    let p = before.principal_of(who);
    let g = before.gain_of(who);
    assert(g * p / p == g) by (nonlinear_arith)
        requires
            p > 0,
    ;
}

} // verus!
