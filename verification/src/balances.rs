use vstd::prelude::*;
use crate::state::Key;
use crate::state::UserBalance;

verus! {

/// Rejections raised by the balance-ledger operations.
#[derive(Clone, Copy, PartialEq, Eq, Structural, Debug)]
pub enum BalancesError {
    Unauthorized,
    InvalidAmount,
    InvalidMint,
    InsufficientFunds,
    Overflow,
}

/// The record belongs to this user on this market.
pub open spec fn balance_owned_by(ub: UserBalance, user: Key, market: Key) -> bool {
    ub.user == user && ub.market == market
}

/// Credits a deposit to the user's free base balance. The value transfer
/// itself is the custody collaborator's job; this is only the ledger update.
pub fn deposit_base_apply(ub: &mut UserBalance, user: Key, market: Key, amount: u64) -> (r: Result<
    (),
    BalancesError,
>)
    ensures
        match r {
            Ok(()) => {
                &&& amount > 0
                &&& balance_owned_by(*old(ub), user, market)
                &&& old(ub).base_free + amount <= u64::MAX
                &&& *final(ub) == (UserBalance {
                    base_free: (old(ub).base_free + amount) as u64,
                    ..*old(ub)
                })
            },
            Err(e) => {
                &&& *final(ub) == *old(ub)
                &&& (e == BalancesError::InvalidAmount || e == BalancesError::Unauthorized || e
                    == BalancesError::Overflow)
                &&& (e == BalancesError::InvalidAmount <==> amount == 0)
                &&& (e == BalancesError::Unauthorized <==> (amount > 0 && !balance_owned_by(
                    *old(ub),
                    user,
                    market,
                )))
                &&& (e == BalancesError::Overflow <==> (amount > 0 && balance_owned_by(
                    *old(ub),
                    user,
                    market,
                ) && old(ub).base_free + amount > u64::MAX))
            },
        },
{
    if amount == 0 {
        return Err(BalancesError::InvalidAmount);
    }
    if !(ub.user == user && ub.market == market) {
        return Err(BalancesError::Unauthorized);
    }
    match ub.base_free.checked_add(amount) {
        Some(v) => {
            ub.base_free = v;
            Ok(())
        },
        None => Err(BalancesError::Overflow),
    }
}

/// Credits a deposit to the user's free quote balance.
pub fn deposit_quote_apply(ub: &mut UserBalance, user: Key, market: Key, amount: u64) -> (r:
    Result<(), BalancesError>)
    ensures
        match r {
            Ok(()) => {
                &&& amount > 0
                &&& balance_owned_by(*old(ub), user, market)
                &&& old(ub).quote_free + amount <= u64::MAX
                &&& *final(ub) == (UserBalance {
                    quote_free: (old(ub).quote_free + amount) as u64,
                    ..*old(ub)
                })
            },
            Err(e) => {
                &&& *final(ub) == *old(ub)
                &&& (e == BalancesError::InvalidAmount || e == BalancesError::Unauthorized || e
                    == BalancesError::Overflow)
                &&& (e == BalancesError::InvalidAmount <==> amount == 0)
                &&& (e == BalancesError::Unauthorized <==> (amount > 0 && !balance_owned_by(
                    *old(ub),
                    user,
                    market,
                )))
                &&& (e == BalancesError::Overflow <==> (amount > 0 && balance_owned_by(
                    *old(ub),
                    user,
                    market,
                ) && old(ub).quote_free + amount > u64::MAX))
            },
        },
{
    if amount == 0 {
        return Err(BalancesError::InvalidAmount);
    }
    if !(ub.user == user && ub.market == market) {
        return Err(BalancesError::Unauthorized);
    }
    match ub.quote_free.checked_add(amount) {
        Some(v) => {
            ub.quote_free = v;
            Ok(())
        },
        None => Err(BalancesError::Overflow),
    }
}

/// Debits a withdrawal from the user's free base balance; rejected when the
/// free balance does not cover it.
pub fn withdraw_base_apply(ub: &mut UserBalance, user: Key, market: Key, amount: u64) -> (r:
    Result<(), BalancesError>)
    ensures
        match r {
            Ok(()) => {
                &&& amount > 0
                &&& balance_owned_by(*old(ub), user, market)
                &&& old(ub).base_free >= amount
                &&& *final(ub) == (UserBalance {
                    base_free: (old(ub).base_free - amount) as u64,
                    ..*old(ub)
                })
            },
            Err(e) => {
                &&& *final(ub) == *old(ub)
                &&& (e == BalancesError::InvalidAmount || e == BalancesError::Unauthorized || e
                    == BalancesError::InsufficientFunds)
                &&& (e == BalancesError::InvalidAmount <==> amount == 0)
                &&& (e == BalancesError::Unauthorized <==> (amount > 0 && !balance_owned_by(
                    *old(ub),
                    user,
                    market,
                )))
                &&& (e == BalancesError::InsufficientFunds <==> (amount > 0 && balance_owned_by(
                    *old(ub),
                    user,
                    market,
                ) && old(ub).base_free < amount))
            },
        },
{
    if amount == 0 {
        return Err(BalancesError::InvalidAmount);
    }
    if !(ub.user == user && ub.market == market) {
        return Err(BalancesError::Unauthorized);
    }
    if ub.base_free < amount {
        return Err(BalancesError::InsufficientFunds);
    }
    ub.base_free = ub.base_free - amount;
    Ok(())
}

/// Debits a withdrawal from the user's free quote balance; rejected when the
/// free balance does not cover it.
pub fn withdraw_quote_apply(ub: &mut UserBalance, user: Key, market: Key, amount: u64) -> (r:
    Result<(), BalancesError>)
    ensures
        match r {
            Ok(()) => {
                &&& amount > 0
                &&& balance_owned_by(*old(ub), user, market)
                &&& old(ub).quote_free >= amount
                &&& *final(ub) == (UserBalance {
                    quote_free: (old(ub).quote_free - amount) as u64,
                    ..*old(ub)
                })
            },
            Err(e) => {
                &&& *final(ub) == *old(ub)
                &&& (e == BalancesError::InvalidAmount || e == BalancesError::Unauthorized || e
                    == BalancesError::InsufficientFunds)
                &&& (e == BalancesError::InvalidAmount <==> amount == 0)
                &&& (e == BalancesError::Unauthorized <==> (amount > 0 && !balance_owned_by(
                    *old(ub),
                    user,
                    market,
                )))
                &&& (e == BalancesError::InsufficientFunds <==> (amount > 0 && balance_owned_by(
                    *old(ub),
                    user,
                    market,
                ) && old(ub).quote_free < amount))
            },
        },
{
    if amount == 0 {
        return Err(BalancesError::InvalidAmount);
    }
    if !(ub.user == user && ub.market == market) {
        return Err(BalancesError::Unauthorized);
    }
    if ub.quote_free < amount {
        return Err(BalancesError::InsufficientFunds);
    }
    ub.quote_free = ub.quote_free - amount;
    Ok(())
}

} // verus!
