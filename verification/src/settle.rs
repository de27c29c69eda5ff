use vstd::prelude::*;
use crate::eventq::EventQueue;
use crate::state::FillEvent;
use crate::state::Key;
use crate::state::OpenOrdersLite;
use crate::state::UserBalance;

verus! {

/// Basis-point denominator: 1 bps = 0.01%.
pub const BPS_DENOM: u64 = 10_000;

/// Rejections raised while settling fill events.
#[derive(Clone, Copy, PartialEq, Eq, Structural, Debug)]
pub enum SettleError {
    Unauthorized,
    MissingOpenOrders,
    MissingUserBalance,
    WrongMarket,
    Overflow,
    Underflow,
    InsufficientBalance,
}

/// Quote value of a fill: quantity times price, in quote units.
pub open spec fn quote_of(ev: FillEvent) -> int {
    ev.base_qty * ev.price_ticks
}

/// Fee taken from the taker: the quote value times the fee rate in basis
/// points, rounded down; a zero rate short-circuits to zero.
pub open spec fn fee_of(ev: FillEvent, fees_bps: u16) -> int {
    if fees_bps == 0 {
        0
    } else {
        quote_of(ev) * fees_bps / (BPS_DENOM as int)
    }
}

/// The first failure the settlement arithmetic meets for this event against
/// these balances, in evaluation order; `None` when it settles cleanly.
pub open spec fn settle_reject_of(
    ev: FillEvent,
    fees_bps: u16,
    maker: UserBalance,
    taker: UserBalance,
) -> Option<SettleError> {
    let quote = quote_of(ev);
    let fee = fee_of(ev, fees_bps);
    if quote > u64::MAX {
        Some(SettleError::Overflow)
    } else if fee > u64::MAX {
        Some(SettleError::Overflow)
    } else if ev.taker_side == 0 {
        if maker.base_free < ev.base_qty {
            Some(SettleError::InsufficientBalance)
        } else if maker.quote_free + quote > u64::MAX {
            Some(SettleError::Overflow)
        } else if taker.base_free + ev.base_qty > u64::MAX {
            Some(SettleError::Overflow)
        } else if quote + fee > u64::MAX {
            Some(SettleError::Overflow)
        } else if taker.quote_free < quote + fee {
            Some(SettleError::InsufficientBalance)
        } else {
            None
        }
    } else {
        if maker.base_free + ev.base_qty > u64::MAX {
            Some(SettleError::Overflow)
        } else if maker.quote_free < quote {
            Some(SettleError::InsufficientBalance)
        } else if taker.base_free < ev.base_qty {
            Some(SettleError::InsufficientBalance)
        } else if quote < fee {
            Some(SettleError::Underflow)
        } else if taker.quote_free + (quote - fee) > u64::MAX {
            Some(SettleError::Overflow)
        } else {
            None
        }
    }
}

/// Settles one fill event into the two parties' balances. When the taker
/// bought, the maker gives base and receives the quote value, and the taker
/// pays the quote value plus the fee; when the taker sold, the mirror-image
/// deltas apply and the fee comes out of the taker's proceeds. Every step is
/// checked: any overflow, or a balance that cannot cover its debit, rejects
/// the event and leaves both balances untouched. Returns the fee taken.
pub fn settle_fill(ev: &FillEvent, fees_bps: u16, maker: &mut UserBalance, taker: &mut UserBalance)
    -> (r: Result<u64, SettleError>)
    ensures
        match r {
            Ok(fee) => {
                &&& settle_reject_of(*ev, fees_bps, *old(maker), *old(taker)) is None
                &&& fee == fee_of(*ev, fees_bps)
                &&& (ev.taker_side == 0 ==> {
                    &&& final(maker).base_free == old(maker).base_free - ev.base_qty
                    &&& final(maker).quote_free == old(maker).quote_free + quote_of(*ev)
                    &&& final(taker).base_free == old(taker).base_free + ev.base_qty
                    &&& final(taker).quote_free == old(taker).quote_free - quote_of(*ev) - fee_of(
                        *ev,
                        fees_bps,
                    )
                })
                &&& (ev.taker_side != 0 ==> {
                    &&& final(maker).base_free == old(maker).base_free + ev.base_qty
                    &&& final(maker).quote_free == old(maker).quote_free - quote_of(*ev)
                    &&& final(taker).base_free == old(taker).base_free - ev.base_qty
                    &&& final(taker).quote_free == old(taker).quote_free + quote_of(*ev) - fee_of(
                        *ev,
                        fees_bps,
                    )
                })
                &&& final(maker).user == old(maker).user
                &&& final(maker).market == old(maker).market
                &&& final(maker).bump == old(maker).bump
                &&& final(taker).user == old(taker).user
                &&& final(taker).market == old(taker).market
                &&& final(taker).bump == old(taker).bump
            },
            Err(e) => {
                &&& Some(e) == settle_reject_of(*ev, fees_bps, *old(maker), *old(taker))
                &&& *final(maker) == *old(maker)
                &&& *final(taker) == *old(taker)
            },
        },
{
    proof {
        assert((ev.base_qty as int) * (ev.price_ticks as int) <= (u64::MAX as int) * (u32::MAX as int))
            by (nonlinear_arith)
            requires
                ev.base_qty as int <= u64::MAX as int,
                ev.price_ticks as int <= u32::MAX as int,
        ;
    }
    let quote128 = (ev.base_qty as u128) * (ev.price_ticks as u128);
    if quote128 > u64::MAX as u128 {
        return Err(SettleError::Overflow);
    }
    let quote = quote128 as u64;
    let fee: u64 = if fees_bps == 0 {
        0
    } else {
        proof {
            assert((quote as int) * (fees_bps as int) <= (u64::MAX as int) * (u16::MAX as int))
                by (nonlinear_arith)
                requires
                    quote as int <= u64::MAX as int,
                    fees_bps as int <= u16::MAX as int,
            ;
        }
        let fee_wide = (quote as u128) * (fees_bps as u128) / (BPS_DENOM as u128);
        if fee_wide > u64::MAX as u128 {
            return Err(SettleError::Overflow);
        }
        fee_wide as u64
    };
    if ev.taker_side == 0 {
        let maker_base = match maker.base_free.checked_sub(ev.base_qty) {
            Some(v) => v,
            None => {
                return Err(SettleError::InsufficientBalance);
            },
        };
        let maker_quote = match maker.quote_free.checked_add(quote) {
            Some(v) => v,
            None => {
                return Err(SettleError::Overflow);
            },
        };
        let taker_base = match taker.base_free.checked_add(ev.base_qty) {
            Some(v) => v,
            None => {
                return Err(SettleError::Overflow);
            },
        };
        let owed = match quote.checked_add(fee) {
            Some(v) => v,
            None => {
                return Err(SettleError::Overflow);
            },
        };
        let taker_quote = match taker.quote_free.checked_sub(owed) {
            Some(v) => v,
            None => {
                return Err(SettleError::InsufficientBalance);
            },
        };
        maker.base_free = maker_base;
        maker.quote_free = maker_quote;
        taker.base_free = taker_base;
        taker.quote_free = taker_quote;
        Ok(fee)
    } else {
        let maker_base = match maker.base_free.checked_add(ev.base_qty) {
            Some(v) => v,
            None => {
                return Err(SettleError::Overflow);
            },
        };
        let maker_quote = match maker.quote_free.checked_sub(quote) {
            Some(v) => v,
            None => {
                return Err(SettleError::InsufficientBalance);
            },
        };
        let taker_base = match taker.base_free.checked_sub(ev.base_qty) {
            Some(v) => v,
            None => {
                return Err(SettleError::InsufficientBalance);
            },
        };
        let proceeds = match quote.checked_sub(fee) {
            Some(v) => v,
            None => {
                return Err(SettleError::Underflow);
            },
        };
        let taker_quote = match taker.quote_free.checked_add(proceeds) {
            Some(v) => v,
            None => {
                return Err(SettleError::Overflow);
            },
        };
        maker.base_free = maker_base;
        maker.quote_free = maker_quote;
        taker.base_free = taker_base;
        taker.quote_free = taker_quote;
        Ok(fee)
    }
}

/// Only the market's stored authority may drive settlement.
pub fn validate_settle_authority(m: &crate::state::Market, authority: Key) -> (r: Result<
    (),
    SettleError,
>)
    ensures
        r is Ok <==> m.authority == authority,
        r is Err ==> r == Err::<(), SettleError>(SettleError::Unauthorized),
{
    if m.authority == authority {
        Ok(())
    } else {
        Err(SettleError::Unauthorized)
    }
}

/// Looks up the open-orders record for an identifier among the accounts the
/// caller supplied.
pub fn find_open_orders(oos: &Vec<(Key, OpenOrdersLite)>, target: Key) -> (r: Result<
    OpenOrdersLite,
    SettleError,
>)
    ensures
        match r {
            Ok(oo) => exists|i: int|
                0 <= i < oos@.len() && oos@[i].0 == target && oos@[i].1 == oo,
            Err(e) => {
                &&& e == SettleError::MissingOpenOrders
                &&& (forall|i: int| 0 <= i < oos@.len() ==> oos@[i].0 != target)
            },
        },
{
    let mut i: usize = 0;
    while i < oos.len()
        invariant
            0 <= i <= oos@.len(),
            forall|k: int| 0 <= k < i as int ==> oos@[k].0 != target,
        decreases oos@.len() - i,
    {
        if oos[i].0 == target {
            return Ok(oos[i].1);
        }
        i = i + 1;
    }
    Err(SettleError::MissingOpenOrders)
}

/// Index of the balance record for this user and market among the accounts
/// the caller supplied.
pub fn find_user_balance(ubs: &Vec<UserBalance>, user: Key, market: Key) -> (r: Result<
    usize,
    SettleError,
>)
    ensures
        match r {
            Ok(i) => (i as int) < ubs@.len() && ubs@[i as int].user == user && ubs@[i
                as int].market == market,
            Err(e) => {
                &&& e == SettleError::MissingUserBalance
                &&& (forall|k: int|
                    0 <= k < ubs@.len() ==> !(ubs@[k].user == user && ubs@[k].market == market))
            },
        },
{
    let mut i: usize = 0;
    while i < ubs.len()
        invariant
            0 <= i <= ubs@.len(),
            forall|k: int|
                0 <= k < i as int ==> !(ubs@[k].user == user && ubs@[k].market == market),
        decreases ubs@.len() - i,
    {
        if ubs[i].user == user && ubs[i].market == market {
            return Ok(i);
        }
        i = i + 1;
    }
    Err(SettleError::MissingUserBalance)
}

/// Settles up to `max_events` events from the front of the log: for each,
/// resolves both parties' open orders and balances, applies the settlement
/// arithmetic, and accrues the fee. Settled events are drained record by
/// record: a failure drains exactly the events already settled, leaves the
/// failing one at the front, and keeps earlier settlements committed.
/// Returns how many events were settled.
pub fn settle_events(
    evq: &mut EventQueue,
    fees_bps: u16,
    fees_accrued: &mut u64,
    market: Key,
    oos: &Vec<(Key, OpenOrdersLite)>,
    balances: &mut Vec<UserBalance>,
    max_events: u16,
) -> (r: Result<u32, SettleError>)
    requires
        old(evq).wf(),
    ensures
        final(evq).wf(),
        final(evq).capacity == old(evq).capacity,
        final(balances)@.len() == old(balances)@.len(),
        match r {
            Ok(n) => {
                &&& n as int == (if old(evq).events@.len() <= max_events as int {
                    old(evq).events@.len() as int
                } else {
                    max_events as int
                })
                &&& final(evq).events@ == old(evq).events@.skip(n as int)
            },
            Err(_) => final(evq).events@.len() <= old(evq).events@.len(),
        },
{
    let used = evq.len();
    if used == 0 {
        proof {
            assert(evq.events@.skip(0) =~= evq.events@);
        }
        return Ok(0);
    }
    let take_n: usize = if used <= max_events as usize {
        used
    } else {
        max_events as usize
    };
    let mut i: usize = 0;
    while i < take_n
        invariant
            0 <= i <= take_n,
            take_n <= old(evq).events@.len(),
            evq.wf(),
            evq.capacity == old(evq).capacity,
            evq.events@ == old(evq).events@,
            balances@.len() == old(balances)@.len(),
        decreases take_n - i,
    {
        let ev = evq.events[i];
        let maker_oo = match find_open_orders(oos, ev.maker_oo) {
            Ok(v) => v,
            Err(e) => {
                self_drain(evq, i);
                return Err(e);
            },
        };
        let taker_oo = match find_open_orders(oos, ev.taker_oo) {
            Ok(v) => v,
            Err(e) => {
                self_drain(evq, i);
                return Err(e);
            },
        };
        if !(maker_oo.market == market) || !(taker_oo.market == market) {
            self_drain(evq, i);
            return Err(SettleError::WrongMarket);
        }
        let maker_i = match find_user_balance(balances, maker_oo.user, market) {
            Ok(v) => v,
            Err(e) => {
                self_drain(evq, i);
                return Err(e);
            },
        };
        let taker_i = match find_user_balance(balances, taker_oo.user, market) {
            Ok(v) => v,
            Err(e) => {
                self_drain(evq, i);
                return Err(e);
            },
        };
        let mut maker_ub = balances[maker_i];
        let mut taker_ub = balances[taker_i];
        // When one party stands on both sides, the two records are copies of
        // the same slot; the taker-side store below wins, as the original
        // store order has it.
        let fee = match settle_fill(&ev, fees_bps, &mut maker_ub, &mut taker_ub) {
            Ok(f) => {
                balances[maker_i] = maker_ub;
                balances[taker_i] = taker_ub;
                f
            },
            Err(e) => {
                self_drain(evq, i);
                return Err(e);
            },
        };
        match fees_accrued.checked_add(fee) {
            Some(v) => {
                *fees_accrued = v;
            },
            None => {
                self_drain(evq, i);
                return Err(SettleError::Overflow);
            },
        }
        i = i + 1;
    }
    evq.drain_prefix(take_n);
    Ok(take_n as u32)
}

/// Drains the already-settled prefix when a later event in the batch fails.
fn self_drain(evq: &mut EventQueue, n: usize)
    requires
        old(evq).wf(),
        n <= old(evq).events@.len(),
    ensures
        final(evq).wf(),
        final(evq).capacity == old(evq).capacity,
        final(evq).events@ == old(evq).events@.skip(n as int),
{
    evq.drain_prefix(n);
}

} // verus!
