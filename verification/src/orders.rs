use vstd::prelude::*;
use crate::engine::BinaryClobEngine;
use crate::engine::KerdosError;
use crate::engine::MatchingEngine;
use crate::eventq::EventQueue;
use crate::eventq::FILL_EVENT_LEN;
use crate::slab::IDX_NULL;
use crate::slab::Slab;
use crate::state::Blob;
use crate::state::FillEvent;
use crate::state::Key;
use crate::state::Market;
use crate::state::OpenOrdersLite;
use crate::state::BLOB_MAGIC;
use crate::state::BLOB_LEN;
use crate::domain::kind_tag;
use crate::domain::BlobKind;

verus! {

/// Rejections raised while placing, cancelling or settling orders.
#[derive(Clone, Copy, PartialEq, Eq, Structural, Debug)]
pub enum OrdersError {
    Paused,
    InvalidAmount,
    AlreadyActive,
    NotActive,
    BookEntryNotFound,
    InvalidSide,
    PriceOutOfRange,
    InvalidQtyStep,
    BadBlobHeader,
    InsufficientLamports,
    Overflow,
    EventqFull,
    BookFull,
    BadBookAccount,
    Unauthorized,
    StillActive,
}

/// A placement request as handed in by the user.
#[derive(Clone, Copy, PartialEq, Eq, Structural, Debug)]
pub struct PlaceOrderParams {
    pub price_ticks: u64,
    pub base_qty: u64,
    pub side: u8,
    pub lock_lamports: u64,
    pub max_slippage_ticks: u64,
}

/// A placement rejection: either an order-level rule or an engine rule.
#[derive(Clone, Copy, PartialEq, Eq, Structural, Debug)]
pub enum PlaceReject {
    Orders(OrdersError),
    Engine(KerdosError),
}

/// Every check a placement must pass before any state is touched, in the
/// order the checks are made: side, price range, quantity step, tick rule,
/// minimum quantity, pause flag, locked amount.
pub open spec fn place_reject_of(m: Market, params: PlaceOrderParams) -> Option<PlaceReject> {
    if params.side != 0 && params.side != 1 {
        Some(PlaceReject::Orders(OrdersError::InvalidSide))
    } else if params.price_ticks > u32::MAX as u64 {
        Some(PlaceReject::Orders(OrdersError::PriceOutOfRange))
    } else if m.min_base_qty == 0 || params.base_qty % m.min_base_qty != 0 {
        Some(PlaceReject::Orders(OrdersError::InvalidQtyStep))
    } else if !(m.tick_size > 0 && params.price_ticks > 0) {
        Some(PlaceReject::Engine(KerdosError::InvalidTick))
    } else if params.base_qty < m.min_base_qty {
        Some(PlaceReject::Engine(KerdosError::TooSmallQty))
    } else if m.paused {
        Some(PlaceReject::Orders(OrdersError::Paused))
    } else if params.lock_lamports == 0 {
        Some(PlaceReject::Orders(OrdersError::InvalidAmount))
    } else {
        None
    }
}

/// Validates a placement against the market's rules; rejected requests leave
/// every book untouched. A zero minimum quantity step rejects the request
/// rather than admitting quantities of zero.
pub fn validate_place_order(m: &Market, params: &PlaceOrderParams) -> (r: Result<(), PlaceReject>)
    ensures
        r is Ok <==> place_reject_of(*m, *params) is None,
        r is Err ==> Some(r.get_Err_0()) == place_reject_of(*m, *params),
        r is Ok ==> params.base_qty >= m.min_base_qty > 0 && 0 < params.price_ticks
            <= u32::MAX as u64 && (params.side == 0 || params.side == 1) && !m.paused
            && params.lock_lamports > 0,
{
    let eng = BinaryClobEngine;
    if params.side != 0 && params.side != 1 {
        return Err(PlaceReject::Orders(OrdersError::InvalidSide));
    }
    if params.price_ticks > u32::MAX as u64 {
        return Err(PlaceReject::Orders(OrdersError::PriceOutOfRange));
    }
    if m.min_base_qty == 0 || params.base_qty % m.min_base_qty != 0 {
        return Err(PlaceReject::Orders(OrdersError::InvalidQtyStep));
    }
    match eng.validate_tick(m.tick_size, params.price_ticks) {
        Ok(()) => (),
        Err(e) => {
            return Err(PlaceReject::Engine(e));
        },
    }
    match eng.validate_min_qty(m.min_base_qty, params.base_qty) {
        Ok(()) => (),
        Err(e) => {
            return Err(PlaceReject::Engine(e));
        },
    }
    if m.paused {
        return Err(PlaceReject::Orders(OrdersError::Paused));
    }
    if params.lock_lamports == 0 {
        return Err(PlaceReject::Orders(OrdersError::InvalidAmount));
    }
    Ok(())
}

/// The market's stored book keys match the accounts handed in.
pub fn validate_book_accounts(m: &Market, bids: Key, asks: Key, event_queue: Key) -> (r: Result<
    (),
    OrdersError,
>)
    ensures
        r is Ok <==> (m.bids == bids && m.asks == asks && m.event_queue == event_queue),
        r is Err ==> r == Err::<(), OrdersError>(OrdersError::BadBookAccount),
{
    if !(m.bids == bids) {
        return Err(OrdersError::BadBookAccount);
    }
    if !(m.asks == asks) {
        return Err(OrdersError::BadBookAccount);
    }
    if !(m.event_queue == event_queue) {
        return Err(OrdersError::BadBookAccount);
    }
    Ok(())
}

/// Sanity-checks a region header against its expected kind and the region's
/// byte length. A region too short to hold the headers is accepted as not
/// yet booted. Otherwise the magic and kind tag must match; an event queue's
/// used count must fit the bytes it has; a book's slab header must not claim
/// more capacity than the bytes allow nor more used records than its
/// capacity.
pub fn validate_blob(b: &Blob, expected: BlobKind, data_len: usize, slab_capacity: u32, slab_used:
    u32) -> (r: Result<(), OrdersError>)
    ensures
        r is Err ==> r == Err::<(), OrdersError>(OrdersError::BadBlobHeader),
        r is Ok <==> {
            ||| data_len < BLOB_LEN
            ||| {
                &&& b.magic == BLOB_MAGIC
                &&& b.kind == crate::domain::kind_tag_spec(expected)
                &&& (expected is EventQueue ==> b.used as int * FILL_EVENT_LEN + BLOB_LEN
                    <= data_len)
                &&& (!(expected is EventQueue) ==> data_len < BLOB_LEN
                    + crate::slab::SLAB_HEADER_LEN || (slab_capacity
                    as int * crate::slab::SLAB_NODE_LEN + BLOB_LEN + crate::slab::SLAB_HEADER_LEN
                    <= data_len && slab_used <= slab_capacity))
            }
        },
{
    if data_len < BLOB_LEN {
        return Ok(());
    }
    if b.magic != BLOB_MAGIC {
        return Err(OrdersError::BadBlobHeader);
    }
    if b.kind != kind_tag(expected) {
        return Err(OrdersError::BadBlobHeader);
    }
    proof {
        assert(FILL_EVENT_LEN == 80);
        assert(BLOB_LEN == 13);
        assert(crate::slab::SLAB_NODE_LEN == 80);
        assert(crate::slab::SLAB_HEADER_LEN == 24);
    }
    match expected {
        BlobKind::EventQueue => {
            if (b.used as u128) * (FILL_EVENT_LEN as u128) + (BLOB_LEN as u128) > (
            data_len as u128) {
                return Err(OrdersError::BadBlobHeader);
            }
            Ok(())
        },
        _ => {
            if data_len < BLOB_LEN + crate::slab::SLAB_HEADER_LEN {
                return Ok(());
            }
            if (slab_capacity as u128) * 80 + 13 + 24 > (data_len as u128) {
                return Err(OrdersError::BadBlobHeader);
            }
            if slab_used > slab_capacity {
                return Err(OrdersError::BadBlobHeader);
            }
            Ok(())
        },
    }
}

/// Total base quantity recorded in a run of fill events.
pub open spec fn sum_fill_qty(s: Seq<FillEvent>) -> int
    decreases s.len(),
{
    if s.len() == 0 {
        0
    } else {
        sum_fill_qty(s.drop_last()) + s.last().base_qty
    }
}

/// One fill of a taker order: attributed to the taker, a positive quantity,
/// priced no worse than the taker's limit, and within the slippage bound of
/// that limit.
pub open spec fn fill_within_bounds(
    ev: FillEvent,
    taker_price: u64,
    taker_key: Key,
    taker_is_bid: bool,
    max_slip: u64,
) -> bool {
    &&& ev.taker_oo == taker_key
    &&& ev.taker_side == (if taker_is_bid {
        0u8
    } else {
        1u8
    })
    &&& ev.base_qty > 0
    &&& (taker_is_bid ==> ev.price_ticks as u64 <= taker_price && taker_price
        - ev.price_ticks as u64 <= max_slip)
    &&& (!taker_is_bid ==> ev.price_ticks as u64 >= taker_price && ev.price_ticks as u64
        - taker_price <= max_slip)
}

/// The taker's identity and terms are untouched by matching; only the
/// remaining quantity and the active flag may change.
pub open spec fn taker_frame(pre: OpenOrdersLite, post: OpenOrdersLite) -> bool {
    &&& post.user == pre.user
    &&& post.market == pre.market
    &&& post.locked_lamports == pre.locked_lamports
    &&& post.price_ticks == pre.price_ticks
    &&& post.side == pre.side
    &&& post.bump == pre.bump
}

/// The event log only grew: what was there is untouched, and every appended
/// record is a fill of this taker within its limit and slippage bound.
pub open spec fn events_extended(
    pre: Seq<FillEvent>,
    cur: Seq<FillEvent>,
    taker_price: u64,
    taker_key: Key,
    taker_is_bid: bool,
    max_slip: u64,
) -> bool {
    &&& cur.len() >= pre.len()
    &&& cur.subrange(0, pre.len() as int) == pre
    &&& (forall|k: int|
        pre.len() <= k < cur.len() ==> fill_within_bounds(
            cur[k],
            taker_price,
            taker_key,
            taker_is_bid,
            max_slip,
        ))
}

/// Every live price of the book fits the event record's 32-bit price field.
pub open spec fn book_prices_fit(s: Slab) -> bool {
    forall|j: int| s.live().contains(j) ==> s.nodes@[j].price_ticks <= u32::MAX as u64
}

/// The crossing loop: consumes the opposite side's best while the taker's
/// price crosses it within the slippage bound, appending one fill event per
/// round and reducing the taker's remaining quantity. A full event log
/// aborts the triggering round before it consumes anything; fills from
/// earlier rounds remain appended.
/// The taker's limit crosses the book's current best within the slippage
/// bound: a fill is due.
pub open spec fn crossing_due(s: Slab, taker_price: u64, taker_is_bid: bool, max_slip: u64) -> bool {
    &&& !s.live().is_empty()
    &&& (taker_is_bid ==> taker_price >= s.nodes@[s.best as int].price_ticks && taker_price
        - s.nodes@[s.best as int].price_ticks <= max_slip)
    &&& (!taker_is_bid ==> s.nodes@[s.best as int].price_ticks >= taker_price && s.nodes@[s.best
        as int].price_ticks - taker_price <= max_slip)
}

/// The first fill of a crossing run: priced at the opposite best, attributed
/// to the best's owner, for the smaller of the taker's and the best's
/// quantities.
pub open spec fn first_fill_of(ev: FillEvent, opp: Slab, taker_qty: u64) -> bool {
    &&& ev.price_ticks as u64 == opp.nodes@[opp.best as int].price_ticks
    &&& ev.maker_oo == opp.nodes@[opp.best as int].oo
    &&& ev.base_qty == (if taker_qty <= opp.nodes@[opp.best as int].base_qty {
        taker_qty
    } else {
        opp.nodes@[opp.best as int].base_qty
    })
}

/// The crossing loop: consumes the opposite side's best while the taker's
/// price crosses it within the slippage bound, appending one fill event per
/// round and reducing the taker's remaining quantity. A full event log
/// aborts the triggering round before it consumes anything; fills from
/// earlier rounds remain appended.
#[verifier::rlimit(100)]
fn cross_against(
    opposite: &mut Slab,
    evq: &mut EventQueue,
    taker: &mut OpenOrdersLite,
    taker_key: Key,
    taker_is_bid: bool,
    max_slippage_ticks: u64,
) -> (r: Result<(), OrdersError>)
    requires
        old(opposite).wf(),
        old(evq).wf(),
        old(opposite).is_bid == !taker_is_bid,
        old(taker).base_qty > 0,
        old(taker).price_ticks <= u32::MAX as u64,
        book_prices_fit(*old(opposite)),
    ensures
        final(opposite).wf(),
        final(evq).wf(),
        final(opposite).is_bid == old(opposite).is_bid,
        final(opposite).capacity == old(opposite).capacity,
        final(evq).capacity == old(evq).capacity,
        events_extended(
            old(evq).events@,
            final(evq).events@,
            old(taker).price_ticks,
            taker_key,
            taker_is_bid,
            max_slippage_ticks,
        ),
        old(taker).base_qty as int == final(taker).base_qty + sum_fill_qty(
            final(evq).events@.skip(old(evq).events@.len() as int),
        ),
        old(opposite).book_qty() == final(opposite).book_qty() + sum_fill_qty(
            final(evq).events@.skip(old(evq).events@.len() as int),
        ),
        forall|j: int|
            final(opposite).live().contains(j) ==> old(opposite).live().contains(j),
        final(evq).events@.len() > old(evq).events@.len() ==> crossing_due(
            *old(opposite),
            old(taker).price_ticks,
            taker_is_bid,
            max_slippage_ticks,
        ) && first_fill_of(
            final(evq).events@[old(evq).events@.len() as int],
            *old(opposite),
            old(taker).base_qty,
        ),
        taker_frame(*old(taker), *final(taker)),
        book_prices_fit(*final(opposite)),
        crossing_due(
            *old(opposite),
            old(taker).price_ticks,
            taker_is_bid,
            max_slippage_ticks,
        ) && old(evq).events@.len() == old(evq).capacity as int ==> r == Err::<
            (),
            OrdersError,
        >(OrdersError::EventqFull),
        match r {
            Ok(()) => {
                &&& (final(taker).base_qty == 0 ==> final(taker).active == false)
                &&& (final(taker).base_qty > 0 ==> final(taker).active == old(taker).active
                    && !crossing_due(
                    *final(opposite),
                    old(taker).price_ticks,
                    taker_is_bid,
                    max_slippage_ticks,
                ))
            },
            Err(e) => {
                &&& e == OrdersError::EventqFull
                &&& final(taker).base_qty > 0
                &&& final(taker).active == old(taker).active
                &&& final(evq).events@.len() == final(evq).capacity as int
            },
        },
{
    let ghost base = evq.events@.len() as int;
    let mut log_full = false;
    proof {
        assert(evq.events@.subrange(0, base) =~= old(evq).events@);
        assert(evq.events@.skip(base) =~= Seq::<FillEvent>::empty());
        assert(events_extended(
            old(evq).events@,
            evq.events@,
            old(taker).price_ticks,
            taker_key,
            taker_is_bid,
            max_slippage_ticks,
        ));
    }
    loop
        invariant_except_break
            !log_full,
            opposite.wf(),
            evq.wf(),
            opposite.is_bid == !taker_is_bid,
            opposite.is_bid == old(opposite).is_bid,
            opposite.capacity == old(opposite).capacity,
            evq.capacity == old(evq).capacity,
            base == old(evq).events@.len() as int,
            events_extended(
                old(evq).events@,
                evq.events@,
                old(taker).price_ticks,
                taker_key,
                taker_is_bid,
                max_slippage_ticks,
            ),
            old(taker).base_qty as int == taker.base_qty + sum_fill_qty(evq.events@.skip(base)),
            old(opposite).book_qty() == opposite.book_qty() + sum_fill_qty(
                evq.events@.skip(base),
            ),
            forall|j: int| opposite.live().contains(j) ==> old(opposite).live().contains(j),
            evq.events@.len() > base ==> crossing_due(
                *old(opposite),
                old(taker).price_ticks,
                taker_is_bid,
                max_slippage_ticks,
            ) && first_fill_of(evq.events@[base], *old(opposite), old(taker).base_qty),
            evq.events@.len() == base ==> *opposite == *old(opposite) && taker.base_qty == old(
                taker,
            ).base_qty && evq.events@ == old(evq).events@,
            taker.base_qty > 0,
            taker_frame(*old(taker), *taker),
            taker.active == old(taker).active,
            old(taker).price_ticks <= u32::MAX as u64,
            book_prices_fit(*opposite),
        ensures
            opposite.wf(),
            evq.wf(),
            opposite.is_bid == !taker_is_bid,
            opposite.is_bid == old(opposite).is_bid,
            opposite.capacity == old(opposite).capacity,
            evq.capacity == old(evq).capacity,
            events_extended(
                old(evq).events@,
                evq.events@,
                old(taker).price_ticks,
                taker_key,
                taker_is_bid,
                max_slippage_ticks,
            ),
            old(taker).base_qty as int == taker.base_qty + sum_fill_qty(evq.events@.skip(base)),
            old(opposite).book_qty() == opposite.book_qty() + sum_fill_qty(
                evq.events@.skip(base),
            ),
            forall|j: int| opposite.live().contains(j) ==> old(opposite).live().contains(j),
            evq.events@.len() > base ==> crossing_due(
                *old(opposite),
                old(taker).price_ticks,
                taker_is_bid,
                max_slippage_ticks,
            ) && first_fill_of(evq.events@[base], *old(opposite), old(taker).base_qty),
            taker_frame(*old(taker), *taker),
            taker.base_qty == 0 ==> taker.active == false,
            taker.base_qty > 0 ==> taker.active == old(taker).active,
            book_prices_fit(*opposite),
            log_full ==> taker.base_qty > 0 && taker.active == old(taker).active
                && evq.events@.len() == evq.capacity as int,
            crossing_due(
                *old(opposite),
                old(taker).price_ticks,
                taker_is_bid,
                max_slippage_ticks,
            ) && old(evq).events@.len() == old(evq).capacity as int ==> log_full,
            !log_full && taker.base_qty > 0 ==> !crossing_due(
                *opposite,
                old(taker).price_ticks,
                taker_is_bid,
                max_slippage_ticks,
            ),
        decreases taker.base_qty,
    {
        let best = opposite.peek_best();
        if best.is_none() {
            break ;
        }
        let (maker_oo, top_price, top_qty) = best.unwrap();
        proof {
            assert(opposite.live().contains(opposite.best as int));
            assert(top_price <= u32::MAX as u64);
            assert(top_qty > 0);
        }
        let cross = if taker_is_bid {
            taker.price_ticks >= top_price
        } else {
            taker.price_ticks <= top_price
        };
        if !cross {
            break ;
        }
        let diff = if taker_is_bid {
            taker.price_ticks - top_price
        } else {
            top_price - taker.price_ticks
        };
        if diff > max_slippage_ticks {
            break ;
        }
        // Capacity before mutation: a full log aborts the whole round, so no
        // fill is ever consumed from the book without its event.
        if evq.events.len() >= evq.capacity as usize {
            log_full = true;
            break ;
        }
        let fill = if taker.base_qty < top_qty {
            taker.base_qty
        } else {
            top_qty
        };
        let ghost pre_opp = *opposite;
        opposite.consume_best_by(fill);
        proof {
            assert forall|j: int| opposite.live().contains(j) implies opposite.nodes@[j].price_ticks
                <= u32::MAX as u64 && old(opposite).live().contains(j) by {
                let i = choose|i: int|
                    pre_opp.live().contains(i) && crate::slab::ident_eq(
                        opposite.nodes@[j],
                        pre_opp.nodes@[i],
                    );
                assert(pre_opp.nodes@[i].price_ticks <= u32::MAX as u64);
                assert(pre_opp.live().contains(j));
            }
            assert(opposite.book_qty() == pre_opp.book_qty() - fill);
        }
        let ev = FillEvent {
            maker_oo,
            taker_oo: taker_key,
            base_qty: fill,
            price_ticks: top_price as u32,
            taker_side: if taker_is_bid {
                0
            } else {
                1
            },
        };
        let ghost pre_events = evq.events@;
        evq.push(ev);
        proof {
            assert(evq.events@.subrange(0, base) =~= pre_events.subrange(0, base));
            assert(evq.events@.skip(base) =~= pre_events.skip(base).push(ev));
            assert(evq.events@.skip(base).drop_last() =~= pre_events.skip(base));
            assert(sum_fill_qty(evq.events@.skip(base)) == sum_fill_qty(pre_events.skip(base))
                + fill);
            assert(fill_within_bounds(
                ev,
                old(taker).price_ticks,
                taker_key,
                taker_is_bid,
                max_slippage_ticks,
            ));
            if pre_events.len() == base {
                assert(pre_opp == *old(opposite));
                assert(evq.events@[base] == ev);
                assert(first_fill_of(ev, *old(opposite), old(taker).base_qty));
            } else {
                assert(evq.events@[base] == pre_events[base]);
            }
        }
        taker.base_qty = taker.base_qty - fill;
        if taker.base_qty == 0 {
            taker.active = false;
            break ;
        }
    }
    if log_full {
        return Err(OrdersError::EventqFull);
    }
    Ok(())
}

/// Grows the side toward its ceiling so one more record can rest, mapping a
/// failed growth to `BookFull`.
#[verifier::rlimit(100)]
#[verifier::spinoff_prover]
fn grow_for_rest(s: &mut Slab, same_cap: u32) -> (r: Result<(), OrdersError>)
    requires
        old(s).wf(),
        same_cap < IDX_NULL,
    ensures
        final(s).wf(),
        final(s).is_bid == old(s).is_bid,
        final(s).used == old(s).used,
        final(s).live() == old(s).live(),
        forall|j: int|
            0 <= j < old(s).nodes@.len() ==> final(s).nodes@[j] == old(s).nodes@[j],
        match r {
            Ok(()) => final(s).used < final(s).capacity || final(s).capacity >= same_cap
                || final(s).capacity == 0,
            Err(e) => {
                &&& e == OrdersError::BookFull
                &&& *final(s) == *old(s)
                &&& old(s).used == old(s).capacity
                &&& (old(s).capacity >= same_cap || old(s).capacity == 0)
            },
        },
{
    match s.ensure_free_nodes_grow(same_cap, 1) {
        Ok(()) => {
            proof {
                crate::slab::lemma_used_capacity_partition(*s);
            }
            Ok(())
        },
        Err(_) => {
            proof {
                crate::slab::lemma_used_capacity_partition(*old(s));
            }
            Err(OrdersError::BookFull)
        },
    }
}

/// Rests the taker's remainder on its own side at the taker's original
/// price, growing that side's slab as needed up to its capacity ceiling.
/// Fails with `BookFull` exactly when the side is full and cannot grow.
#[verifier::rlimit(100)]
#[verifier::spinoff_prover]
fn rest_remainder(same_side: &mut Slab, taker: &OpenOrdersLite, taker_key: Key, same_cap: u32, ts:
    u64) -> (r: Result<(), OrdersError>)
    requires
        old(same_side).wf(),
        taker.base_qty > 0,
        same_cap < IDX_NULL,
    ensures
        final(same_side).wf(),
        final(same_side).is_bid == old(same_side).is_bid,
        match r {
            Ok(()) => {
                &&& final(same_side).used == old(same_side).used + 1
                &&& (forall|j: int|
                    old(same_side).live().contains(j) ==> crate::slab::data_eq(
                        final(same_side).nodes@[j],
                        old(same_side).nodes@[j],
                    ))
                &&& (exists|k: int|
                    {
                        &&& !old(same_side).live().contains(k)
                        &&& final(same_side).live() == old(same_side).live().insert(k)
                        &&& final(same_side).nodes@[k].price_ticks == taker.price_ticks
                        &&& final(same_side).nodes@[k].base_qty == taker.base_qty
                        &&& final(same_side).nodes@[k].oo == taker_key
                        &&& final(same_side).nodes@[k].ts == ts
                    })
            },
            Err(e) => {
                &&& e == OrdersError::BookFull
                &&& final(same_side).used == final(same_side).capacity
                &&& (final(same_side).capacity >= same_cap || final(same_side).capacity == 0)
                &&& final(same_side).live() == old(same_side).live()
                &&& final(same_side).used == old(same_side).used
                &&& (forall|j: int|
                    old(same_side).live().contains(j) ==> final(same_side).nodes@[j] == old(
                        same_side,
                    ).nodes@[j])
            },
        },
{
    let ghost pre_same = *same_side;
    match grow_for_rest(same_side, same_cap) {
        Ok(()) => (),
        Err(e) => {
            return Err(e);
        },
    }
    match same_side.insert_order(taker.price_ticks, taker.base_qty, taker_key, ts) {
        Ok(()) => (),
        Err(_) => {
            proof {
                assert(same_side.live() =~= pre_same.live());
                crate::slab::lemma_used_capacity_partition(*old(same_side));
                assert forall|j: int| old(same_side).live().contains(j) implies
                    same_side.nodes@[j] == old(same_side).nodes@[j] by {
                    assert(0 <= j < old(same_side).nodes@.len());
                }
                crate::slab::lemma_used_capacity_partition(*same_side);
                assert(same_side.used == same_side.capacity);
                assert(same_side.capacity >= same_cap || same_side.capacity == 0);
            }
            return Err(OrdersError::BookFull);
        },
    }
    proof {
        let k = choose|k: int|
            {
                &&& 0 <= k < same_side.nodes@.len()
                &&& !pre_same.live().contains(k)
                &&& same_side.live() == pre_same.live().insert(k)
                &&& same_side.nodes@[k].price_ticks == taker.price_ticks
                &&& same_side.nodes@[k].base_qty == taker.base_qty
                &&& same_side.nodes@[k].oo == taker_key
                &&& same_side.nodes@[k].ts == ts
            };
        assert(pre_same.live() =~= old(same_side).live());
        assert(same_side.live() == old(same_side).live().insert(k));
        crate::slab::lemma_used_capacity_partition(*old(same_side));
        assert forall|j: int| old(same_side).live().contains(j) implies crate::slab::data_eq(
            same_side.nodes@[j],
            old(same_side).nodes@[j],
        ) by {
            assert(0 <= j < old(same_side).nodes@.len());
            assert(pre_same.nodes@[j] == old(same_side).nodes@[j]);
            assert(crate::slab::data_eq(same_side.nodes@[j], pre_same.nodes@[j]));
        }
    }
    Ok(())
}

/// Crosses the taker against the opposite side and rests any remainder on
/// the taker's own side at the taker's original price, growing that side's
/// slab as needed up to its capacity ceiling.
#[verifier::rlimit(100)]
#[verifier::spinoff_prover]
pub fn match_and_place(
    opposite: &mut Slab,
    same_side: &mut Slab,
    evq: &mut EventQueue,
    taker: &mut OpenOrdersLite,
    taker_key: Key,
    taker_is_bid: bool,
    same_cap: u32,
    max_slippage_ticks: u64,
    ts: u64,
) -> (r: Result<(), OrdersError>)
    requires
        old(opposite).wf(),
        old(same_side).wf(),
        old(evq).wf(),
        old(opposite).is_bid == !taker_is_bid,
        old(same_side).is_bid == taker_is_bid,
        old(taker).base_qty > 0,
        old(taker).price_ticks <= u32::MAX as u64,
        same_cap < IDX_NULL,
        book_prices_fit(*old(opposite)),
    ensures
        final(opposite).wf(),
        final(same_side).wf(),
        final(evq).wf(),
        final(opposite).is_bid == old(opposite).is_bid,
        final(same_side).is_bid == old(same_side).is_bid,
        final(evq).capacity == old(evq).capacity,
        events_extended(
            old(evq).events@,
            final(evq).events@,
            old(taker).price_ticks,
            taker_key,
            taker_is_bid,
            max_slippage_ticks,
        ),
        old(taker).base_qty as int == final(taker).base_qty + sum_fill_qty(
            final(evq).events@.skip(old(evq).events@.len() as int),
        ),
        old(opposite).book_qty() == final(opposite).book_qty() + sum_fill_qty(
            final(evq).events@.skip(old(evq).events@.len() as int),
        ),
        forall|j: int|
            final(opposite).live().contains(j) ==> old(opposite).live().contains(j),
        final(evq).events@.len() > old(evq).events@.len() ==> crossing_due(
            *old(opposite),
            old(taker).price_ticks,
            taker_is_bid,
            max_slippage_ticks,
        ) && first_fill_of(
            final(evq).events@[old(evq).events@.len() as int],
            *old(opposite),
            old(taker).base_qty,
        ),
        taker_frame(*old(taker), *final(taker)),
        book_prices_fit(*final(opposite)),
        crossing_due(
            *old(opposite),
            old(taker).price_ticks,
            taker_is_bid,
            max_slippage_ticks,
        ) && old(evq).events@.len() == old(evq).capacity as int ==> r == Err::<
            (),
            OrdersError,
        >(OrdersError::EventqFull),
        match r {
            Ok(()) => {
                &&& (final(taker).base_qty == 0 ==> final(taker).active == false
                    && *final(same_side) == *old(same_side))
                &&& (final(taker).base_qty > 0 ==> {
                    &&& final(taker).active == old(taker).active
                    &&& !crossing_due(
                        *final(opposite),
                        old(taker).price_ticks,
                        taker_is_bid,
                        max_slippage_ticks,
                    )
                    &&& final(same_side).used == old(same_side).used + 1
                    &&& (forall|j: int|
                        old(same_side).live().contains(j) ==> crate::slab::data_eq(
                            final(same_side).nodes@[j],
                            old(same_side).nodes@[j],
                        ))
                    &&& (exists|k: int|
                        {
                            &&& !old(same_side).live().contains(k)
                            &&& final(same_side).live() == old(same_side).live().insert(k)
                            &&& final(same_side).nodes@[k].price_ticks == old(taker).price_ticks
                            &&& final(same_side).nodes@[k].base_qty == final(taker).base_qty
                            &&& final(same_side).nodes@[k].oo == taker_key
                            &&& final(same_side).nodes@[k].ts == ts
                        })
                })
            },
            Err(e) => {
                &&& (e == OrdersError::EventqFull || e == OrdersError::BookFull)
                &&& final(taker).base_qty > 0
                &&& final(taker).active == old(taker).active
                &&& final(same_side).live() == old(same_side).live()
                &&& final(same_side).used == old(same_side).used
                &&& (forall|j: int|
                    old(same_side).live().contains(j) ==> final(same_side).nodes@[j] == old(
                        same_side,
                    ).nodes@[j])
                &&& (e == OrdersError::EventqFull ==> final(evq).events@.len()
                    == final(evq).capacity as int && *final(same_side) == *old(same_side))
                &&& (e == OrdersError::BookFull ==> final(same_side).used
                    == final(same_side).capacity && (final(same_side).capacity >= same_cap
                    || final(same_side).capacity == 0))
            },
        },
{
    match cross_against(opposite, evq, taker, taker_key, taker_is_bid, max_slippage_ticks) {
        Ok(()) => (),
        Err(e) => {
            return Err(e);
        },
    }
    if taker.base_qty > 0 {
        match rest_remainder(same_side, taker, taker_key, same_cap, ts) {
            Ok(()) => (),
            Err(e) => {
                return Err(e);
            },
        }
    }
    Ok(())
}

/// Only the market's stored authority may reset the event queue.
pub fn validate_market_authority(m: &Market, authority: Key) -> (r: Result<(), OrdersError>)
    ensures
        r is Ok <==> m.authority == authority,
        r is Err ==> r == Err::<(), OrdersError>(OrdersError::Unauthorized),
{
    if m.authority == authority {
        Ok(())
    } else {
        Err(OrdersError::Unauthorized)
    }
}

/// Deactivates the order and removes its resting entry from its side's tree.
/// An entry already consumed by earlier matches is not an error: the cancel
/// still succeeds and reports `false`, so any locked value can be released.
pub fn cancel_order(
    bids: &mut Slab,
    asks: &mut Slab,
    oo: &mut OpenOrdersLite,
    oo_key: Key,
    payer: Key,
) -> (r: Result<bool, OrdersError>)
    requires
        old(bids).wf(),
        old(asks).wf(),
        old(bids).is_bid,
        !old(asks).is_bid,
    ensures
        final(bids).wf(),
        final(asks).wf(),
        final(bids).is_bid,
        !final(asks).is_bid,
        match r {
            Ok(removed) => {
                &&& old(oo).active
                &&& old(oo).user == payer
                &&& final(oo).active == false
                &&& final(oo).locked_lamports == 0
                &&& (final(oo).user == old(oo).user && final(oo).market == old(oo).market
                    && final(oo).price_ticks == old(oo).price_ticks && final(oo).base_qty == old(
                    oo,
                ).base_qty && final(oo).side == old(oo).side && final(oo).bump == old(oo).bump)
                &&& (old(oo).side == 0 ==> *final(asks) == *old(asks) && (removed <==> exists|
                    j: int,
                |
                    old(bids).live().contains(j) && old(bids).nodes@[j].oo == oo_key))
                &&& (old(oo).side != 0 ==> *final(bids) == *old(bids) && (removed <==> exists|
                    j: int,
                |
                    old(asks).live().contains(j) && old(asks).nodes@[j].oo == oo_key))
            },
            Err(e) => {
                &&& *final(bids) == *old(bids)
                &&& *final(asks) == *old(asks)
                &&& *final(oo) == *old(oo)
                &&& (e == OrdersError::NotActive || e == OrdersError::Unauthorized)
                &&& (e == OrdersError::NotActive <==> !old(oo).active)
                &&& (e == OrdersError::Unauthorized <==> (old(oo).active && old(oo).user != payer))
            },
        },
{
    if !oo.active {
        return Err(OrdersError::NotActive);
    }
    if !(oo.user == payer) {
        return Err(OrdersError::Unauthorized);
    }
    let removed = if oo.side == 0 {
        bids.remove_by_oo(oo_key)
    } else {
        asks.remove_by_oo(oo_key)
    };
    oo.locked_lamports = 0;
    oo.active = false;
    Ok(removed)
}

/// An open-orders record may only be closed once it is inactive.
pub fn validate_close_oo(oo: &OpenOrdersLite) -> (r: Result<(), OrdersError>)
    ensures
        r is Ok <==> !oo.active,
        r is Err ==> r == Err::<(), OrdersError>(OrdersError::StillActive),
{
    if oo.active {
        Err(OrdersError::StillActive)
    } else {
        Ok(())
    }
}

} // verus!
