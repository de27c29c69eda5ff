use kerdos_markets::balances::deposit_base_apply;
use kerdos_markets::balances::withdraw_quote_apply;
use kerdos_markets::balances::BalancesError;
use kerdos_markets::domain::kind_tag;
use kerdos_markets::domain::standard_profile;
use kerdos_markets::domain::BlobKind;
use kerdos_markets::eventq::EventQueue;
use kerdos_markets::orders::validate_blob;
use kerdos_markets::orders::validate_place_order;
use kerdos_markets::orders::OrdersError;
use kerdos_markets::orders::PlaceOrderParams;
use kerdos_markets::orders::PlaceReject;
use kerdos_markets::settle::settle_events;
use kerdos_markets::settle::settle_fill;
use kerdos_markets::settle::SettleError;
use kerdos_markets::slab::capacity_from_len;
use kerdos_markets::slab::region_len_for;
use kerdos_markets::state::Blob;
use kerdos_markets::state::FillEvent;
use kerdos_markets::state::Key;
use kerdos_markets::state::Market;
use kerdos_markets::state::OpenOrdersLite;
use kerdos_markets::state::UserBalance;
use kerdos_markets::state::BLOB_MAGIC;

fn key(n: u64) -> Key {
    Key { w0: n, w1: 0, w2: 0, w3: 0 }
}

fn market() -> Market {
    Market {
        authority: key(1),
        base_mint: key(2),
        quote_mint: key(3),
        bids: key(4),
        asks: key(5),
        event_queue: key(6),
        tick_size: 10,
        min_base_qty: 10,
        fees_bps: 10,
        paused: false,
        bump_market: 0,
        bump_bids: 0,
        bump_asks: 0,
        bump_eventq: 0,
        bids_capacity: 64,
        asks_capacity: 64,
        eventq_capacity: 64,
        fees_accrued: 0,
    }
}

fn balance(user: Key, market: Key, base: u64, quote: u64) -> UserBalance {
    UserBalance { market, user, base_free: base, quote_free: quote, bump: 0 }
}

fn fill(qty: u64, price: u32, taker_side: u8) -> FillEvent {
    FillEvent { maker_oo: key(11), taker_oo: key(12), base_qty: qty, price_ticks: price, taker_side }
}

#[test]
fn settle_taker_buy_exact_deltas() {
    // qty 30 at price 100 with 10 bps: quote 3000, fee = 3000*10/10000 = 3
    let ev = fill(30, 100, 0);
    let mut maker = balance(key(7), key(9), 1_000, 1_000);
    let mut taker = balance(key(8), key(9), 1_000, 10_000);
    let fee = settle_fill(&ev, 10, &mut maker, &mut taker).unwrap();
    assert_eq!(fee, 3);
    assert_eq!(maker.base_free, 1_000 - 30);
    assert_eq!(maker.quote_free, 1_000 + 3_000);
    assert_eq!(taker.base_free, 1_000 + 30);
    assert_eq!(taker.quote_free, 10_000 - 3_000 - 3);
}

#[test]
fn settle_taker_sell_exact_deltas() {
    let ev = fill(30, 100, 1);
    let mut maker = balance(key(7), key(9), 1_000, 10_000);
    let mut taker = balance(key(8), key(9), 1_000, 1_000);
    let fee = settle_fill(&ev, 10, &mut maker, &mut taker).unwrap();
    assert_eq!(fee, 3);
    assert_eq!(maker.base_free, 1_000 + 30);
    assert_eq!(maker.quote_free, 10_000 - 3_000);
    assert_eq!(taker.base_free, 1_000 - 30);
    assert_eq!(taker.quote_free, 1_000 + 3_000 - 3);
}

#[test]
fn settle_zero_fee_rate_takes_nothing() {
    let ev = fill(30, 100, 0);
    let mut maker = balance(key(7), key(9), 100, 0);
    let mut taker = balance(key(8), key(9), 0, 3_000);
    let fee = settle_fill(&ev, 0, &mut maker, &mut taker).unwrap();
    assert_eq!(fee, 0);
    assert_eq!(taker.quote_free, 0);
}

#[test]
fn settle_rejections_leave_balances_alone() {
    // quote overflows 64 bits
    let ev = fill(u64::MAX, u32::MAX, 0);
    let mut maker = balance(key(7), key(9), u64::MAX, 0);
    let mut taker = balance(key(8), key(9), 0, u64::MAX);
    assert_eq!(settle_fill(&ev, 10, &mut maker, &mut taker), Err(SettleError::Overflow));
    assert_eq!(maker.base_free, u64::MAX);
    assert_eq!(taker.quote_free, u64::MAX);

    // maker cannot cover the base it owes
    let ev = fill(30, 100, 0);
    let mut maker = balance(key(7), key(9), 10, 0);
    let mut taker = balance(key(8), key(9), 0, 10_000);
    assert_eq!(
        settle_fill(&ev, 10, &mut maker, &mut taker),
        Err(SettleError::InsufficientBalance)
    );

    // a fee rate above 100% underflows the seller's proceeds
    let ev = fill(30, 100, 1);
    let mut maker = balance(key(7), key(9), 0, 10_000);
    let mut taker = balance(key(8), key(9), 100, 0);
    assert_eq!(settle_fill(&ev, 20_000, &mut maker, &mut taker), Err(SettleError::Underflow));
}

#[test]
fn settle_batch_drains_settled_prefix() {
    let mut evq = EventQueue::new(8);
    let mkt = key(9);
    let maker_oo_key = key(11);
    let taker_oo_key = key(12);
    let mut ev = fill(30, 100, 0);
    ev.maker_oo = maker_oo_key;
    ev.taker_oo = taker_oo_key;
    evq.push(ev);
    evq.push(ev);
    evq.push(ev);
    let oo = |user: Key| OpenOrdersLite {
        user,
        market: mkt,
        locked_lamports: 0,
        price_ticks: 100,
        base_qty: 0,
        side: 0,
        active: false,
        bump: 0,
    };
    let oos = vec![(maker_oo_key, oo(key(7))), (taker_oo_key, oo(key(8)))];
    let mut balances = vec![
        balance(key(7), mkt, 1_000, 1_000),
        balance(key(8), mkt, 1_000, 100_000),
    ];
    let mut fees_accrued: u64 = 0;
    let n = settle_events(&mut evq, 10, &mut fees_accrued, mkt, &oos, &mut balances, 2).unwrap();
    assert_eq!(n, 2);
    assert_eq!(evq.len(), 1);
    assert_eq!(fees_accrued, 6);
    assert_eq!(balances[0].base_free, 1_000 - 60);
    assert_eq!(balances[1].quote_free, 100_000 - 2 * 3_003);
    let n = settle_events(&mut evq, 10, &mut fees_accrued, mkt, &oos, &mut balances, 10).unwrap();
    assert_eq!(n, 1);
    assert_eq!(evq.len(), 0);
    assert_eq!(fees_accrued, 9);
}

#[test]
fn settle_batch_failure_keeps_failing_event() {
    let mut evq = EventQueue::new(8);
    let mkt = key(9);
    let mut ev = fill(30, 100, 0);
    ev.maker_oo = key(11);
    ev.taker_oo = key(12);
    evq.push(ev);
    // no open-orders records supplied at all
    let oos: Vec<(Key, OpenOrdersLite)> = vec![];
    let mut balances = vec![balance(key(7), mkt, 0, 0)];
    let mut fees_accrued: u64 = 0;
    let r = settle_events(&mut evq, 10, &mut fees_accrued, mkt, &oos, &mut balances, 4);
    assert_eq!(r, Err(SettleError::MissingOpenOrders));
    assert_eq!(evq.len(), 1);
}

#[test]
fn drain_prefix_compacts_remainder() {
    let mut evq = EventQueue::new(8);
    evq.push(fill(1, 10, 0));
    evq.push(fill(2, 20, 0));
    evq.push(fill(3, 30, 0));
    evq.drain_prefix(1);
    assert_eq!(evq.len(), 2);
    assert_eq!(evq.events[0].base_qty, 2);
    assert_eq!(evq.events[1].base_qty, 3);
    evq.drain_prefix(2);
    assert_eq!(evq.len(), 0);
}

#[test]
fn place_validation_rejects_in_rule_order() {
    let m = market();
    let ok = PlaceOrderParams {
        price_ticks: 100,
        base_qty: 20,
        side: 0,
        lock_lamports: 5,
        max_slippage_ticks: 0,
    };
    assert!(validate_place_order(&m, &ok).is_ok());
    let bad_side = PlaceOrderParams { side: 2, ..ok };
    assert_eq!(
        validate_place_order(&m, &bad_side),
        Err(PlaceReject::Orders(OrdersError::InvalidSide))
    );
    let bad_price = PlaceOrderParams { price_ticks: u32::MAX as u64 + 1, ..ok };
    assert_eq!(
        validate_place_order(&m, &bad_price),
        Err(PlaceReject::Orders(OrdersError::PriceOutOfRange))
    );
    let bad_step = PlaceOrderParams { base_qty: 25, ..ok };
    assert_eq!(
        validate_place_order(&m, &bad_step),
        Err(PlaceReject::Orders(OrdersError::InvalidQtyStep))
    );
    let small = PlaceOrderParams { base_qty: 0, ..ok };
    assert!(validate_place_order(&m, &small).is_err());
    let mut paused = market();
    paused.paused = true;
    assert_eq!(
        validate_place_order(&paused, &ok),
        Err(PlaceReject::Orders(OrdersError::Paused))
    );
    let no_lock = PlaceOrderParams { lock_lamports: 0, ..ok };
    assert_eq!(
        validate_place_order(&m, &no_lock),
        Err(PlaceReject::Orders(OrdersError::InvalidAmount))
    );
}

#[test]
fn short_regions_pass_as_unbooted() {
    // a region too short for the headers is not yet booted, not corrupt
    let junk = Blob { magic: 7, kind: 9, capacity: 0, used: 0 };
    assert!(validate_blob(&junk, BlobKind::Bids, 5, 0, 0).is_ok());
    let booted = Blob { magic: BLOB_MAGIC, kind: kind_tag(BlobKind::Bids), capacity: 0, used: 0 };
    assert!(validate_blob(&booted, BlobKind::Bids, 20, 0, 0).is_ok());
    // long enough to parse headers: the bounds are enforced
    assert!(validate_blob(&junk, BlobKind::Bids, 40, 0, 0).is_err());
}

#[test]
fn blob_header_sanity_checks() {
    let good = Blob { magic: BLOB_MAGIC, kind: kind_tag(BlobKind::EventQueue), capacity: 64, used: 2 };
    assert!(validate_blob(&good, BlobKind::EventQueue, 13 + 2 * 80, 0, 0).is_ok());
    assert_eq!(
        validate_blob(&good, BlobKind::EventQueue, 13 + 80, 0, 0),
        Err(OrdersError::BadBlobHeader)
    );
    let wrong_magic = Blob { magic: 7, ..good };
    assert_eq!(
        validate_blob(&wrong_magic, BlobKind::EventQueue, 1_000, 0, 0),
        Err(OrdersError::BadBlobHeader)
    );
    let bids_hdr = Blob { magic: BLOB_MAGIC, kind: kind_tag(BlobKind::Bids), capacity: 64, used: 0 };
    assert!(validate_blob(&bids_hdr, BlobKind::Bids, 13 + 24 + 4 * 80, 4, 3).is_ok());
    assert_eq!(
        validate_blob(&bids_hdr, BlobKind::Bids, 13 + 24 + 4 * 80, 4, 5),
        Err(OrdersError::BadBlobHeader)
    );
}

#[test]
fn region_sizing_round_trip() {
    let len = region_len_for(16);
    assert_eq!(len, 24 + 16 * 80);
    assert_eq!(capacity_from_len(13 + len), 16);
    assert_eq!(capacity_from_len(5), 0);
    let p = standard_profile();
    assert_eq!(p.tick_size, 1_000);
}

#[test]
fn balance_ledger_rules() {
    let user = key(1);
    let mkt = key(2);
    let mut ub = balance(user, mkt, 10, 10);
    assert!(deposit_base_apply(&mut ub, user, mkt, 5).is_ok());
    assert_eq!(ub.base_free, 15);
    assert_eq!(
        deposit_base_apply(&mut ub, user, mkt, 0),
        Err(BalancesError::InvalidAmount)
    );
    assert_eq!(
        deposit_base_apply(&mut ub, key(3), mkt, 5),
        Err(BalancesError::Unauthorized)
    );
    assert_eq!(
        deposit_base_apply(&mut ub, user, mkt, u64::MAX),
        Err(BalancesError::Overflow)
    );
    assert_eq!(
        withdraw_quote_apply(&mut ub, user, mkt, 11),
        Err(BalancesError::InsufficientFunds)
    );
    assert!(withdraw_quote_apply(&mut ub, user, mkt, 10).is_ok());
    assert_eq!(ub.quote_free, 0);
}
