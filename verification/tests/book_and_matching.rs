use kerdos_markets::eventq::EventQueue;
use kerdos_markets::orders::cancel_order;
use kerdos_markets::orders::match_and_place;
use kerdos_markets::orders::OrdersError;
use kerdos_markets::slab::Slab;
use kerdos_markets::slab::SlabError;
use kerdos_markets::state::Key;
use kerdos_markets::state::OpenOrdersLite;

fn key(n: u64) -> Key {
    Key { w0: n, w1: 0, w2: 0, w3: 0 }
}

fn taker(user: Key, price: u64, qty: u64, side: u8) -> OpenOrdersLite {
    OpenOrdersLite {
        user,
        market: key(99),
        locked_lamports: 1_000,
        price_ticks: price,
        base_qty: qty,
        side,
        active: true,
        bump: 0,
    }
}

#[test]
fn bid_side_best_is_maximum_price() {
    let mut bids = Slab::init(true, 8);
    bids.insert_order(5, 10, key(1), 1).unwrap();
    bids.insert_order(9, 10, key(2), 2).unwrap();
    bids.insert_order(7, 10, key(3), 3).unwrap();
    let (owner, price, qty) = bids.peek_best().unwrap();
    assert_eq!(owner, key(2));
    assert_eq!(price, 9);
    assert_eq!(qty, 10);
}

#[test]
fn ask_side_best_is_minimum_price() {
    let mut asks = Slab::init(false, 8);
    asks.insert_order(5, 10, key(1), 1).unwrap();
    asks.insert_order(9, 10, key(2), 2).unwrap();
    asks.insert_order(3, 10, key(3), 3).unwrap();
    let (owner, price, _) = asks.peek_best().unwrap();
    assert_eq!(owner, key(3));
    assert_eq!(price, 3);
}

#[test]
fn used_never_exceeds_capacity_and_full_slab_rejects() {
    let mut bids = Slab::init(true, 2);
    assert_eq!(bids.capacity_nodes(), 2);
    bids.insert_order(1, 5, key(1), 1).unwrap();
    bids.insert_order(2, 5, key(2), 2).unwrap();
    assert_eq!(bids.used_nodes(), 2);
    assert_eq!(bids.insert_order(3, 5, key(3), 3), Err(SlabError::NoFreeNodes));
    assert_eq!(bids.used_nodes(), 2);
}

#[test]
fn grow_preserves_live_orders_and_adds_free_slots() {
    let mut bids = Slab::init(true, 2);
    bids.insert_order(4, 11, key(1), 1).unwrap();
    bids.insert_order(6, 12, key(2), 2).unwrap();
    bids.grow(5).unwrap();
    assert_eq!(bids.capacity_nodes(), 5);
    assert_eq!(bids.used_nodes(), 2);
    let (owner, price, qty) = bids.peek_best().unwrap();
    assert_eq!((owner, price, qty), (key(2), 6, 12));
    // exactly three more slots became available
    bids.insert_order(1, 1, key(3), 3).unwrap();
    bids.insert_order(1, 1, key(4), 4).unwrap();
    bids.insert_order(1, 1, key(5), 5).unwrap();
    assert_eq!(bids.insert_order(1, 1, key(6), 6), Err(SlabError::NoFreeNodes));
}

#[test]
fn grow_rejects_shrinking() {
    let mut bids = Slab::init(true, 4);
    assert_eq!(bids.grow(2), Err(SlabError::InvalidGrow));
}

#[test]
fn consume_best_partial_and_full() {
    let mut asks = Slab::init(false, 4);
    asks.insert_order(10, 50, key(1), 1).unwrap();
    asks.consume_best_by(20);
    let (_, _, qty) = asks.peek_best().unwrap();
    assert_eq!(qty, 30);
    asks.consume_best_by(30);
    assert!(asks.peek_best().is_none());
    assert_eq!(asks.used_nodes(), 0);
}

#[test]
fn remove_by_oo_finds_and_reports_absence() {
    let mut bids = Slab::init(true, 4);
    bids.insert_order(7, 5, key(1), 1).unwrap();
    bids.insert_order(8, 5, key(2), 2).unwrap();
    assert!(bids.remove_by_oo(key(1)));
    assert!(!bids.remove_by_oo(key(1)));
    assert_eq!(bids.used_nodes(), 1);
}

#[test]
fn rebuild_freelist_keeps_the_book() {
    let mut bids = Slab::init(true, 6);
    bids.insert_order(3, 5, key(1), 1).unwrap();
    bids.insert_order(9, 5, key(2), 2).unwrap();
    bids.rebuild_freelist();
    assert_eq!(bids.used_nodes(), 2);
    let (owner, price, _) = bids.peek_best().unwrap();
    assert_eq!((owner, price), (key(2), 9));
    assert!(bids.find_unused_index().is_some());
}

#[test]
fn partial_fill_rests_nothing_and_leaves_maker_remainder() {
    // bid side empty; ask side has one resting order (owner A, price 100, qty 50);
    // a bid for 30 at 100 with zero slippage fills once and rests nothing
    let mut bids = Slab::init(true, 8);
    let mut asks = Slab::init(false, 8);
    let mut evq = EventQueue::new(16);
    asks.insert_order(100, 50, key(1), 1).unwrap();
    let mut oo = taker(key(2), 100, 30, 0);
    match_and_place(&mut asks, &mut bids, &mut evq, &mut oo, key(22), true, 8, 0, 7).unwrap();
    assert_eq!(evq.len(), 1);
    let ev = evq.events[0];
    assert_eq!(ev.maker_oo, key(1));
    assert_eq!(ev.taker_oo, key(22));
    assert_eq!(ev.base_qty, 30);
    assert_eq!(ev.price_ticks, 100);
    assert_eq!(ev.taker_side, 0);
    let (owner, price, qty) = asks.peek_best().unwrap();
    assert_eq!((owner, price, qty), (key(1), 100, 20));
    assert_eq!(bids.used_nodes(), 0);
    assert_eq!(oo.base_qty, 0);
    assert!(!oo.active);
}

#[test]
fn full_fill_deletes_maker_and_rests_remainder() {
    // same book; a bid for 80 consumes the ask fully and rests 30 on the bid side
    let mut bids = Slab::init(true, 8);
    let mut asks = Slab::init(false, 8);
    let mut evq = EventQueue::new(16);
    asks.insert_order(100, 50, key(1), 1).unwrap();
    let mut oo = taker(key(2), 100, 80, 0);
    match_and_place(&mut asks, &mut bids, &mut evq, &mut oo, key(22), true, 8, 0, 7).unwrap();
    assert_eq!(evq.len(), 1);
    let ev = evq.events[0];
    assert_eq!(ev.base_qty, 50);
    assert_eq!(ev.price_ticks, 100);
    assert!(asks.peek_best().is_none());
    let (owner, price, qty) = bids.peek_best().unwrap();
    assert_eq!((owner, price, qty), (key(22), 100, 30));
    assert_eq!(oo.base_qty, 30);
    assert!(oo.active);
}

#[test]
fn zero_slippage_never_trades_past_the_first_quote() {
    // best ask 100, next ask 102; a bid at 105 with slippage 0 must not trade:
    // it gives up 5 ticks at the first crossing check
    let mut bids = Slab::init(true, 8);
    let mut asks = Slab::init(false, 8);
    let mut evq = EventQueue::new(16);
    asks.insert_order(100, 10, key(1), 1).unwrap();
    asks.insert_order(102, 10, key(3), 2).unwrap();
    let mut oo = taker(key(2), 105, 10, 0);
    match_and_place(&mut asks, &mut bids, &mut evq, &mut oo, key(22), true, 8, 0, 7).unwrap();
    assert_eq!(evq.len(), 0);
    assert_eq!(oo.base_qty, 10);
    // the remainder rests at the taker's own price, not the book's
    let (_, price, _) = bids.peek_best().unwrap();
    assert_eq!(price, 105);
}

#[test]
fn event_queue_full_aborts_the_round_and_keeps_earlier_fills() {
    let mut bids = Slab::init(true, 8);
    let mut asks = Slab::init(false, 8);
    let mut evq = EventQueue::new(1);
    asks.insert_order(100, 10, key(1), 1).unwrap();
    asks.insert_order(100, 10, key(3), 2).unwrap();
    let mut oo = taker(key(2), 100, 30, 0);
    let r = match_and_place(&mut asks, &mut bids, &mut evq, &mut oo, key(22), true, 8, 0, 7);
    assert_eq!(r, Err(OrdersError::EventqFull));
    assert_eq!(evq.len(), 1);
    assert_eq!(evq.events[0].base_qty, 10);
    assert_eq!(oo.base_qty, 20);
}

#[test]
fn book_full_when_no_growth_possible() {
    let mut bids = Slab::init(true, 1);
    let mut asks = Slab::init(false, 1);
    let mut evq = EventQueue::new(4);
    bids.insert_order(50, 10, key(1), 1).unwrap();
    // a non-crossing bid must rest, but the side is full and capped at 1
    let mut oo = taker(key(2), 40, 10, 0);
    let r = match_and_place(&mut asks, &mut bids, &mut evq, &mut oo, key(22), true, 1, 0, 7);
    assert_eq!(r, Err(OrdersError::BookFull));
}

#[test]
fn resting_side_grows_toward_its_ceiling() {
    let mut bids = Slab::init(true, 1);
    let mut asks = Slab::init(false, 1);
    let mut evq = EventQueue::new(4);
    bids.insert_order(50, 10, key(1), 1).unwrap();
    let mut oo = taker(key(2), 40, 10, 0);
    match_and_place(&mut asks, &mut bids, &mut evq, &mut oo, key(22), true, 8, 0, 7).unwrap();
    assert_eq!(bids.used_nodes(), 2);
    assert!(bids.capacity_nodes() > 1);
}

#[test]
fn cancel_removes_resting_entry() {
    let mut bids = Slab::init(true, 8);
    let mut asks = Slab::init(false, 8);
    let user = key(5);
    let oo_key = key(55);
    bids.insert_order(70, 10, oo_key, 1).unwrap();
    let mut oo = taker(user, 70, 10, 0);
    let removed = cancel_order(&mut bids, &mut asks, &mut oo, oo_key, user).unwrap();
    assert!(removed);
    assert!(!oo.active);
    assert_eq!(oo.locked_lamports, 0);
    assert_eq!(bids.used_nodes(), 0);
}

#[test]
fn cancel_of_consumed_order_still_succeeds() {
    // the resting entry was fully consumed earlier; cancel still unlocks
    let mut bids = Slab::init(true, 8);
    let mut asks = Slab::init(false, 8);
    let user = key(5);
    let mut oo = taker(user, 70, 10, 0);
    let removed = cancel_order(&mut bids, &mut asks, &mut oo, key(55), user).unwrap();
    assert!(!removed);
    assert!(!oo.active);
    assert_eq!(oo.locked_lamports, 0);
}

#[test]
fn cancel_rejects_inactive_and_foreign_orders() {
    let mut bids = Slab::init(true, 8);
    let mut asks = Slab::init(false, 8);
    let mut oo = taker(key(5), 70, 10, 0);
    oo.active = false;
    assert_eq!(
        cancel_order(&mut bids, &mut asks, &mut oo, key(55), key(5)),
        Err(OrdersError::NotActive)
    );
    oo.active = true;
    assert_eq!(
        cancel_order(&mut bids, &mut asks, &mut oo, key(55), key(6)),
        Err(OrdersError::Unauthorized)
    );
}
