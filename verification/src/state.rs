use vstd::prelude::*;

verus! {

/// Magic tag carried by every byte region's header.
pub const BLOB_MAGIC: u32 = 0x4B_45_52_44;

/// A 32-byte account or order identifier, held as four 64-bit words.
/// The byte codec lays it out as 32 consecutive bytes, least-significant
/// word first, each word little-endian.
#[derive(Clone, Copy, PartialEq, Eq, Structural, Debug)]
pub struct Key {
    pub w0: u64,
    pub w1: u64,
    pub w2: u64,
    pub w3: u64,
}

impl Key {
    /// A key that is all zero bytes.
    pub fn zero() -> (r: Key)
        ensures
            r == (Key { w0: 0u64, w1: 0u64, w2: 0u64, w3: 0u64 }),
    {
        Key { w0: 0, w1: 0, w2: 0, w3: 0 }
    }
}

/// Header that opens every byte region: magic, kind tag, declared logical
/// capacity and a used-element counter.
#[derive(Clone, Copy, PartialEq, Eq, Structural, Debug)]
pub struct Blob {
    pub magic: u32,
    pub kind: u8,
    pub capacity: u32,
    pub used: u32,
}

/// Encoded size of a `Blob` header in bytes.
pub const BLOB_LEN: usize = 4 + 1 + 4 + 4;

/// One resting order as it appears when handed out of the book.
#[derive(Clone, Copy, PartialEq, Eq, Structural, Debug)]
pub struct OrderEntry {
    pub oo: Key,
    pub price_ticks: u64,
    pub base_qty: u64,
    pub ts: u64,
    pub flags: u8,
}

/// Immutable record of one trade, appended by the matching engine and
/// consumed exactly once by settlement.
#[derive(Clone, Copy, PartialEq, Eq, Structural, Debug)]
pub struct FillEvent {
    pub maker_oo: Key,
    pub taker_oo: Key,
    pub base_qty: u64,
    pub price_ticks: u32,
    pub taker_side: u8,
}

/// Per-market configuration and bookkeeping record.
#[derive(Clone, Copy, PartialEq, Eq, Structural, Debug)]
pub struct Market {
    pub authority: Key,
    pub base_mint: Key,
    pub quote_mint: Key,
    pub bids: Key,
    pub asks: Key,
    pub event_queue: Key,
    pub tick_size: u64,
    pub min_base_qty: u64,
    pub fees_bps: u16,
    pub paused: bool,
    pub bump_market: u8,
    pub bump_bids: u8,
    pub bump_asks: u8,
    pub bump_eventq: u8,
    pub bids_capacity: u32,
    pub asks_capacity: u32,
    pub eventq_capacity: u32,
    pub fees_accrued: u64,
}

/// One user's open-order record: owner, market, locked collateral,
/// resting price and remaining quantity, side and activity flag.
#[derive(Clone, Copy, PartialEq, Eq, Structural, Debug)]
pub struct OpenOrdersLite {
    pub user: Key,
    pub market: Key,
    pub locked_lamports: u64,
    pub price_ticks: u64,
    pub base_qty: u64,
    pub side: u8,
    pub active: bool,
    pub bump: u8,
}

/// One user's free balances on a market.
#[derive(Clone, Copy, PartialEq, Eq, Structural, Debug)]
pub struct UserBalance {
    pub market: Key,
    pub user: Key,
    pub base_free: u64,
    pub quote_free: u64,
    pub bump: u8,
}

} // verus!
