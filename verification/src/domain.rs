use vstd::prelude::*;
use crate::state::Key;

verus! {

/// Marker type for instructions that carry no data.
pub struct Empty {}

/// Parameters for creating a market.
#[derive(Clone, Copy)]
pub struct InitParams {
    pub base_mint: Key,
    pub quote_mint: Key,
    pub bids_capacity: u32,
    pub asks_capacity: u32,
    pub event_queue_capacity: u32,
    pub tick_size: u64,
    pub min_base_qty: u64,
    pub fees_bps: u16,
}

/// A preset market sizing and rule profile.
#[derive(Clone, Copy, PartialEq, Eq, Structural, Debug)]
pub struct Profile {
    pub bids_capacity: u32,
    pub asks_capacity: u32,
    pub event_queue_capacity: u32,
    pub tick_size: u64,
    pub min_base_qty: u64,
    pub fees_bps: u16,
}

/// Parameters for growing one of a market's byte regions.
#[derive(Clone, Copy, PartialEq, Eq, Structural, Debug)]
pub struct GrowParams {
    pub which: u8,
    pub step_bytes: u32,
}

/// Which collection a byte region holds.
#[derive(Clone, Copy, PartialEq, Eq, Structural, Debug)]
pub enum BlobKind {
    Bids,
    Asks,
    EventQueue,
}

/// The tag byte written into a region's header for each kind.
pub fn kind_tag(kind: BlobKind) -> (r: u8)
    ensures
        r == kind_tag_spec(kind),
{
    match kind {
        BlobKind::Bids => 1,
        BlobKind::Asks => 2,
        BlobKind::EventQueue => 3,
    }
}

pub open spec fn kind_tag_spec(kind: BlobKind) -> u8 {
    match kind {
        BlobKind::Bids => 1u8,
        BlobKind::Asks => 2u8,
        BlobKind::EventQueue => 3u8,
    }
}

/// The light preset: small books, coarse ticks.
pub fn lite_profile() -> (p: Profile)
    ensures
        p == (Profile {
            bids_capacity: 1024u32,
            asks_capacity: 1024u32,
            event_queue_capacity: 512u32,
            tick_size: 10_000u64,
            min_base_qty: 100u64,
            fees_bps: 10u16,
        }),
{
    Profile {
        bids_capacity: 1024,
        asks_capacity: 1024,
        event_queue_capacity: 512,
        tick_size: 10_000,
        min_base_qty: 100,
        fees_bps: 10,
    }
}

/// The standard preset.
pub fn standard_profile() -> (p: Profile)
    ensures
        p == (Profile {
            bids_capacity: 4096u32,
            asks_capacity: 4096u32,
            event_queue_capacity: 2048u32,
            tick_size: 1_000u64,
            min_base_qty: 50u64,
            fees_bps: 10u16,
        }),
{
    Profile {
        bids_capacity: 4096,
        asks_capacity: 4096,
        event_queue_capacity: 2048,
        tick_size: 1_000,
        min_base_qty: 50,
        fees_bps: 10,
    }
}

/// The deep preset: large books, fine ticks.
pub fn deep_profile() -> (p: Profile)
    ensures
        p == (Profile {
            bids_capacity: 8192u32,
            asks_capacity: 8192u32,
            event_queue_capacity: 4096u32,
            tick_size: 100u64,
            min_base_qty: 10u64,
            fees_bps: 8u16,
        }),
{
    Profile {
        bids_capacity: 8192,
        asks_capacity: 8192,
        event_queue_capacity: 4096,
        tick_size: 100,
        min_base_qty: 10,
        fees_bps: 8,
    }
}

/// Bytes of a market account, discriminator included.
pub const DISCRIMINATOR: usize = 8;

pub const MARKET_HEADER: usize = 8 + 32 + 32 + 32 + 32 + 32 + 8 + 8 + 2 + 1 + 1 + 1 + 1 + 4 + 4
    + 4 + 1;

pub const BLOB_HEADER: usize = 4 + 1 + 4 + 4;

pub const SLAB_HEADER: usize = 24;

pub const SLAB_NODE: usize = 80;

pub const EVENT_EST: usize = 48;

/// Bytes needed for the market account itself.
pub fn market_space() -> (r: usize)
    ensures
        r == DISCRIMINATOR + MARKET_HEADER,
{
    DISCRIMINATOR + MARKET_HEADER
}

/// Bytes needed for a bid-side region of the given capacity.
pub fn bids_space(capacity: u32) -> (r: usize)
    requires
        BLOB_HEADER + SLAB_HEADER + capacity as int * SLAB_NODE <= usize::MAX as int,
    ensures
        r == BLOB_HEADER + SLAB_HEADER + capacity as int * SLAB_NODE,
{
    BLOB_HEADER + SLAB_HEADER + (capacity as usize) * SLAB_NODE
}

/// Bytes needed for an ask-side region of the given capacity.
pub fn asks_space(capacity: u32) -> (r: usize)
    requires
        BLOB_HEADER + SLAB_HEADER + capacity as int * SLAB_NODE <= usize::MAX as int,
    ensures
        r == BLOB_HEADER + SLAB_HEADER + capacity as int * SLAB_NODE,
{
    BLOB_HEADER + SLAB_HEADER + (capacity as usize) * SLAB_NODE
}

/// Bytes needed for an event-queue region of the given capacity.
pub fn eventq_space(capacity: u32) -> (r: usize)
    requires
        BLOB_HEADER + capacity as int * EVENT_EST <= usize::MAX as int,
    ensures
        r == BLOB_HEADER + capacity as int * EVENT_EST,
{
    BLOB_HEADER + (capacity as usize) * EVENT_EST
}

/// Bytes needed for a whole market: account, both sides, event queue.
pub fn total_market_space(bids_cap: u32, asks_cap: u32, evq_cap: u32) -> (r: usize)
    requires
        DISCRIMINATOR + MARKET_HEADER + 2 * (BLOB_HEADER + SLAB_HEADER) + bids_cap as int
            * SLAB_NODE + asks_cap as int * SLAB_NODE + BLOB_HEADER + evq_cap as int * EVENT_EST
            <= usize::MAX as int,
    ensures
        r == DISCRIMINATOR + MARKET_HEADER + 2 * (BLOB_HEADER + SLAB_HEADER) + bids_cap as int
            * SLAB_NODE + asks_cap as int * SLAB_NODE + BLOB_HEADER + evq_cap as int * EVENT_EST,
{
    market_space() + bids_space(bids_cap) + asks_space(asks_cap) + eventq_space(evq_cap)
}

} // verus!
