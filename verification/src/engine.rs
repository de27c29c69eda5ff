use vstd::prelude::*;

verus! {

/// Rejections raised by the matching engine's market-rule checks.
#[derive(Clone, Copy, PartialEq, Eq, Structural, Debug)]
pub enum KerdosError {
    InvalidTick,
    TooSmallQty,
}

/// The market-rule checks every order placement must pass.
pub trait MatchingEngine {
    /// Accepts exactly the positive tick sizes and positive prices.
    fn validate_tick(&self, tick_size: u64, price_ticks: u64) -> (r: Result<(), KerdosError>)
        ensures
            r is Ok <==> (tick_size > 0 && price_ticks > 0),
            r is Err ==> r == Err::<(), KerdosError>(KerdosError::InvalidTick),
    ;

    /// Accepts exactly the quantities that meet the market's minimum.
    fn validate_min_qty(&self, min_base_qty: u64, base_qty: u64) -> (r: Result<(), KerdosError>)
        ensures
            r is Ok <==> base_qty >= min_base_qty,
            r is Err ==> r == Err::<(), KerdosError>(KerdosError::TooSmallQty),
    ;
}

/// The engine used for every market: plain threshold checks.
pub struct BinaryClobEngine;

impl MatchingEngine for BinaryClobEngine {
    fn validate_tick(&self, tick_size: u64, price_ticks: u64) -> (r: Result<(), KerdosError>) {
        if tick_size > 0 && price_ticks > 0 {
            Ok(())
        } else {
            Err(KerdosError::InvalidTick)
        }
    }

    fn validate_min_qty(&self, min_base_qty: u64, base_qty: u64) -> (r: Result<(), KerdosError>) {
        if base_qty >= min_base_qty {
            Ok(())
        } else {
            Err(KerdosError::TooSmallQty)
        }
    }
}

} // verus!
