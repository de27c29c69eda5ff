use kerdos_markets::engine::BinaryClobEngine;
use kerdos_markets::engine::MatchingEngine;

#[test]
fn ticks_ok() {
    let e = BinaryClobEngine;
    assert!(e.validate_tick(1, 1).is_ok());
    assert!(e.validate_tick(10, 5).is_ok());
}

#[test]
fn ticks_err() {
    let e = BinaryClobEngine;
    assert!(e.validate_tick(0, 1).is_err());
    assert!(e.validate_tick(1, 0).is_err());
}

#[test]
fn min_qty_ok_err() {
    let e = BinaryClobEngine;
    assert!(e.validate_min_qty(10, 10).is_ok());
    assert!(e.validate_min_qty(10, 11).is_ok());
    assert!(e.validate_min_qty(10, 9).is_err());
}
