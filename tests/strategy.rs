use exchain::analysis::Status;
use exchain::error::SignalError;
use exchain::execution::{Position, Strategy};

const REST: u128 = 1_000;
const HOLD: u128 = 5_000;

fn strategy() -> Strategy {
    Strategy::new(REST, HOLD, vec![("BTCUSD".to_string(), 10, 30), ("ETHUSD".to_string(), 1, 2)])
}

#[test]
fn first_sight_buy_is_sized_small() {
    let mut s = strategy();
    assert_eq!(s.execute(&Position::at(0, "BTCUSD", Status::Buy)), Ok(Some(10)));
}

#[test]
fn first_sight_quit_and_hold_are_sized_zero() {
    let mut s = strategy();
    assert_eq!(s.execute(&Position::at(0, "BTCUSD", Status::Quit)), Ok(Some(0)));
    assert_eq!(s.execute(&Position::at(0, "ETHUSD", Status::Hold)), Ok(Some(0)));
}

#[test]
fn same_event_twice_orders_once() {
    let mut s = strategy();
    let e = Position::at(100, "BTCUSD", Status::Buy);
    assert_eq!(s.execute(&e), Ok(Some(10)));
    assert_eq!(s.execute(&e), Ok(None));
    let q = Position::at(9_000, "BTCUSD", Status::Quit);
    assert_eq!(s.execute(&q), Ok(Some(0)));
    assert_eq!(s.execute(&q), Ok(None));
}

#[test]
fn rest_period_admits_only_the_first_of_two() {
    let mut s = strategy();
    assert_eq!(s.execute(&Position::at(0, "BTCUSD", Status::Quit)), Ok(Some(0)));
    assert_eq!(s.execute(&Position::at(REST - 1, "BTCUSD", Status::Buy)), Ok(None));
    assert_eq!(s.execute(&Position::at(REST, "BTCUSD", Status::Buy)), Ok(Some(10)));
}

#[test]
fn earlier_timestamp_is_never_admitted() {
    let mut s = Strategy::new(0, HOLD, vec![("BTCUSD".to_string(), 10, 30)]);
    assert_eq!(s.execute(&Position::at(50, "BTCUSD", Status::Quit)), Ok(Some(0)));
    assert_eq!(s.execute(&Position::at(40, "BTCUSD", Status::Buy)), Ok(None));
    assert_eq!(s.execute(&Position::at(50, "BTCUSD", Status::Buy)), Ok(Some(10)));
}

#[test]
fn buy_after_long_quit_is_sized_big() {
    let mut s = strategy();
    assert_eq!(s.execute(&Position::at(0, "BTCUSD", Status::Quit)), Ok(Some(0)));
    assert_eq!(s.execute(&Position::at(HOLD + 1, "BTCUSD", Status::Buy)), Ok(Some(30)));
}

#[test]
fn buy_at_exactly_hold_period_is_sized_small() {
    let mut s = strategy();
    assert_eq!(s.execute(&Position::at(0, "BTCUSD", Status::Quit)), Ok(Some(0)));
    assert_eq!(s.execute(&Position::at(HOLD, "BTCUSD", Status::Buy)), Ok(Some(10)));
}

#[test]
fn quit_after_buy_is_sized_zero() {
    let mut s = strategy();
    assert_eq!(s.execute(&Position::at(0, "BTCUSD", Status::Buy)), Ok(Some(10)));
    assert_eq!(s.execute(&Position::at(HOLD * 10, "BTCUSD", Status::Quit)), Ok(Some(0)));
}

#[test]
fn hold_after_a_record_is_a_no_op() {
    let mut s = strategy();
    assert_eq!(s.execute(&Position::at(0, "BTCUSD", Status::Quit)), Ok(Some(0)));
    assert_eq!(s.execute(&Position::at(HOLD * 10, "BTCUSD", Status::Hold)), Ok(None));
    // the Hold did not replace the Quit record: the Buy is measured from time 0
    assert_eq!(s.execute(&Position::at(HOLD * 10, "BTCUSD", Status::Buy)), Ok(Some(30)));
}

#[test]
fn pairs_are_independent() {
    let mut s = strategy();
    assert_eq!(s.execute(&Position::at(0, "BTCUSD", Status::Buy)), Ok(Some(10)));
    assert_eq!(s.execute(&Position::at(0, "ETHUSD", Status::Buy)), Ok(Some(1)));
}

#[test]
fn unknown_pair_is_an_error() {
    let mut s = strategy();
    assert_eq!(
        s.execute(&Position::at(0, "XRPUSD", Status::Buy)),
        Err(SignalError::UnknownPair("XRPUSD".to_string()))
    );
    // the failed call left no record behind
    assert_eq!(
        s.execute(&Position::at(0, "XRPUSD", Status::Quit)),
        Err(SignalError::UnknownPair("XRPUSD".to_string()))
    );
}

#[test]
fn later_amounts_for_a_pair_win() {
    let mut s = Strategy::new(
        REST,
        HOLD,
        vec![("BTCUSD".to_string(), 10, 30), ("BTCUSD".to_string(), 7, 9)],
    );
    assert_eq!(s.execute(&Position::at(0, "BTCUSD", Status::Buy)), Ok(Some(7)));
}

#[test]
fn position_accessors() {
    let p = Position::at(42, "BTCUSD", Status::Hold);
    assert_eq!(p.timestamp(), 42);
    assert_eq!(p.pair(), "BTCUSD");
    assert_eq!(p.status(), Status::Hold);
    let now = Position::new("ETHUSD", Status::Buy);
    assert_eq!(now.pair(), "ETHUSD");
    assert_eq!(now.status(), Status::Buy);
    assert!(now.timestamp() > 1_600_000_000_000);
}

#[test]
fn stamped_uses_the_clock_reading() {
    let p = Position::stamped(Some(1_700_000_000_123), "BTCUSD", Status::Quit);
    assert_eq!(p.timestamp(), 1_700_000_000_123);
    assert_eq!(p.pair(), "BTCUSD");
    assert_eq!(p.status(), Status::Quit);
    let before_epoch = Position::stamped(None, "ETHUSD", Status::Buy);
    assert_eq!(before_epoch.timestamp(), 0);
    assert_eq!(before_epoch.pair(), "ETHUSD");
}
