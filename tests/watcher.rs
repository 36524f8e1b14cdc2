use exchain::analysis::{Candle, MacdAnalyzer, Status};
use exchain::error::SignalError;
use exchain::execution::{Strategy, Watcher};

fn candles(closes: &[u64]) -> Vec<Candle> {
    closes
        .iter()
        .enumerate()
        .map(|(i, c)| Candle::new(i as u128 * 60_000, *c, *c, *c, *c, 1))
        .collect()
}

fn watcher() -> Watcher<&'static str, u32> {
    Watcher::new(MacdAnalyzer::default())
}

/// 33 closes falling ever faster, then 7 rising in equal steps.
fn turn_series() -> Vec<u64> {
    let mut p: Vec<u64> = (0..33u64).map(|i| 10_000 - i * i).collect();
    let bottom = *p.last().unwrap();
    p.extend((1..=7u64).map(|i| bottom + 40 * i));
    p
}

/// Runs the watcher over every prefix of `closes` that can be classified,
/// one minute apart, and returns the Buy orders the strategy produced.
fn run(closes: &[u64], rest: u128, hold: u128) -> Vec<u64> {
    let w = watcher();
    let mut s = Strategy::new(rest, hold, vec![("BTCUSD".to_string(), 10, 30)]);
    let all = candles(closes);
    let mut buys = Vec::new();
    for k in 37..=all.len() {
        let e = w.evaluate_at("BTCUSD", &all[..k], k as u128 * 60_000).unwrap();
        if let Some(amount) = s.execute(&e).unwrap() {
            if e.status() == Status::Buy {
                buys.push(amount);
            }
        }
    }
    buys
}

#[test]
fn end_to_end_one_buy_sized_small_within_hold() {
    assert_eq!(run(&turn_series(), 30_000, 120_000), vec![10]);
}

#[test]
fn end_to_end_one_buy_sized_big_after_hold() {
    assert_eq!(run(&turn_series(), 30_000, 30_000), vec![30]);
}

#[test]
fn end_to_end_statuses_around_the_turn() {
    let w = watcher();
    let all = candles(&turn_series());
    let seen: Vec<Status> =
        (37..=40).map(|k| w.evaluate_at("BTCUSD", &all[..k], 0).unwrap().status()).collect();
    assert_eq!(seen, vec![Status::Quit, Status::Buy, Status::Hold, Status::Hold]);
}

#[test]
fn evaluate_stamps_pair_and_status() {
    let w = watcher();
    let all = candles(&turn_series());
    let e = w.evaluate_at("ETHUSD", &all[..38], 77).unwrap();
    assert_eq!(e.timestamp(), 77);
    assert_eq!(e.pair(), "ETHUSD");
    assert_eq!(e.status(), Status::Buy);
    let now = w.evaluate("ETHUSD", &all[..38]).unwrap();
    assert_eq!(now.status(), Status::Buy);
    assert_eq!(w.evaluate("ETHUSD", &all[..36]).err(), Some(SignalError::InsufficientData));
    assert_eq!(w.evaluate_at("ETHUSD", &all[..36], 1).err(), Some(SignalError::InsufficientData));
}

#[test]
fn duplicate_key_is_refused() {
    let mut w = watcher();
    assert_eq!(w.add("bitfinex", "a", vec!["BTCUSD".to_string()], vec![1]), Ok(()));
    assert_eq!(
        w.add("bitfinex", "b", vec![], vec![]),
        Err(SignalError::DuplicateKey("bitfinex".to_string()))
    );
    assert_eq!(*w.fetcher(0), "a");
}

#[test]
fn unknown_key_is_refused() {
    let mut w = watcher();
    assert_eq!(
        w.add_pair("kraken", "BTCUSD"),
        Err(SignalError::UnknownKey("kraken".to_string()))
    );
    assert_eq!(w.add_executor("kraken", 3), Err(SignalError::UnknownKey("kraken".to_string())));
    assert!(w.jobs().is_empty());
}

#[test]
fn jobs_follow_registration_order() {
    let mut w = watcher();
    assert_eq!(w.add("bitfinex", "a", vec!["BTCUSD".to_string()], vec![]), Ok(()));
    assert_eq!(w.add("kraken", "b", vec!["XRPUSD".to_string()], vec![7]), Ok(()));
    assert_eq!(w.add_pair("bitfinex", "ETHUSD"), Ok(()));
    assert_eq!(w.add_executor("bitfinex", 5), Ok(()));
    assert_eq!(w.add_executor("bitfinex", 6), Ok(()));
    assert_eq!(
        w.jobs(),
        vec![
            (0, "BTCUSD".to_string()),
            (0, "ETHUSD".to_string()),
            (1, "XRPUSD".to_string())
        ]
    );
    assert_eq!(*w.executors(0), vec![5, 6]);
    assert_eq!(*w.executors(1), vec![7]);
    assert_eq!(*w.fetcher(1), "b");
}

#[test]
fn registration_keeps_fetchers_and_executors() {
    let mut w = watcher();
    assert_eq!(w.add("bitfinex", "a", vec![], vec![1, 2]), Ok(()));
    assert_eq!(w.add("kraken", "b", vec![], vec![]), Ok(()));
    assert_eq!(w.add_pair("kraken", "XRPUSD"), Ok(()));
    assert_eq!(w.add_executor("kraken", 9), Ok(()));
    assert_eq!(*w.fetcher(0), "a");
    assert_eq!(*w.fetcher(1), "b");
    assert_eq!(*w.executors(0), vec![1, 2]);
    assert_eq!(*w.executors(1), vec![9]);
}
