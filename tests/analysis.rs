use exchain::analysis::{BitfinexFetcher, Candle, MacdAnalyzer, Status};
use exchain::arith::{ema_step, floor_div};
use exchain::error::SignalError;

fn candles(closes: &[u64]) -> Vec<Candle> {
    closes
        .iter()
        .enumerate()
        .map(|(i, c)| Candle::new(i as u128 * 60_000, *c, *c, *c, *c, 1))
        .collect()
}

fn crossover_series() -> Vec<u64> {
    let mut p: Vec<u64> = (0..40u64).map(|i| 1000 + i * i / 2).collect();
    let top = *p.last().unwrap();
    p.extend((1..=15u64).map(|i| top - i * i));
    let bottom = *p.last().unwrap();
    p.extend((1..=15u64).map(|i| bottom + 30 * i));
    p
}

#[test]
fn floor_div_rounds_toward_negative_infinity() {
    assert_eq!(floor_div(7, 0, 2), 3);
    assert_eq!(floor_div(0, 7, 2), -4);
    assert_eq!(floor_div(0, 8, 2), -4);
    assert_eq!(floor_div(9, 2, 7), 1);
    assert_eq!(floor_div(0, 0, 5), 0);
}

#[test]
fn ema_step_moves_toward_the_value() {
    assert_eq!(ema_step(10, 20, 3), 15);
    assert_eq!(ema_step(20, 10, 3), 15);
    assert_eq!(ema_step(0, -1, 2), -1);
    assert_eq!(ema_step(0, -3, 1), -3);
    assert_eq!(ema_step(7, 7, 12), 7);
}

#[test]
fn analyze_detects_buy_on_the_crossing_step() {
    let a = MacdAnalyzer::new(1, 3, 2);
    assert_eq!(a.analyze(&candles(&[10, 20, 30, 20, 10, 5, 30])), Ok(Status::Buy));
}

#[test]
fn analyze_reports_hold_above_the_signal() {
    let a = MacdAnalyzer::new(1, 3, 2);
    assert_eq!(a.analyze(&candles(&[50, 40, 30, 20, 10, 40, 90])), Ok(Status::Hold));
    assert_eq!(a.analyze(&candles(&[30, 20, 10, 20, 30, 50, 80])), Ok(Status::Hold));
}

#[test]
fn analyze_reports_quit_at_or_below_the_signal() {
    let a = MacdAnalyzer::new(1, 3, 2);
    assert_eq!(a.analyze(&candles(&[10, 10, 10, 10, 10, 10, 10])), Ok(Status::Quit));
    assert_eq!(a.analyze(&candles(&[100, 90, 80, 70, 60, 50, 40])), Ok(Status::Quit));
}

#[test]
fn analyze_needs_two_histogram_points() {
    let a = MacdAnalyzer::new(1, 3, 2);
    assert_eq!(
        a.analyze(&candles(&[10, 20, 30, 20, 10, 5])),
        Err(SignalError::InsufficientData)
    );
    assert_eq!(a.analyze(&candles(&[])), Err(SignalError::InsufficientData));
    assert_eq!(a.analyze(&candles(&[1, 2])), Err(SignalError::InsufficientData));
    let d = MacdAnalyzer::default();
    assert_eq!(d.analyze(&candles(&[5; 36])), Err(SignalError::InsufficientData));
    assert_eq!(d.analyze(&candles(&[5; 37])), Ok(Status::Quit));
}

#[test]
fn analyze_handles_extreme_prices() {
    let a = MacdAnalyzer::new(1, 3, 2);
    let m = u64::MAX;
    assert_eq!(a.analyze(&candles(&[m, m, m, m, m, m, m])), Ok(Status::Quit));
    assert_eq!(a.analyze(&candles(&[m, m, m, m, m, 0, m])), Ok(Status::Buy));
}

#[test]
fn crossover_is_buy_at_and_only_at_the_crossing_index() {
    let p = crossover_series();
    let a = MacdAnalyzer::default();
    let all = candles(&p);
    let mut seen = Vec::new();
    for k in 37..=p.len() {
        seen.push(a.analyze(&all[..k]).unwrap());
    }
    let mut expected = vec![Status::Hold; 9];
    expected.extend(vec![Status::Quit; 17]);
    expected.push(Status::Buy);
    expected.extend(vec![Status::Hold; 7]);
    assert_eq!(seen, expected);
    assert_eq!(a.analyze(&all[..63]), Ok(Status::Buy));
}

#[test]
fn get_price_is_the_close() {
    let c = Candle::new(1, 2, 3, 4, 5, 6);
    assert_eq!(c.get_price(), 3);
    assert_eq!(c.timestamp, 1);
    assert_eq!(c.volume, 6);
}

#[test]
fn status_labels() {
    assert_eq!(Status::Buy.label(), "Buy");
    assert_eq!(Status::Hold.label(), "Hold");
    assert_eq!(Status::Quit.label(), "Quit");
}

#[test]
fn fetcher_settings_and_order() {
    let f = BitfinexFetcher::new("1h", 120);
    assert_eq!(f.time_frame(), "1h");
    assert_eq!(f.limit(), 120);
    let newest_first = candles(&[3, 2, 1]);
    let oldest_first = BitfinexFetcher::oldest_first(newest_first);
    let closes: Vec<u64> = oldest_first.iter().map(|c| c.get_price()).collect();
    assert_eq!(closes, vec![1, 2, 3]);
    assert!(BitfinexFetcher::oldest_first(Vec::new()).is_empty());
}
