//! Candles and the MACD crossover classifier.
use crate::arith::{
    ema_next, ema_step, floor_div, lemma_mean_bounds, mean_range, sum_range, PRICE_MAX,
};
use crate::error::SignalError;
use vstd::prelude::*;

verus! {

/// One OHLCV observation; prices and volume are fixed-point integers.
#[derive(Clone, Copy, Debug, PartialEq, Eq)]
pub struct Candle {
    pub timestamp: u128,
    pub open: u64,
    pub close: u64,
    pub high: u64,
    pub low: u64,
    pub volume: u64,
}

impl Candle {
    pub fn new(timestamp: u128, open: u64, close: u64, high: u64, low: u64, volume: u64) -> (r:
        Self)
        ensures
            r == (Candle { timestamp, open, close, high, low, volume }),
    {
        Candle { timestamp, open, close, high, low, volume }
    }

    /// The price the indicator reads: the close.
    pub fn get_price(&self) -> (r: u64)
        ensures
            r == self.close,
    {
        self.close
    }
}

/// The classification of one analysis pass.
#[derive(Clone, Copy, Debug, PartialEq, Eq, Structural)]
pub enum Status {
    Buy,
    Hold,
    Quit,
}

impl Status {
    /// The status as a word.
    pub fn label(&self) -> (r: &'static str)
        ensures
            r@ == status_label(*self),
    {
        match self {
            Status::Buy => "Buy",
            Status::Hold => "Hold",
            Status::Quit => "Quit",
        }
    }
}

/// The word `label` gives for a status.
pub open spec fn status_label(s: Status) -> Seq<char> {
    match s {
        Status::Buy => "Buy"@,
        Status::Hold => "Hold"@,
        Status::Quit => "Quit"@,
    }
}

/// Settings of the exchange candle endpoint: time frame and number of candles.
pub struct BitfinexFetcher {
    time_frame: String,
    limit: usize,
}

impl BitfinexFetcher {
    pub closed spec fn spec_time_frame(&self) -> Seq<char> {
        self.time_frame@
    }

    pub closed spec fn spec_limit(&self) -> nat {
        self.limit as nat
    }

    pub fn new(time_frame: &str, limit: usize) -> (r: Self)
        ensures
            r.spec_time_frame() == time_frame@,
            r.spec_limit() == limit,
    {
        BitfinexFetcher { time_frame: time_frame.to_owned(), limit }
    }

    pub fn time_frame(&self) -> (r: &str)
        ensures
            r@ == self.spec_time_frame(),
    {
        self.time_frame.as_str()
    }

    pub fn limit(&self) -> (r: usize)
        ensures
            r == self.spec_limit(),
    {
        self.limit
    }

    /// The endpoint lists candles newest first; the indicator wants them oldest first.
    pub fn oldest_first(newest_first: Vec<Candle>) -> (r: Vec<Candle>)
        ensures
            r@ == newest_first@.reverse(),
    {
        let mut r: Vec<Candle> = Vec::new();
        let n = newest_first.len();
        let mut i: usize = n;
        while i > 0
            invariant
                i <= n == newest_first@.len(),
                r@ == newest_first@.subrange(i as int, n as int).reverse(),
            decreases i,
        {
            i = i - 1;
            r.push(newest_first[i]);
            assert(r@ =~= newest_first@.subrange(i as int, n as int).reverse());
        }
        assert(newest_first@.subrange(0, n as int) =~= newest_first@);
        r
    }
}


/// The closes of a candle sequence, as integers.
pub open spec fn closes(candles: Seq<Candle>) -> Seq<int> {
    candles.map_values(|c: Candle| c.close as int)
}

/// A moving average over `s`, seeded at index `seed_hi - 1` with the mean of
/// `s[seed_lo..seed_hi]` and advanced one step per later value; its value at index `i`.
pub open spec fn ema_at(s: Seq<int>, period: int, seed_lo: int, seed_hi: int, i: int) -> int
    decreases i - seed_hi + 1,
{
    if i < seed_hi {
        mean_range(s, seed_lo, seed_hi)
    } else {
        ema_next(ema_at(s, period, seed_lo, seed_hi, i - 1), s[i], period)
    }
}

/// The MACD line: fast minus slow average, one value per price from index `slow` on.
pub open spec fn macd_line(p: Seq<int>, fast: int, slow: int) -> Seq<int> {
    if p.len() < slow {
        Seq::empty()
    } else {
        Seq::new(
            (p.len() - slow) as nat,
            |j: int| ema_at(p, fast, fast - 1, slow, slow + j) - ema_at(p, slow, 0, slow, slow + j),
        )
    }
}

/// The histogram: pairs (macd, signal) for each MACD value after the signal seed.
pub open spec fn histogram(p: Seq<int>, fast: int, slow: int, signal: int) -> Seq<(int, int)> {
    let m = macd_line(p, fast, slow);
    if m.len() < signal {
        Seq::empty()
    } else {
        Seq::new(
            (m.len() - signal) as nat,
            |k: int| (m[signal + k], ema_at(m, signal, 0, signal, signal + k)),
        )
    }
}

/// The two-point crossover rule on the last two differences macd - signal.
pub open spec fn classify(d_last: int, d_prev: int) -> Status {
    if d_last <= 0 {
        Status::Quit
    } else if d_prev <= 0 {
        Status::Buy
    } else {
        Status::Hold
    }
}

/// Whether `n` prices give at least two histogram points.
pub open spec fn enough_prices(n: int, slow: int, signal: int) -> bool {
    n >= slow + signal + 2
}

/// The status of the last histogram point of the price series `p`.
pub open spec fn macd_status(p: Seq<int>, fast: int, slow: int, signal: int) -> Status {
    let h = histogram(p, fast, slow, signal);
    classify(h[h.len() - 1].0 - h[h.len() - 1].1, h[h.len() - 2].0 - h[h.len() - 2].1)
}

/// The gap macd - signal at price index `i` of the series `p` (for `i >= slow + signal`).
pub open spec fn macd_gap(p: Seq<int>, fast: int, slow: int, signal: int, i: int) -> int {
    let m = macd_line(p, fast, slow);
    m[i - slow] - ema_at(m, signal, 0, signal, i - slow)
}

proof fn lemma_sum_prefix(s: Seq<int>, lo: int, hi: int, k: int)
    requires
        0 <= lo,
        hi <= k <= s.len(),
    ensures
        sum_range(s.take(k), lo, hi) == sum_range(s, lo, hi),
    decreases hi - lo,
{
    if hi > lo {
        lemma_sum_prefix(s, lo, hi - 1, k);
    }
}

/// A moving average at index `i` depends only on the values up to `i`.
proof fn lemma_ema_prefix(s: Seq<int>, period: int, lo: int, hi: int, i: int, k: int)
    requires
        0 <= lo < hi <= k <= s.len(),
        i < k,
    ensures
        ema_at(s.take(k), period, lo, hi, i) == ema_at(s, period, lo, hi, i),
    decreases i - hi + 1,
{
    if i < hi {
        lemma_sum_prefix(s, lo, hi, k);
    } else {
        lemma_ema_prefix(s, period, lo, hi, i - 1, k);
    }
}

/// The MACD line of the first `k` prices is the first `k - slow` values of the whole line.
proof fn lemma_macd_line_prefix(p: Seq<int>, fast: int, slow: int, k: int)
    requires
        1 <= fast < slow <= k <= p.len(),
    ensures
        macd_line(p.take(k), fast, slow) == macd_line(p, fast, slow).take(k - slow),
{
    let a = macd_line(p.take(k), fast, slow);
    let b = macd_line(p, fast, slow).take(k - slow);
    assert forall|j: int| 0 <= j < k - slow implies #[trigger] a[j] == b[j] by {
        lemma_ema_prefix(p, fast, fast - 1, slow, slow + j, k);
        lemma_ema_prefix(p, slow, 0, slow, slow + j, k);
    }
    assert(a =~= b);
}

/// Classifying the first `k` prices of a series applies the crossover rule to
/// the gaps macd - signal at price indices `k - 1` and `k - 2` of the whole
/// series: Buy exactly where the gap turns positive, Hold where it stays
/// positive, Quit wherever it is zero or negative.
pub proof fn lemma_status_of_prefix(p: Seq<int>, fast: int, slow: int, signal: int, k: int)
    requires
        1 <= fast < slow,
        signal >= 1,
        enough_prices(k, slow, signal),
        k <= p.len(),
    ensures
        macd_status(p.take(k), fast, slow, signal) == classify(
            macd_gap(p, fast, slow, signal, k - 1),
            macd_gap(p, fast, slow, signal, k - 2),
        ),
        macd_status(p.take(k), fast, slow, signal) == Status::Buy <==> macd_gap(
            p,
            fast,
            slow,
            signal,
            k - 1,
        ) > 0 && macd_gap(p, fast, slow, signal, k - 2) <= 0,
        macd_status(p.take(k), fast, slow, signal) == Status::Hold <==> macd_gap(
            p,
            fast,
            slow,
            signal,
            k - 1,
        ) > 0 && macd_gap(p, fast, slow, signal, k - 2) > 0,
        macd_status(p.take(k), fast, slow, signal) == Status::Quit <==> macd_gap(
            p,
            fast,
            slow,
            signal,
            k - 1,
        ) <= 0,
{
    let m = macd_line(p, fast, slow);
    let mk = macd_line(p.take(k), fast, slow);
    lemma_macd_line_prefix(p, fast, slow, k);
    assert(mk.len() == k - slow);
    lemma_ema_prefix(m, signal, 0, signal, k - slow - 1, k - slow);
    lemma_ema_prefix(m, signal, 0, signal, k - slow - 2, k - slow);
    let h = histogram(p.take(k), fast, slow, signal);
    assert(h.len() == k - slow - signal);
    assert(h[h.len() - 1] == (mk[k - slow - 1], ema_at(mk, signal, 0, signal, k - slow - 1)));
    assert(h[h.len() - 2] == (mk[k - slow - 2], ema_at(mk, signal, 0, signal, k - slow - 2)));
}

/// A difference-of-moving-averages classifier over close prices.
pub struct MacdAnalyzer {
    fast_period: usize,
    slow_period: usize,
    signal_period: usize,
}

impl Default for MacdAnalyzer {
    /// The conventional periods 12, 26 and 9.
    fn default() -> (r: Self)
        ensures
            r.wf(),
            r.fast() == 12,
            r.slow() == 26,
            r.signal() == 9,
    {
        MacdAnalyzer::new(12, 26, 9)
    }
}

struct MacdHistogram {
    macd: i128,
    signal: i128,
}

impl MacdAnalyzer {
    pub closed spec fn fast(&self) -> int {
        self.fast_period as int
    }

    pub closed spec fn slow(&self) -> int {
        self.slow_period as int
    }

    pub closed spec fn signal(&self) -> int {
        self.signal_period as int
    }

    /// Valid periods: `1 <= fast < slow` and `signal >= 1`.
    pub open spec fn wf(&self) -> bool {
        1 <= self.fast() < self.slow() && self.signal() >= 1
    }

    /// Whether `n` candles are enough to classify.
    pub open spec fn enough(&self, n: int) -> bool {
        enough_prices(n, self.slow(), self.signal())
    }

    /// The status `analyze` reports for the close series `p`.
    pub open spec fn status_of(&self, p: Seq<int>) -> Status {
        macd_status(p, self.fast(), self.slow(), self.signal())
    }

    pub fn new(fast_period: usize, slow_period: usize, signal_period: usize) -> (r: Self)
        requires
            1 <= fast_period < slow_period,
            signal_period >= 1,
        ensures
            r.wf(),
            r.fast() == fast_period,
            r.slow() == slow_period,
            r.signal() == signal_period,
    {
        MacdAnalyzer { fast_period, slow_period, signal_period }
    }

    /// Mean of `prices[lo..hi]`, rounded down.
    fn window_mean(prices: &Vec<u64>, lo: usize, hi: usize) -> (r: i128)
        requires
            lo < hi <= prices@.len(),
        ensures
            r == mean_range(prices@.map_values(|x: u64| x as int), lo as int, hi as int),
            0 <= r <= PRICE_MAX,
    {
        let ghost ps = prices@.map_values(|x: u64| x as int);
        let mut total: u128 = 0;
        let mut i: usize = lo;
        while i < hi
            invariant
                lo <= i <= hi <= prices@.len(),
                ps == prices@.map_values(|x: u64| x as int),
                total == sum_range(ps, lo as int, i as int),
                total <= (i - lo) * (PRICE_MAX as int),
            decreases hi - i,
        {
            total = total + prices[i] as u128;
            i = i + 1;
        }
        let k: u128 = (hi - lo) as u128;
        proof {
            lemma_mean_bounds(total as int, k as int, 0, PRICE_MAX as int);
        }
        (total / k) as i128
    }

    /// Classifies the latest market state of `candles` (oldest first).
    pub fn analyze(&self, candles: &[Candle]) -> (r: Result<Status, SignalError>)
        requires
            self.wf(),
        ensures
            self.enough(candles@.len() as int) ==> r == Ok::<Status, SignalError>(
                self.status_of(closes(candles@)),
            ),
            !self.enough(candles@.len() as int) ==> r == Err::<Status, SignalError>(
                SignalError::InsufficientData,
            ),
    {
        let n = candles.len();
        if n < 2 || n - 2 < self.slow_period || n - 2 - self.slow_period < self.signal_period {
            return Err(SignalError::InsufficientData);
        }
        let mut prices: Vec<u64> = Vec::new();
        let mut i: usize = 0;
        while i < n
            invariant
                n == candles@.len(),
                i <= n,
                prices@.len() == i,
                forall|t: int| 0 <= t < i ==> #[trigger] prices@[t] == candles@[t].close,
            decreases n - i,
        {
            prices.push(candles[i].get_price());
            i = i + 1;
        }
        assert(prices@.map_values(|x: u64| x as int) =~= closes(candles@));
        let hist = self.calculate_histograms(&prices);
        let len = hist.len();
        let last = &hist[len - 1];
        let prev = &hist[len - 2];
        let d_last: i128 = last.macd - last.signal;
        let d_prev: i128 = prev.macd - prev.signal;
        if d_last <= 0 {
            Ok(Status::Quit)
        } else if d_prev <= 0 {
            Ok(Status::Buy)
        } else {
            Ok(Status::Hold)
        }
    }

    fn calculate_histograms(&self, prices: &Vec<u64>) -> (r: Vec<MacdHistogram>)
        requires
            self.wf(),
            prices@.len() >= self.slow() + self.signal(),
        ensures
            r@.len() == histogram(
                prices@.map_values(|x: u64| x as int),
                self.fast(),
                self.slow(),
                self.signal(),
            ).len(),
            forall|k: int|
                0 <= k < r@.len() ==> {
                    let h = histogram(
                        prices@.map_values(|x: u64| x as int),
                        self.fast(),
                        self.slow(),
                        self.signal(),
                    );
                    &&& (#[trigger] r@[k]).macd == h[k].0
                    &&& r@[k].signal == h[k].1
                    &&& -(PRICE_MAX as int) <= r@[k].macd <= PRICE_MAX
                    &&& -(PRICE_MAX as int) <= r@[k].signal <= PRICE_MAX
                },
    {
        let ghost ps = prices@.map_values(|x: u64| x as int);
        let ghost f = self.fast();
        let ghost sl = self.slow();
        let ghost g = self.signal();
        let ghost m = macd_line(ps, f, sl);
        let n = prices.len();
        let mut fast: i128 = Self::window_mean(prices, self.fast_period - 1, self.slow_period);
        let mut slow: i128 = Self::window_mean(prices, 0, self.slow_period);
        let mut macds: Vec<i128> = Vec::new();
        let mut i: usize = self.slow_period;
        while i < n
            invariant
                self.wf(),
                f == self.fast(),
                sl == self.slow(),
                n == prices@.len(),
                ps == prices@.map_values(|x: u64| x as int),
                m == macd_line(ps, f, sl),
                sl <= i <= n,
                fast == ema_at(ps, f, f - 1, sl, i - 1),
                slow == ema_at(ps, sl, 0, sl, i - 1),
                0 <= fast <= PRICE_MAX,
                0 <= slow <= PRICE_MAX,
                macds@.len() == i - sl,
                forall|j: int|
                    0 <= j < i - sl ==> #[trigger] macds@[j] == m[j] && -(PRICE_MAX as int) <= macds@[j]
                        <= PRICE_MAX,
            decreases n - i,
        {
            let x: i128 = prices[i] as i128;
            fast = ema_step(fast, x, self.fast_period);
            slow = ema_step(slow, x, self.slow_period);
            macds.push(fast - slow);
            i = i + 1;
        }
        let ghost ms = macds@.map_values(|v: i128| v as int);
        assert(ms =~= m);
        let mut pos: u128 = 0;
        let mut neg: u128 = 0;
        let mut j: usize = 0;
        while j < self.signal_period
            invariant
                self.wf(),
                g == self.signal(),
                g <= macds@.len(),
                ms == macds@.map_values(|v: i128| v as int),
                forall|t: int|
                    0 <= t < macds@.len() ==> -(PRICE_MAX as int) <= #[trigger] macds@[t] <= PRICE_MAX,
                0 <= j <= g,
                pos - neg == sum_range(ms, 0, j as int),
                pos <= j * (PRICE_MAX as int),
                neg <= j * (PRICE_MAX as int),
            decreases g - j,
        {
            let v: i128 = macds[j];
            if v >= 0 {
                pos = pos + v as u128;
            } else {
                neg = neg + (-v) as u128;
            }
            j = j + 1;
        }
        let k: u128 = self.signal_period as u128;
        proof {
            lemma_mean_bounds(pos - neg, k as int, -(PRICE_MAX as int), PRICE_MAX as int);
        }
        let mut signal: i128 = floor_div(pos, neg, k);
        let mut hist: Vec<MacdHistogram> = Vec::new();
        let total = macds.len();
        let mut j: usize = self.signal_period;
        while j < total
            invariant
                self.wf(),
                g == self.signal(),
                g <= j <= total == macds@.len(),
                ms == macds@.map_values(|v: i128| v as int),
                ms == m,
                forall|t: int|
                    0 <= t < macds@.len() ==> -(PRICE_MAX as int) <= #[trigger] macds@[t] <= PRICE_MAX,
                signal == ema_at(ms, g, 0, g, j - 1),
                -(PRICE_MAX as int) <= signal <= PRICE_MAX,
                hist@.len() == j - g,
                forall|t: int|
                    0 <= t < j - g ==> hist@[t].macd == ms[g + t] && hist@[t].signal == ema_at(
                        ms,
                        g,
                        0,
                        g,
                        g + t,
                    ) && -(PRICE_MAX as int) <= hist@[t].macd <= PRICE_MAX && -(PRICE_MAX as int)
                        <= hist@[t].signal <= PRICE_MAX,
            decreases total - j,
        {
            let v: i128 = macds[j];
            signal = ema_step(signal, v, self.signal_period);
            hist.push(MacdHistogram { macd: v, signal });
            j = j + 1;
        }
        hist
    }
}

} // verus!
