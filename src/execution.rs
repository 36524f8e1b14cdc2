//! Signal events, the per-pair throttling strategy and the watch registry.
use crate::analysis::{closes, Candle, MacdAnalyzer, Status};
use crate::error::SignalError;
use vstd::prelude::*;

verus! {

#[verifier::external_type_specification]
#[verifier::external_body]
pub struct ExSystemTime(std::time::SystemTime);

/// Relies on std::time::SystemTime::now: the wall-clock time; nothing is known of its value.
pub assume_specification[ std::time::SystemTime::now ]() -> std::time::SystemTime;

/// Relies on SystemTime::duration_since(UNIX_EPOCH) and Duration::as_millis: whole
/// milliseconds since the epoch, or `None` for a time before it.
#[verifier::external_body]
fn millis_since_epoch(t: &std::time::SystemTime) -> (r: Option<u128>) {
    match t.duration_since(std::time::UNIX_EPOCH) {
        Ok(d) => Some(d.as_millis()),
        Err(_) => None,
    }
}

/// What a signal event holds, as mathematical values.
pub struct EventModel {
    pub timestamp: nat,
    pub pair: Seq<char>,
    pub status: Status,
}

/// A signal event: a pair's status at a moment (milliseconds since the epoch).
pub struct Position {
    timestamp: u128,
    pair: String,
    status: Status,
}

impl View for Position {
    type V = EventModel;

    closed spec fn view(&self) -> EventModel {
        EventModel { timestamp: self.timestamp as nat, pair: self.pair@, status: self.status }
    }
}

impl Position {
    /// An event stamped with the current wall-clock time (see `stamped`).
    pub fn new(pair: &str, status: Status) -> (r: Self)
        ensures
            r@.pair == pair@,
            r@.status == status,
    {
        let now = std::time::SystemTime::now();
        Self::stamped(millis_since_epoch(&now), pair, status)
    }

    /// An event stamped with a clock reading in milliseconds since the epoch;
    /// a clock set before the epoch (no reading) stamps it 0.
    pub fn stamped(reading: Option<u128>, pair: &str, status: Status) -> (r: Self)
        ensures
            r@ == (EventModel {
                timestamp: match reading {
                    Some(t) => t as nat,
                    None => 0,
                },
                pair: pair@,
                status,
            }),
    {
        let timestamp: u128 = match reading {
            Some(t) => t,
            None => 0,
        };
        Self::at(timestamp, pair, status)
    }

    /// An event stamped with the given time.
    pub fn at(timestamp: u128, pair: &str, status: Status) -> (r: Self)
        ensures
            r@ == (EventModel { timestamp: timestamp as nat, pair: pair@, status }),
    {
        Position { timestamp, pair: pair.to_owned(), status }
    }

    pub fn timestamp(&self) -> (r: u128)
        ensures
            r == self@.timestamp,
    {
        self.timestamp
    }

    pub fn pair(&self) -> (r: &str)
        ensures
            r@ == self@.pair,
    {
        self.pair.as_str()
    }

    pub fn status(&self) -> (r: Status)
        ensures
            r == self@.status,
    {
        self.status
    }
}

/// The strategy's state: rest and hold periods, configured amounts
/// `(small, big)` per pair, and the last admitted `(timestamp, status)` per pair.
pub struct StrategyState {
    pub rest: nat,
    pub hold: nat,
    pub amounts: Map<Seq<char>, (u64, u64)>,
    pub last: Map<Seq<char>, (nat, Status)>,
}

/// The last admitted record of `pair`, if any.
pub open spec fn last_of(s: StrategyState, pair: Seq<char>) -> Option<(nat, Status)> {
    if s.last.contains_key(pair) {
        Some(s.last[pair])
    } else {
        None
    }
}

/// Whether event `e` is admitted after the record `last`: always on first
/// sight; later only a Buy or Quit that differs from the last status and comes
/// at least `rest` after it.
pub open spec fn admits(rest: nat, last: Option<(nat, Status)>, e: EventModel) -> bool {
    match last {
        None => true,
        Some(l) => e.status != Status::Hold && e.status != l.1 && e.timestamp - l.0 >= rest,
    }
}

/// The size of an admitted order: Buy takes `small`, or `big` when more than
/// `hold` has passed since the last record; Hold and Quit take 0.
pub open spec fn order_amount(
    small: u64,
    big: u64,
    hold: nat,
    last: Option<(nat, Status)>,
    e: EventModel,
) -> u64 {
    match e.status {
        Status::Buy => match last {
            Some(l) => if e.timestamp - l.0 > hold {
                big
            } else {
                small
            },
            None => small,
        },
        _ => 0,
    }
}

/// The order produced for `e` in state `s`, for a configured pair.
pub open spec fn decision(s: StrategyState, e: EventModel) -> Option<u64> {
    let last = last_of(s, e.pair);
    if admits(s.rest, last, e) {
        Some(order_amount(s.amounts[e.pair].0, s.amounts[e.pair].1, s.hold, last, e))
    } else {
        None
    }
}

/// The state after `e`, for a configured pair.
pub open spec fn after(s: StrategyState, e: EventModel) -> StrategyState {
    if admits(s.rest, last_of(s, e.pair), e) {
        StrategyState { last: s.last.insert(e.pair, (e.timestamp, e.status)), ..s }
    } else {
        s
    }
}

/// Feeding the same event twice never emits a second order: the second
/// decision is always "no order".
pub proof fn lemma_same_event_twice(s: StrategyState, e: EventModel)
    requires
        s.amounts.contains_key(e.pair),
    ensures
        after(s, e).amounts.contains_key(e.pair),
        decision(after(s, e), e) is None,
{
    if admits(s.rest, last_of(s, e.pair), e) {
        assert(last_of(after(s, e), e.pair) == Some((e.timestamp, e.status)));
    }
}

/// Two events of one pair with different statuses, the second less than the
/// rest period after the first, never both produce an order.
pub proof fn lemma_rest_period(s: StrategyState, e1: EventModel, e2: EventModel)
    requires
        s.amounts.contains_key(e1.pair),
        e2.pair == e1.pair,
        e2.status != e1.status,
        e2.timestamp < e1.timestamp + s.rest,
    ensures
        !(decision(s, e1) is Some && decision(after(s, e1), e2) is Some),
{
    if admits(s.rest, last_of(s, e1.pair), e1) {
        assert(last_of(after(s, e1), e2.pair) == Some((e1.timestamp, e1.status)));
    }
}

/// For a pair with no history, of two such events exactly the first produces an order.
pub proof fn lemma_rest_period_first_wins(s: StrategyState, e1: EventModel, e2: EventModel)
    requires
        s.amounts.contains_key(e1.pair),
        !s.last.contains_key(e1.pair),
        e2.pair == e1.pair,
        e2.status != e1.status,
        e2.timestamp < e1.timestamp + s.rest,
    ensures
        decision(s, e1) is Some,
        decision(after(s, e1), e2) is None,
{
    lemma_rest_period(s, e1, e2);
}

/// An admitted Buy after an earlier record is sized `big` when more than the
/// hold period has passed and `small` otherwise; an admitted Quit is sized 0.
pub proof fn lemma_sizing(s: StrategyState, e: EventModel)
    requires
        s.amounts.contains_key(e.pair),
        s.last.contains_key(e.pair),
        decision(s, e) is Some,
    ensures
        e.status == Status::Buy && e.timestamp - s.last[e.pair].0 > s.hold ==> decision(s, e)
            == Some(s.amounts[e.pair].1),
        e.status == Status::Buy && e.timestamp - s.last[e.pair].0 <= s.hold ==> decision(s, e)
            == Some(s.amounts[e.pair].0),
        e.status == Status::Quit ==> decision(s, e) == Some(0u64),
{
}

/// A pair's record only ever moves forward in time, and the configured
/// amounts and periods never change.
pub proof fn lemma_records_move_forward(s: StrategyState, e: EventModel, pair: Seq<char>)
    requires
        s.amounts.contains_key(e.pair),
        s.last.contains_key(pair),
    ensures
        after(s, e).last.contains_key(pair),
        after(s, e).last[pair].0 >= s.last[pair].0,
        after(s, e).amounts == s.amounts,
        after(s, e).rest == s.rest,
        after(s, e).hold == s.hold,
{
}

/// The state after feeding the first `n` events of `es`, in order, to the strategy.
pub open spec fn state_after(s: StrategyState, es: Seq<EventModel>, n: int) -> StrategyState
    decreases n,
{
    if n <= 0 {
        s
    } else {
        after(state_after(s, es, n - 1), es[n - 1])
    }
}

/// The order produced for event `i` of a run of `es`.
pub open spec fn run_order(s: StrategyState, es: Seq<EventModel>, i: int) -> Option<u64> {
    decision(state_after(s, es, i), es[i])
}

/// Whether `es` is one pair's single upward crossover: Quit before index `b`,
/// Buy at `b`, Hold after it.
pub open spec fn single_crossover(es: Seq<EventModel>, pair: Seq<char>, b: int) -> bool {
    &&& 0 <= b < es.len()
    &&& forall|i: int| 0 <= i < es.len() ==> (#[trigger] es[i]).pair == pair
    &&& forall|i: int| 0 <= i < b ==> (#[trigger] es[i]).status == Status::Quit
    &&& es[b].status == Status::Buy
    &&& forall|i: int| b < i < es.len() ==> (#[trigger] es[i]).status == Status::Hold
}

proof fn lemma_crossover_state(s: StrategyState, es: Seq<EventModel>, pair: Seq<char>, b: int, n: int)
    requires
        s.amounts.contains_key(pair),
        !s.last.contains_key(pair),
        single_crossover(es, pair, b),
        b > 0 ==> es[b].timestamp - es[0].timestamp >= s.rest,
        1 <= n <= es.len(),
    ensures
        state_after(s, es, n).amounts == s.amounts,
        state_after(s, es, n).rest == s.rest,
        state_after(s, es, n).hold == s.hold,
        n <= b ==> last_of(state_after(s, es, n), pair) == Some((es[0].timestamp, Status::Quit)),
        n > b ==> last_of(state_after(s, es, n), pair) == Some((es[b].timestamp, Status::Buy)),
    decreases n,
{
    if n > 1 {
        lemma_crossover_state(s, es, pair, b, n - 1);
    } else {
        assert(state_after(s, es, 0) == s);
    }
    let e = es[n - 1];
    assert(e.pair == pair);
    if n - 1 < b {
        assert(e.status == Status::Quit);
    } else if n - 1 > b {
        assert(e.status == Status::Hold);
    }
}

/// A run over one pair with no history whose statuses form a single upward
/// crossover (Quit, then one Buy, then Hold) produces exactly one order for a
/// Buy event, at the crossing. It is sized `big` when the crossing comes more
/// than the hold period after the run's first (Quit) event, else `small`.
/// The Buy must come at least the rest period after that first event.
pub proof fn lemma_single_crossover_run(s: StrategyState, es: Seq<EventModel>, pair: Seq<char>, b: int)
    requires
        s.amounts.contains_key(pair),
        !s.last.contains_key(pair),
        single_crossover(es, pair, b),
        b > 0 ==> es[b].timestamp - es[0].timestamp >= s.rest,
    ensures
        forall|i: int|
            0 <= i < es.len() ==> (run_order(s, es, i) is Some && es[i].status == Status::Buy
                <==> i == b),
        run_order(s, es, b) == Some(
            if b > 0 && es[b].timestamp - es[0].timestamp > s.hold {
                s.amounts[pair].1
            } else {
                s.amounts[pair].0
            },
        ),
{
    if b > 0 {
        lemma_crossover_state(s, es, pair, b, b);
    } else {
        assert(state_after(s, es, 0) == s);
    }
    assert(es[b].pair == pair);
    assert forall|i: int|
        0 <= i < es.len() implies (run_order(s, es, i) is Some && es[i].status == Status::Buy
            <==> i == b) by {
        if i == b {
        } else if i < b {
            assert(es[i].status == Status::Quit);
        } else if i > b {
            assert(es[i].status == Status::Hold);
        }
    }
}

/// Amounts configured by a list of `(pair, small, big)`; a later entry for a pair wins.
pub open spec fn amounts_of(entries: Seq<(Seq<char>, u64, u64)>) -> Map<Seq<char>, (u64, u64)>
    decreases entries.len(),
{
    if entries.len() == 0 {
        Map::empty()
    } else {
        let e = entries.last();
        amounts_of(entries.drop_last()).insert(e.0, (e.1, e.2))
    }
}

struct PairBook {
    pair: String,
    small: u64,
    big: u64,
    last: Option<(u128, Status)>,
}

spec fn pair_index_from(books: Seq<PairBook>, pair: Seq<char>, i: int) -> int
    decreases books.len() - i,
{
    if i < 0 || i >= books.len() {
        -1
    } else if books[i].pair@ == pair {
        i
    } else {
        pair_index_from(books, pair, i + 1)
    }
}

spec fn pair_index(books: Seq<PairBook>, pair: Seq<char>) -> int {
    pair_index_from(books, pair, 0)
}

proof fn lemma_pair_index_range(books: Seq<PairBook>, pair: Seq<char>, i: int)
    requires
        0 <= i,
    ensures
        pair_index_from(books, pair, i) == -1 || (i <= pair_index_from(books, pair, i) < books.len()
            && books[pair_index_from(books, pair, i)].pair@ == pair),
        pair_index_from(books, pair, i) == -1 ==> forall|j: int|
            i <= j < books.len() ==> #[trigger] books[j].pair@ != pair,
    decreases books.len() - i,
{
    if i < books.len() && books[i].pair@ != pair {
        lemma_pair_index_range(books, pair, i + 1);
    }
}

/// Index lookup depends on the pair names alone.
proof fn lemma_pair_index_same_names(a: Seq<PairBook>, b: Seq<PairBook>, pair: Seq<char>, i: int)
    requires
        a.len() == b.len(),
        forall|j: int| 0 <= j < a.len() ==> #[trigger] a[j].pair@ == b[j].pair@,
    ensures
        pair_index_from(a, pair, i) == pair_index_from(b, pair, i),
    decreases a.len() - i,
{
    if 0 <= i < a.len() && a[i].pair@ != pair {
        lemma_pair_index_same_names(a, b, pair, i + 1);
    }
}

/// Appending a book whose pair is new keeps every other lookup and finds the new one.
proof fn lemma_pair_index_push(books: Seq<PairBook>, b: PairBook, pair: Seq<char>, i: int)
    requires
        0 <= i <= books.len(),
        pair_index_from(books, b.pair@, i) == -1,
    ensures
        pair_index_from(books.push(b), pair, i) == if pair == b.pair@ && pair_index_from(
            books,
            pair,
            i,
        ) == -1 {
            books.len() as int
        } else {
            pair_index_from(books, pair, i)
        },
    decreases books.len() - i,
{
    if i < books.len() {
        assert(books.push(b)[i] == books[i]);
        if books[i].pair@ != pair {
            lemma_pair_index_push(books, b, pair, i + 1);
        }
    } else {
        assert(books.push(b)[i] == b);
        assert(pair_index_from(books.push(b), pair, i + 1) == -1);
    }
}

spec fn books_amounts(books: Seq<PairBook>) -> Map<Seq<char>, (u64, u64)> {
    Map::new(
        |k: Seq<char>| pair_index(books, k) >= 0,
        |k: Seq<char>| (books[pair_index(books, k)].small, books[pair_index(books, k)].big),
    )
}

spec fn books_last(books: Seq<PairBook>) -> Map<Seq<char>, (nat, Status)> {
    Map::new(
        |k: Seq<char>| pair_index(books, k) >= 0 && books[pair_index(books, k)].last is Some,
        |k: Seq<char>|
            {
                let l = books[pair_index(books, k)].last.unwrap();
                (l.0 as nat, l.1)
            },
    )
}

/// Replacing the book of a pair by one for the same pair updates both maps at that pair only.
proof fn lemma_replace_book(books: Seq<PairBook>, k: int, b: PairBook)
    requires
        0 <= k < books.len(),
        pair_index(books, b.pair@) == k,
    ensures
        books_amounts(books.update(k, b)) == books_amounts(books).insert(b.pair@, (b.small, b.big)),
        b.last is Some ==> books_last(books.update(k, b)) == books_last(books).insert(
            b.pair@,
            (b.last.unwrap().0 as nat, b.last.unwrap().1),
        ),
{
    let nb = books.update(k, b);
    lemma_pair_index_range(books, b.pair@, 0);
    assert forall|q: Seq<char>|
        #[trigger] pair_index(nb, q) == pair_index(books, q) && (pair_index(books, q) >= 0
            ==> pair_index(books, q) < books.len() && books[pair_index(books, q)].pair@ == q) by {
        lemma_pair_index_same_names(nb, books, q, 0);
        lemma_pair_index_range(books, q, 0);
    }
    assert(books_amounts(nb) =~= books_amounts(books).insert(b.pair@, (b.small, b.big)));
    if b.last is Some {
        assert(books_last(nb) =~= books_last(books).insert(
            b.pair@,
            (b.last.unwrap().0 as nat, b.last.unwrap().1),
        ));
    }
}

/// Appending a book for a new pair adds its amounts and no record.
proof fn lemma_push_book(books: Seq<PairBook>, b: PairBook)
    requires
        pair_index(books, b.pair@) == -1,
        b.last is None,
    ensures
        books_amounts(books.push(b)) == books_amounts(books).insert(b.pair@, (b.small, b.big)),
        books_last(books.push(b)) == books_last(books),
{
    let nb = books.push(b);
    assert forall|q: Seq<char>| #[trigger] pair_index(nb, q) == (if q == b.pair@ {
        books.len() as int
    } else {
        pair_index(books, q)
    }) by {
        lemma_pair_index_push(books, b, q, 0);
        lemma_pair_index_range(books, q, 0);
    }
    assert forall|q: Seq<char>| pair_index(books, q) >= 0 implies #[trigger] pair_index(books, q)
        < books.len() by {
        lemma_pair_index_range(books, q, 0);
    }
    assert(books_amounts(nb) =~= books_amounts(books).insert(b.pair@, (b.small, b.big)));
    assert(books_last(nb) =~= books_last(books));
}

/// Decides per pair whether a new signal event warrants an order, and its size.
pub struct Strategy {
    rest: u128,
    period: u128,
    books: Vec<PairBook>,
}

impl View for Strategy {
    type V = StrategyState;

    closed spec fn view(&self) -> StrategyState {
        StrategyState {
            rest: self.rest as nat,
            hold: self.period as nat,
            amounts: books_amounts(self.books@),
            last: books_last(self.books@),
        }
    }
}

impl Strategy {
    /// A strategy with no history, rest period `rest`, hold period `period`
    /// and `(pair, small, big)` amounts.
    pub fn new(rest: u128, period: u128, amounts: Vec<(String, u64, u64)>) -> (r: Self)
        ensures
            r@.rest == rest,
            r@.hold == period,
            r@.amounts == amounts_of(amounts@.map_values(|e: (String, u64, u64)| (e.0@, e.1, e.2))),
            r@.last == Map::<Seq<char>, (nat, Status)>::empty(),
    {
        let ghost entries = amounts@.map_values(|e: (String, u64, u64)| (e.0@, e.1, e.2));
        let mut books: Vec<PairBook> = Vec::new();
        let mut i: usize = 0;
        while i < amounts.len()
            invariant
                i <= amounts@.len(),
                entries == amounts@.map_values(|e: (String, u64, u64)| (e.0@, e.1, e.2)),
                books_amounts(books@) =~= amounts_of(entries.take(i as int)),
                forall|j: int| 0 <= j < books@.len() ==> #[trigger] books@[j].last is None,
            decreases amounts.len() - i,
        {
            let entry = &amounts[i];
            let k = Self::find(&books, &entry.0);
            let book = PairBook { pair: entry.0.clone(), small: entry.1, big: entry.2, last: None };
            let ghost old_books = books@;
            proof {
                lemma_pair_index_range(old_books, entry.0@, 0);
            }
            if k < books.len() {
                books.set(k, book);
                proof {
                    lemma_replace_book(old_books, k as int, book);
                }
            } else {
                books.push(book);
                proof {
                    lemma_push_book(old_books, book);
                }
            }
            proof {
                assert(entries.take(i + 1).drop_last() =~= entries.take(i as int));
                assert(entries[i as int] == (entry.0@, entry.1, entry.2));
            }
            i = i + 1;
        }
        assert(entries.take(amounts@.len() as int) =~= entries);
        proof {
            assert forall|q: Seq<char>| pair_index(books@, q) >= 0 implies #[trigger] pair_index(
                books@,
                q,
            ) < books@.len() by {
                lemma_pair_index_range(books@, q, 0);
            }
        }
        let r = Strategy { rest, period, books };
        assert(r@.last =~= Map::<Seq<char>, (nat, Status)>::empty());
        r
    }

    /// Decides on `position`: the order amount if the event is admitted,
    /// `None` if it is not, and `UnknownPair` if the pair has no amounts.
    pub fn execute(&mut self, position: &Position) -> (r: Result<Option<u64>, SignalError>)
        ensures
            !old(self)@.amounts.contains_key(position@.pair) ==> final(self)@ == old(self)@
                && match r {
                Err(SignalError::UnknownPair(p)) => p@ == position@.pair,
                _ => false,
            },
            old(self)@.amounts.contains_key(position@.pair) ==> r == Ok::<Option<u64>, SignalError>(
                decision(old(self)@, position@),
            ) && final(self)@ == after(old(self)@, position@),
    {
        let ghost old_books = self.books@;
        let k = Self::find(&self.books, &position.pair);
        proof {
            lemma_pair_index_range(old_books, position@.pair, 0);
        }
        if k == self.books.len() {
            return Err(SignalError::UnknownPair(position.pair.clone()));
        }
        let small = self.books[k].small;
        let big = self.books[k].big;
        let last = self.books[k].last;
        let t = position.timestamp;
        let status = position.status;
        let amount: u64 = match last {
            None => if status == Status::Buy {
                small
            } else {
                0
            },
            Some((lt, ls)) => {
                if status != Status::Hold && status != ls && t >= lt && t - lt >= self.rest {
                    if status == Status::Buy {
                        if t - lt > self.period {
                            big
                        } else {
                            small
                        }
                    } else {
                        0
                    }
                } else {
                    return Ok(None);
                }
            },
        };
        let book = PairBook {
            pair: self.books[k].pair.clone(),
            small,
            big,
            last: Some((t, status)),
        };
        self.books.set(k, book);
        proof {
            lemma_replace_book(old_books, k as int, book);
            assert(books_amounts(old_books).insert(position@.pair, (small, big)) =~= books_amounts(
                old_books,
            ));
        }
        Ok(Some(amount))
    }

    /// The index of `pair` in `books`, or `books.len()` when absent.
    fn find(books: &Vec<PairBook>, pair: &String) -> (r: usize)
        ensures
            pair_index(books@, pair@) == -1 ==> r == books@.len(),
            pair_index(books@, pair@) != -1 ==> r == pair_index(books@, pair@),
    {
        let mut i: usize = 0;
        while i < books.len()
            invariant
                i <= books@.len(),
                pair_index(books@, pair@) == pair_index_from(books@, pair@, i as int),
            decreases books.len() - i,
        {
            if books[i].pair.eq(pair) {
                return i;
            }
            i = i + 1;
        }
        i
    }
}

/// A registered actor: its key, its pairs and how many executors it has.
pub struct ActorModel {
    pub key: Seq<char>,
    pub pairs: Seq<Seq<char>>,
    pub executors: nat,
}

/// Whether some actor of `actors` is registered under `key`.
pub open spec fn has_key(actors: Seq<ActorModel>, key: Seq<char>) -> bool {
    exists|i: int| 0 <= i < actors.len() && #[trigger] actors[i].key == key
}

/// Keys are pairwise distinct.
pub open spec fn keys_unique(actors: Seq<ActorModel>) -> bool {
    forall|i: int, j: int|
        0 <= i < actors.len() && 0 <= j < actors.len() && #[trigger] actors[i].key
            == #[trigger] actors[j].key ==> i == j
}

/// The `(actor index, pair)` jobs of one watch cycle over the first `n` actors,
/// actor by actor, each actor's pairs in order.
pub open spec fn jobs_upto(actors: Seq<ActorModel>, n: int) -> Seq<(nat, Seq<char>)>
    decreases n,
{
    if n <= 0 || n > actors.len() {
        Seq::empty()
    } else {
        jobs_upto(actors, n - 1) + actors[n - 1].pairs.map_values(
            |p: Seq<char>| ((n - 1) as nat, p),
        )
    }
}

/// The jobs of one watch cycle.
pub open spec fn jobs_of(actors: Seq<ActorModel>) -> Seq<(nat, Seq<char>)> {
    jobs_upto(actors, actors.len() as int)
}

/// Jobs as mathematical values.
pub open spec fn jobs_view(jobs: Seq<(usize, String)>) -> Seq<(nat, Seq<char>)> {
    jobs.map_values(|x: (usize, String)| (x.0 as nat, x.1@))
}

pub open spec fn strings_view(v: Seq<String>) -> Seq<Seq<char>> {
    v.map_values(|s: String| s@)
}

struct Actor<F, E> {
    key: String,
    fetcher: F,
    pairs: Vec<String>,
    executors: Vec<E>,
}

impl<F, E> Actor<F, E> {
    spec fn model(&self) -> ActorModel {
        ActorModel {
            key: self.key@,
            pairs: strings_view(self.pairs@),
            executors: self.executors@.len(),
        }
    }
}

/// The registry of actors a watch cycle runs over: each a fetcher under a
/// unique key, the pairs it tracks, and the executors it notifies.
pub struct Watcher<F, E> {
    analyzer: MacdAnalyzer,
    actors: Vec<Actor<F, E>>,
}

impl<F, E> View for Watcher<F, E> {
    type V = Seq<ActorModel>;

    closed spec fn view(&self) -> Seq<ActorModel> {
        self.actors@.map_values(|a: Actor<F, E>| a.model())
    }
}

impl<F, E> Watcher<F, E> {
    /// The analyzer the watcher classifies with.
    pub closed spec fn spec_analyzer(&self) -> MacdAnalyzer {
        self.analyzer
    }

    /// The fetcher of the actor at index `i`.
    pub closed spec fn spec_fetcher(&self, i: int) -> F {
        self.actors@[i].fetcher
    }

    /// The executors of the actor at index `i`, in registration order.
    pub closed spec fn spec_executors(&self, i: int) -> Seq<E> {
        self.actors@[i].executors@
    }

    pub closed spec fn wf(&self) -> bool {
        self.analyzer.wf() && keys_unique(self@)
    }

    pub fn new(analyzer: MacdAnalyzer) -> (r: Self)
        requires
            analyzer.wf(),
        ensures
            r.wf(),
            r@ == Seq::<ActorModel>::empty(),
            r.spec_analyzer() == analyzer,
    {
        let r = Watcher { analyzer, actors: Vec::new() };
        assert(r@ =~= Seq::<ActorModel>::empty());
        r
    }

    fn find(&self, key: &String) -> (r: usize)
        requires
            self.wf(),
        ensures
            has_key(self@, key@) ==> r < self@.len() && self@[r as int].key == key@,
            !has_key(self@, key@) ==> r == self@.len(),
    {
        let mut i: usize = 0;
        while i < self.actors.len()
            invariant
                i <= self.actors@.len(),
                forall|j: int| 0 <= j < i ==> #[trigger] self@[j].key != key@,
            decreases self.actors.len() - i,
        {
            if self.actors[i].key.eq(key) {
                assert(self@[i as int].key == key@);
                return i;
            }
            i = i + 1;
        }
        i
    }

    /// Registers `fetcher` under `key` with its pairs and executors; a key
    /// already registered is refused.
    pub fn add(&mut self, key: &str, fetcher: F, pairs: Vec<String>, executors: Vec<E>) -> (r: Result<
        (),
        SignalError,
    >)
        requires
            old(self).wf(),
        ensures
            final(self).wf(),
            final(self).spec_analyzer() == old(self).spec_analyzer(),
            has_key(old(self)@, key@) ==> final(self)@ == old(self)@ && match r {
                Err(SignalError::DuplicateKey(k)) => k@ == key@,
                _ => false,
            },
            !has_key(old(self)@, key@) ==> r is Ok && final(self)@ == old(self)@.push(
                ActorModel {
                    key: key@,
                    pairs: strings_view(pairs@),
                    executors: executors@.len(),
                },
            ) && final(self).spec_fetcher(old(self)@.len() as int) == fetcher
                && final(self).spec_executors(old(self)@.len() as int) == executors@,
            forall|j: int|
                0 <= j < old(self)@.len() ==> #[trigger] final(self).spec_fetcher(j)
                    == old(self).spec_fetcher(j) && final(self).spec_executors(j)
                    == old(self).spec_executors(j),
    {
        let key = key.to_owned();
        let i = self.find(&key);
        if i < self.actors.len() {
            return Err(SignalError::DuplicateKey(key));
        }
        let ghost old_view = self@;
        self.actors.push(Actor { key, fetcher, pairs, executors });
        assert(self@ =~= old_view.push(
            ActorModel { key: key@, pairs: strings_view(pairs@), executors: executors@.len() },
        ));
        Ok(())
    }
    /// Adds `pair` to the actor registered under `key`; an unknown key is refused.
    pub fn add_pair(&mut self, key: &str, pair: &str) -> (r: Result<(), SignalError>)
        requires
            old(self).wf(),
        ensures
            final(self).wf(),
            final(self).spec_analyzer() == old(self).spec_analyzer(),
            !has_key(old(self)@, key@) ==> final(self)@ == old(self)@ && match r {
                Err(SignalError::UnknownKey(k)) => k@ == key@,
                _ => false,
            },
            has_key(old(self)@, key@) ==> r is Ok && final(self)@.len() == old(self)@.len()
                && forall|j: int|
                0 <= j < old(self)@.len() ==> #[trigger] final(self)@[j] == if old(self)@[j].key
                    == key@ {
                    ActorModel { pairs: old(self)@[j].pairs.push(pair@), ..old(self)@[j] }
                } else {
                    old(self)@[j]
                },
            forall|j: int|
                0 <= j < old(self)@.len() ==> #[trigger] final(self).spec_fetcher(j)
                    == old(self).spec_fetcher(j) && final(self).spec_executors(j)
                    == old(self).spec_executors(j),
    {
        let key = key.to_owned();
        let i = self.find(&key);
        if i == self.actors.len() {
            return Err(SignalError::UnknownKey(key));
        }
        let ghost old_view = self@;
        let mut actor = self.actors.remove(i);
        actor.pairs.push(pair.to_owned());
        self.actors.insert(i, actor);
        proof {
            assert(strings_view(actor.pairs@) =~= old_view[i as int].pairs.push(pair@));
            assert forall|j: int|
                0 <= j < old_view.len() implies #[trigger] self@[j] == if old_view[j].key == key@ {
                ActorModel { pairs: old_view[j].pairs.push(pair@), ..old_view[j] }
            } else {
                old_view[j]
            } by {
                if j != i {
                    assert(old_view[j].key != key@);
                }
            }
            assert forall|a: int, b: int|
                0 <= a < self@.len() && 0 <= b < self@.len() && #[trigger] self@[a].key
                    == #[trigger] self@[b].key implies a == b by {
                assert(self@[a].key == old_view[a].key);
                assert(self@[b].key == old_view[b].key);
            }
        }
        Ok(())
    }

    /// Adds `executor` to the actor registered under `key`; an unknown key is refused.
    pub fn add_executor(&mut self, key: &str, executor: E) -> (r: Result<(), SignalError>)
        requires
            old(self).wf(),
        ensures
            final(self).wf(),
            final(self).spec_analyzer() == old(self).spec_analyzer(),
            !has_key(old(self)@, key@) ==> final(self)@ == old(self)@ && match r {
                Err(SignalError::UnknownKey(k)) => k@ == key@,
                _ => false,
            },
            has_key(old(self)@, key@) ==> r is Ok && final(self)@.len() == old(self)@.len()
                && forall|j: int|
                0 <= j < old(self)@.len() ==> #[trigger] final(self)@[j] == if old(self)@[j].key
                    == key@ {
                    ActorModel { executors: old(self)@[j].executors + 1, ..old(self)@[j] }
                } else {
                    old(self)@[j]
                },
            forall|j: int|
                0 <= j < old(self)@.len() ==> #[trigger] final(self).spec_fetcher(j)
                    == old(self).spec_fetcher(j),
            has_key(old(self)@, key@) ==> forall|j: int|
                0 <= j < old(self)@.len() ==> #[trigger] final(self).spec_executors(j) == if old(
                    self,
                )@[j].key == key@ {
                    old(self).spec_executors(j).push(executor)
                } else {
                    old(self).spec_executors(j)
                },
    {
        let key = key.to_owned();
        let i = self.find(&key);
        if i == self.actors.len() {
            return Err(SignalError::UnknownKey(key));
        }
        let ghost old_view = self@;
        let mut actor = self.actors.remove(i);
        actor.executors.push(executor);
        self.actors.insert(i, actor);
        proof {
            assert forall|j: int|
                0 <= j < old_view.len() implies #[trigger] self@[j] == if old_view[j].key == key@ {
                ActorModel { executors: old_view[j].executors + 1, ..old_view[j] }
            } else {
                old_view[j]
            } by {
                if j != i {
                    assert(old_view[j].key != key@);
                }
            }
            assert forall|a: int, b: int|
                0 <= a < self@.len() && 0 <= b < self@.len() && #[trigger] self@[a].key
                    == #[trigger] self@[b].key implies a == b by {
                assert(self@[a].key == old_view[a].key);
                assert(self@[b].key == old_view[b].key);
            }
        }
        Ok(())
    }

    /// The jobs of one watch cycle: every actor's pairs, actor by actor.
    pub fn jobs(&self) -> (r: Vec<(usize, String)>)
        ensures
            jobs_view(r@) == jobs_of(self@),
    {
        let mut r: Vec<(usize, String)> = Vec::new();
        let mut i: usize = 0;
        while i < self.actors.len()
            invariant
                i <= self@.len(),
                jobs_view(r@) == jobs_upto(self@, i as int),
            decreases self.actors.len() - i,
        {
            let pairs = &self.actors[i].pairs;
            assert(strings_view(pairs@) == self@[i as int].pairs);
            let mut j: usize = 0;
            while j < pairs.len()
                invariant
                    i < self@.len(),
                    j <= pairs@.len(),
                    strings_view(pairs@) == self@[i as int].pairs,
                    jobs_view(r@) == jobs_upto(self@, i as int)
                        + self@[i as int].pairs.take(j as int).map_values(
                        |p: Seq<char>| (i as nat, p),
                    ),
                decreases pairs.len() - j,
            {
                let ghost before = r@;
                let name = pairs[j].clone();
                assert(name@ == self@[i as int].pairs[j as int]);
                r.push((i, name));
                assert(jobs_view(r@) =~= jobs_view(before).push((i as nat, name@)));
                let ghost ps = self@[i as int].pairs;
                assert(ps.take(j + 1).map_values(|p: Seq<char>| (i as nat, p)) =~= ps.take(
                    j as int,
                ).map_values(|p: Seq<char>| (i as nat, p)).push((i as nat, name@)));
                assert(jobs_view(r@) =~= jobs_upto(self@, i as int)
                    + self@[i as int].pairs.take(j + 1).map_values(|p: Seq<char>| (i as nat, p)));
                j = j + 1;
            }
            assert(self@[i as int].pairs.take(j as int) =~= self@[i as int].pairs);
            i = i + 1;
        }
        r
    }

    /// Classifies `candles` for `pair` into a signal event stamped with the current time.
    pub fn evaluate(&self, pair: &str, candles: &[Candle]) -> (r: Result<Position, SignalError>)
        requires
            self.wf(),
        ensures
            self.spec_analyzer().enough(candles@.len() as int)
                ==> r is Ok && r->Ok_0@.pair == pair@ && r->Ok_0@.status
                == self.spec_analyzer().status_of(closes(candles@)),
            !self.spec_analyzer().enough(candles@.len() as int)
                ==> r == Err::<Position, SignalError>(SignalError::InsufficientData),
    {
        match self.analyzer.analyze(candles) {
            Ok(status) => Ok(Position::new(pair, status)),
            Err(e) => Err(e),
        }
    }

    /// Classifies `candles` for `pair` into a signal event stamped `timestamp`.
    pub fn evaluate_at(&self, pair: &str, candles: &[Candle], timestamp: u128) -> (r: Result<
        Position,
        SignalError,
    >)
        requires
            self.wf(),
        ensures
            self.spec_analyzer().enough(candles@.len() as int)
                ==> r is Ok && r->Ok_0@ == (EventModel {
                timestamp: timestamp as nat,
                pair: pair@,
                status: self.spec_analyzer().status_of(closes(candles@)),
            }),
            !self.spec_analyzer().enough(candles@.len() as int)
                ==> r == Err::<Position, SignalError>(SignalError::InsufficientData),
    {
        match self.analyzer.analyze(candles) {
            Ok(status) => Ok(Position::at(timestamp, pair, status)),
            Err(e) => Err(e),
        }
    }

    pub fn analyzer(&self) -> (r: &MacdAnalyzer)
        ensures
            *r == self.spec_analyzer(),
    {
        &self.analyzer
    }

    /// The fetcher of the actor at `actor`.
    pub fn fetcher(&self, actor: usize) -> (r: &F)
        requires
            actor < self@.len(),
        ensures
            *r == self.spec_fetcher(actor as int),
    {
        &self.actors[actor].fetcher
    }

    /// The executors of the actor at `actor`.
    pub fn executors(&self, actor: usize) -> (r: &Vec<E>)
        requires
            actor < self@.len(),
        ensures
            r@ == self.spec_executors(actor as int),
            r@.len() == self@[actor as int].executors,
    {
        &self.actors[actor].executors
    }
}

} // verus!
