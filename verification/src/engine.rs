use vstd::prelude::*;
use crate::book::{limit_add_post, market_fill_report_post, OrderBook, TradeReport};
use crate::errors::EngineError;
use crate::order::Order;
use crate::price::Price;

verus! {

/// The instrument a book trades: a base asset quoted in a quote asset.
#[derive(Clone, Debug)]
pub struct TradingPair {
    pub base: String,
    pub quote: String,
}

impl TradingPair {
    /// The pair's identity: the two asset names as character sequences.
    pub open spec fn key(&self) -> (Seq<char>, Seq<char>) {
        (self.base@, self.quote@)
    }

    pub fn new(base: String, quote: String) -> (r: TradingPair)
        ensures
            r.base@ == base@,
            r.quote@ == quote@,
    {
        TradingPair { base, quote }
    }

    /// Two pairs name the same market exactly when both asset names match.
    pub fn eq_pair(&self, other: &TradingPair) -> (r: bool)
        ensures
            r == (self.key() == other.key()),
    {
        self.base == other.base && self.quote == other.quote
    }
}

/// One registered market: a trading pair and its order book.
#[derive(Debug)]
pub struct Market {
    pub pair: TradingPair,
    pub book: OrderBook,
}

/// Whether some registered market carries this pair.
pub open spec fn has_market(markets: Seq<Market>, key: (Seq<char>, Seq<char>)) -> bool {
    exists|i: int| 0 <= i < markets.len() && (#[trigger] markets[i]).pair.key() == key
}

/// The position of the market carrying this pair (meaningful when
/// `has_market` holds; unique under the engine's invariant).
pub open spec fn market_index(markets: Seq<Market>, key: (Seq<char>, Seq<char>)) -> int {
    choose|i: int| 0 <= i < markets.len() && (#[trigger] markets[i]).pair.key() == key
}

/// The router from trading pairs to their order books. A pair must be
/// registered before orders naming it are accepted; every mutation is
/// forwarded to exactly the one book the pair names.
#[derive(Debug)]
pub struct MatchingEngine {
    pub markets: Vec<Market>,
}

impl MatchingEngine {
    /// The engine's invariant: every book well formed, no pair registered
    /// twice.
    pub open spec fn wf(&self) -> bool {
        &&& forall|i: int|
            0 <= i < self.markets@.len() ==> (#[trigger] self.markets@[i]).book.wf()
        &&& forall|i: int, j: int|
            0 <= i < j < self.markets@.len() ==> (#[trigger] self.markets@[i]).pair.key() != (
            #[trigger] self.markets@[j]).pair.key()
    }

    /// An engine with no market registered.
    pub fn new() -> (r: MatchingEngine)
        ensures
            r.wf(),
            r.markets@ == Seq::<Market>::empty(),
    {
        MatchingEngine { markets: Vec::new() }
    }

    /// Where the pair's market sits, if it is registered.
    fn find_market(&self, pair: &TradingPair) -> (r: Option<usize>)
        ensures
            r matches Some(i) ==> i < self.markets@.len() && self.markets@[i as int].pair.key()
                == pair.key(),
            r is None ==> !has_market(self.markets@, pair.key()),
    {
        let n: usize = self.markets.len();
        let mut i: usize = 0;
        while i < n
            invariant
                i <= n == self.markets@.len(),
                forall|j: int|
                    0 <= j < i ==> (#[trigger] self.markets@[j]).pair.key() != pair.key(),
            decreases n - i,
        {
            if self.markets[i].pair.eq_pair(pair) {
                return Some(i);
            }
            i = i + 1;
        }
        None
    }

    /// Registers an empty book for the pair; registering a pair twice is
    /// rejected, so no resting order is ever silently discarded.
    pub fn add_new_market(&mut self, pair: TradingPair) -> (r: Result<(), EngineError>)
        requires
            old(self).wf(),
        ensures
            final(self).wf(),
            has_market(old(self).markets@, pair.key()) ==> r == Err::<(), EngineError>(
                EngineError::MarketAlreadyExists,
            ) && final(self).markets@ == old(self).markets@,
            !has_market(old(self).markets@, pair.key()) ==> ({
                let ms = final(self).markets@;
                &&& r == Ok::<(), EngineError>(())
                &&& ms.len() == old(self).markets@.len() + 1
                &&& forall|k: int| 0 <= k < old(self).markets@.len() ==> ms[k] == old(
                    self,
                ).markets@[k]
                &&& ms.last().pair.key() == pair.key()
                &&& ms.last().book.asks@ == Seq::<crate::level::Limit>::empty()
                &&& ms.last().book.bids@ == Seq::<crate::level::Limit>::empty()
                &&& ms.last().book.next_order_id == 0
            }),
    {
        match self.find_market(&pair) {
            Some(_) => Err(EngineError::MarketAlreadyExists),
            None => {
                let book = OrderBook::new();
                self.markets.push(Market { pair, book });
                proof {
                    let ms = self.markets@;
                    let ms0 = old(self).markets@;
                    assert(forall|k: int| 0 <= k < ms0.len() ==> ms[k] == ms0[k]);
                    assert forall|i: int, j: int| 0 <= i < j < ms.len() implies (
                    #[trigger] ms[i]).pair.key() != (#[trigger] ms[j]).pair.key() by {
                        if j == ms.len() - 1 {
                            assert(!has_market(ms0, ms.last().pair.key()));
                            assert(ms[i] == ms0[i]);
                        }
                    }
                }
                Ok(())
            },
        }
    }

    /// Forwards a limit order to the pair's book; an unregistered pair is
    /// rejected with `MarketNotFound`.
    pub fn place_limit_order(&mut self, pair: &TradingPair, price: Price, order: Order) -> (r:
        Result<u64, EngineError>)
        requires
            old(self).wf(),
            order.remaining_size <= order.original_size,
        ensures
            final(self).wf(),
            !has_market(old(self).markets@, pair.key()) ==> r == Err::<u64, EngineError>(
                EngineError::MarketNotFound,
            ) && final(self).markets@ == old(self).markets@,
            has_market(old(self).markets@, pair.key()) ==> ({
                let ms0 = old(self).markets@;
                let ms = final(self).markets@;
                let i = market_index(ms0, pair.key());
                &&& ms.len() == ms0.len()
                &&& forall|k: int| 0 <= k < ms.len() && k != i ==> ms[k] == ms0[k]
                &&& ms[i].pair == ms0[i].pair
                &&& limit_add_post(ms0[i].book, ms[i].book, price, order, r)
            }),
    {
        match self.find_market(pair) {
            None => Err(EngineError::MarketNotFound),
            Some(i) => {
                let ghost ms0 = self.markets@;
                proof {
                    assert(has_market(ms0, pair.key()));
                    let w = market_index(ms0, pair.key());
                    assert(0 <= w < ms0.len() && ms0[w].pair.key() == pair.key());
                    assert(w == i as int);
                }
                let mut mk = self.markets.remove(i);
                let r = mk.book.add_limit_order(price, order);
                self.markets.insert(i, mk);
                proof {
                    ms0.remove_ensures(i as int);
                    ms0.remove(i as int).insert_ensures(i as int, self.markets@[i as int]);
                    assert(forall|k: int|
                        0 <= k < self.markets@.len() && k != i as int ==> self.markets@[k]
                            == ms0[k]);
                    assert(self.markets@.len() == ms0.len());
                    assert(self.markets@[i as int].pair == ms0[i as int].pair);
                }
                r
            },
        }
    }

    /// Forwards a market order to the pair's book and hands back the full
    /// trade report; the order is executed as far as resting liquidity
    /// allows and never added to the book.
    pub fn place_market_order(&mut self, pair: &TradingPair, order: Order) -> (r: Result<
        TradeReport,
        EngineError,
    >)
        requires
            old(self).wf(),
        ensures
            final(self).wf(),
            !has_market(old(self).markets@, pair.key()) ==> r == Err::<TradeReport, EngineError>(
                EngineError::MarketNotFound,
            ) && final(self).markets@ == old(self).markets@,
            has_market(old(self).markets@, pair.key()) ==> ({
                let ms0 = old(self).markets@;
                let ms = final(self).markets@;
                let i = market_index(ms0, pair.key());
                &&& ms.len() == ms0.len()
                &&& forall|k: int| 0 <= k < ms.len() && k != i ==> ms[k] == ms0[k]
                &&& ms[i].pair == ms0[i].pair
                &&& r is Ok
                &&& market_fill_report_post(ms0[i].book, ms[i].book, order, r->Ok_0)
            }),
    {
        match self.find_market(pair) {
            None => Err(EngineError::MarketNotFound),
            Some(i) => {
                let ghost ms0 = self.markets@;
                proof {
                    assert(has_market(ms0, pair.key()));
                    let w = market_index(ms0, pair.key());
                    assert(0 <= w < ms0.len() && ms0[w].pair.key() == pair.key());
                    assert(w == i as int);
                }
                let mut mk = self.markets.remove(i);
                let mut market_order = order;
                let report = mk.book.fill_market_order(&mut market_order);
                self.markets.insert(i, mk);
                proof {
                    ms0.remove_ensures(i as int);
                    ms0.remove(i as int).insert_ensures(i as int, self.markets@[i as int]);
                    assert(forall|k: int|
                        0 <= k < self.markets@.len() && k != i as int ==> self.markets@[k]
                            == ms0[k]);
                    assert(self.markets@.len() == ms0.len());
                    assert(self.markets@[i as int].pair == ms0[i as int].pair);
                    assert(market_fill_report_post(
                        ms0[i as int].book,
                        self.markets@[i as int].book,
                        order,
                        report,
                    ));
                }
                Ok(report)
            },
        }
    }

    /// The highest resident bid price in the pair's book; `None` when the
    /// pair is unregistered or no bid rests.
    pub fn query_best_bid(&self, pair: &TradingPair) -> (r: Option<Price>)
        requires
            self.wf(),
        ensures
            !has_market(self.markets@, pair.key()) ==> r == None::<Price>,
            has_market(self.markets@, pair.key()) ==> ({
                let b = self.markets@[market_index(self.markets@, pair.key())].book;
                &&& b.bids@.len() == 0 ==> r == None::<Price>
                &&& b.bids@.len() > 0 ==> r == Some(b.bids@[0].price)
            }),
    {
        match self.find_market(pair) {
            None => None,
            Some(i) => {
                proof {
                    let w = market_index(self.markets@, pair.key());
                    assert(has_market(self.markets@, pair.key()));
                    assert(0 <= w < self.markets@.len() && self.markets@[w].pair.key()
                        == pair.key());
                    assert(w == i as int);
                }
                self.markets[i].book.best_bid()
            },
        }
    }

    /// The lowest resident ask price in the pair's book; `None` when the
    /// pair is unregistered or no ask rests.
    pub fn query_best_ask(&self, pair: &TradingPair) -> (r: Option<Price>)
        requires
            self.wf(),
        ensures
            !has_market(self.markets@, pair.key()) ==> r == None::<Price>,
            has_market(self.markets@, pair.key()) ==> ({
                let b = self.markets@[market_index(self.markets@, pair.key())].book;
                &&& b.asks@.len() == 0 ==> r == None::<Price>
                &&& b.asks@.len() > 0 ==> r == Some(b.asks@[0].price)
            }),
    {
        match self.find_market(pair) {
            None => None,
            Some(i) => {
                proof {
                    let w = market_index(self.markets@, pair.key());
                    assert(has_market(self.markets@, pair.key()));
                    assert(0 <= w < self.markets@.len() && self.markets@[w].pair.key()
                        == pair.key());
                    assert(w == i as int);
                }
                self.markets[i].book.best_ask()
            },
        }
    }
}

} // verus!
