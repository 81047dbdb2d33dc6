use vstd::prelude::*;
use crate::errors::EngineError;
use crate::level::{
    fill_queue, lemma_fill_queue_matched_bounds, lemma_fill_queue_matched_min,
    lemma_fill_queue_shape, lemma_queue_volume_nonneg, queue_live, queue_side, queue_volume,
    LevelModel, Limit, RestingOrder, Trade,
};
use crate::order::{BidOrAsk, Order};
use crate::price::Price;

verus! {

/// Which of two prices executes first for resting orders of a side:
/// the lowest ask and the highest bid are matched first.
pub open spec fn price_better(a: Price, b: Price, side: BidOrAsk) -> bool {
    match side {
        BidOrAsk::Ask => a.units < b.units,
        BidOrAsk::Bid => a.units > b.units,
    }
}

/// A level the book may hold: at least one resting order, every order
/// live, and every order on the level's side.
pub open spec fn level_ok(l: LevelModel, side: BidOrAsk) -> bool {
    &&& l.orders.len() > 0
    &&& queue_live(l.orders)
    &&& queue_side(l.orders, side)
}

/// One side of a book: well-formed levels in strict execution priority
/// order (ascending prices for asks, descending for bids), one level per
/// price.
pub open spec fn levels_wf(levels: Seq<LevelModel>, side: BidOrAsk) -> bool {
    &&& forall|i: int| 0 <= i < levels.len() ==> level_ok(#[trigger] levels[i], side)
    &&& forall|i: int, j: int|
        0 <= i < j < levels.len() ==> price_better(
            (#[trigger] levels[i]).price,
            (#[trigger] levels[j]).price,
            side,
        )
}

/// The mathematical view of one side of a book.
pub open spec fn side_model(levels: Seq<Limit>) -> Seq<LevelModel> {
    levels.map_values(|l: Limit| l@)
}

/// The total resting volume on a side.
pub open spec fn side_volume(levels: Seq<LevelModel>) -> int
    decreases levels.len(),
{
    if levels.len() == 0 {
        0
    } else {
        queue_volume(levels[0].orders) + side_volume(levels.drop_first())
    }
}

pub proof fn lemma_side_volume_nonneg(levels: Seq<LevelModel>)
    ensures
        side_volume(levels) >= 0,
    decreases levels.len(),
{
    if levels.len() > 0 {
        lemma_queue_volume_nonneg(levels[0].orders);
        lemma_side_volume_nonneg(levels.drop_first());
    }
}

/// The outcome of matching an incoming quantity against one side.
pub struct SideFill {
    /// The side afterwards: levels consumed in priority order, levels left
    /// with no resting order removed.
    pub levels: Seq<LevelModel>,
    /// The total quantity matched.
    pub matched: int,
    /// Every trade executed, in execution order.
    pub trades: Seq<Trade>,
}

/// Matching `q` units against a side whose levels stand in execution
/// priority order: the best level is consumed first, strictly FIFO within
/// it; a level left empty is removed; matching stops as soon as `q` is
/// exhausted or no level is left.
pub open spec fn fill_levels(levels: Seq<LevelModel>, q: int) -> SideFill
    decreases levels.len(),
{
    if levels.len() == 0 || q <= 0 {
        SideFill { levels, matched: 0, trades: Seq::empty() }
    } else {
        let f = fill_queue(levels[0].orders, levels[0].price, q);
        let rest = fill_levels(levels.drop_first(), q - f.matched);
        let out = if f.orders.len() == 0 {
            rest.levels
        } else {
            seq![LevelModel { price: levels[0].price, orders: f.orders }] + rest.levels
        };
        SideFill { levels: out, matched: f.matched + rest.matched, trades: f.trades + rest.trades }
    }
}

/// What a market-order fill does to a side: it matches exactly
/// `min(q, resting volume)`, removes exactly the volume it matched, keeps
/// the side well formed, and never leaves an empty level behind.
pub proof fn lemma_fill_levels_props(levels: Seq<LevelModel>, q: int, side: BidOrAsk)
    requires
        q >= 0,
        levels_wf(levels, side),
    ensures
        fill_levels(levels, q).matched == vstd::math::min(q, side_volume(levels)),
        levels_wf(fill_levels(levels, q).levels, side),
        side_volume(fill_levels(levels, q).levels) == side_volume(levels) - fill_levels(
            levels,
            q,
        ).matched,
        forall|k: int|
            0 <= k < fill_levels(levels, q).levels.len() ==> exists|j: int|
                0 <= j < levels.len() && levels[j].price == (#[trigger] fill_levels(
                    levels,
                    q,
                ).levels[k]).price,
    decreases levels.len(),
{
    lemma_side_volume_nonneg(levels);
    if levels.len() == 0 || q <= 0 {
    } else {
        let l0 = levels[0];
        let rest_in = levels.drop_first();
        assert(forall|j: int| 0 <= j < rest_in.len() ==> rest_in[j] == levels[j + 1]);
        assert(level_ok(l0, side));
        let f = fill_queue(l0.orders, l0.price, q);
        lemma_fill_queue_matched_min(l0.orders, l0.price, q);
        lemma_fill_queue_matched_bounds(l0.orders, l0.price, q);
        lemma_fill_queue_shape(l0.orders, l0.price, q, side);
        lemma_queue_volume_nonneg(l0.orders);
        assert(levels_wf(rest_in, side));
        lemma_fill_levels_props(rest_in, q - f.matched, side);
        lemma_side_volume_nonneg(rest_in);
        let rest = fill_levels(rest_in, q - f.matched);
        let out = fill_levels(levels, q).levels;
        assert(side_volume(levels) == queue_volume(l0.orders) + side_volume(rest_in));
        if f.orders.len() == 0 {
            assert(out == rest.levels);
        } else {
            let l0p = LevelModel { price: l0.price, orders: f.orders };
            assert(out == seq![l0p] + rest.levels);
            assert(out[0] == l0p);
            assert(forall|k: int| 1 <= k < out.len() ==> out[k] == rest.levels[k - 1]);
            assert(out.drop_first() =~= rest.levels);
            assert(side_volume(out) == queue_volume(f.orders) + side_volume(rest.levels));
            assert(level_ok(l0p, side));
            assert forall|k: int| 1 <= k < out.len() implies price_better(
                out[0].price,
                out[k].price,
                side,
            ) by {
                let j = choose|j: int|
                    0 <= j < rest_in.len() && rest_in[j].price == rest.levels[k - 1].price;
                assert(price_better(l0.price, rest_in[j].price, side));
            }
            assert forall|k: int|
                0 <= k < out.len() implies exists|j: int|
                0 <= j < levels.len() && (#[trigger] levels[j]).price == (#[trigger] out[k]).price by {
                if k == 0 {
                    assert(levels[0].price == out[0].price);
                } else {
                    let j = choose|j: int|
                        0 <= j < rest_in.len() && rest_in[j].price == rest.levels[k - 1].price;
                    assert(levels[j + 1].price == out[k].price);
                }
            }
        }
    }
}

/// Price priority: a market order consumes the best level first, and a
/// worse level is touched only with what is left after every better level
/// is exhausted. In particular, while the best level can cover the whole
/// incoming quantity, it alone is traded against.
pub proof fn lemma_price_priority(levels: Seq<LevelModel>, q: int, side: BidOrAsk)
    requires
        q >= 0,
        levels.len() > 0,
        levels_wf(levels, side),
    ensures
        fill_levels(levels, q).trades == fill_queue(levels[0].orders, levels[0].price, q).trades
            + fill_levels(
            levels.drop_first(),
            q - fill_queue(levels[0].orders, levels[0].price, q).matched,
        ).trades,
        q <= queue_volume(levels[0].orders) ==> fill_levels(levels, q).trades == fill_queue(
            levels[0].orders,
            levels[0].price,
            q,
        ).trades,
{
    let f = fill_queue(levels[0].orders, levels[0].price, q);
    if q <= 0 {
        assert(fill_levels(levels, q).trades =~= f.trades + fill_levels(
            levels.drop_first(),
            q - f.matched,
        ).trades);
        assert(fill_levels(levels, q).trades =~= f.trades);
    } else {
        lemma_fill_queue_matched_min(levels[0].orders, levels[0].price, q);
        if q <= queue_volume(levels[0].orders) {
            assert(f.matched == q);
            assert(fill_levels(levels.drop_first(), 0).trades == Seq::<Trade>::empty());
            assert(fill_levels(levels, q).trades =~= f.trades);
        }
    }
}

/// Inserting a resting order at a price on a side held in priority order:
/// an existing level at that exact price takes the order at its tail;
/// otherwise a fresh level is created at the position its price ranks.
pub open spec fn add_to_levels(
    levels: Seq<LevelModel>,
    price: Price,
    ro: RestingOrder,
    side: BidOrAsk,
) -> Seq<LevelModel>
    decreases levels.len(),
{
    if levels.len() == 0 {
        seq![LevelModel { price, orders: seq![ro] }]
    } else if levels[0].price == price {
        seq![LevelModel { price: levels[0].price, orders: levels[0].orders.push(ro) }]
            + levels.drop_first()
    } else if price_better(price, levels[0].price, side) {
        seq![LevelModel { price, orders: seq![ro] }] + levels
    } else {
        seq![levels[0]] + add_to_levels(levels.drop_first(), price, ro, side)
    }
}

/// Insertion keeps a side well formed, and its volume grows by exactly the
/// order's remaining size.
pub proof fn lemma_add_to_levels_wf(
    levels: Seq<LevelModel>,
    price: Price,
    ro: RestingOrder,
    side: BidOrAsk,
)
    requires
        levels_wf(levels, side),
        crate::level::resting_live(ro),
        ro.order.bid_or_ask == side,
    ensures
        levels_wf(add_to_levels(levels, price, ro, side), side),
        side_volume(add_to_levels(levels, price, ro, side)) == side_volume(levels)
            + ro.order.remaining_size,
        forall|k: int|
            0 <= k < add_to_levels(levels, price, ro, side).len() ==> (#[trigger] add_to_levels(
                levels,
                price,
                ro,
                side,
            )[k]).price == price || exists|j: int|
                0 <= j < levels.len() && levels[j].price == add_to_levels(
                    levels,
                    price,
                    ro,
                    side,
                )[k].price,
    decreases levels.len(),
{
    let out = add_to_levels(levels, price, ro, side);
    if levels.len() == 0 {
        assert(out[0].orders =~= seq![ro]);
        assert(out.drop_first() =~= Seq::<LevelModel>::empty());
        assert(queue_volume(seq![ro]) == ro.order.remaining_size + queue_volume(
            seq![ro].drop_first(),
        ));
        assert(seq![ro].drop_first() =~= Seq::<RestingOrder>::empty());
        assert(side_volume(out) == queue_volume(seq![ro]) + side_volume(out.drop_first()));
    } else if levels[0].price == price {
        let l0p = LevelModel { price: levels[0].price, orders: levels[0].orders.push(ro) };
        assert(out == seq![l0p] + levels.drop_first());
        assert(out[0] == l0p);
        assert(forall|k: int| 1 <= k < out.len() ==> out[k] == levels[k - 1 + 1]);
        crate::level::lemma_queue_volume_push(levels[0].orders, ro);
        assert(level_ok(l0p, side));
        assert(out.drop_first() =~= levels.drop_first());
        assert(side_volume(out) == queue_volume(l0p.orders) + side_volume(levels.drop_first()));
        assert(side_volume(levels) == queue_volume(levels[0].orders) + side_volume(
            levels.drop_first(),
        ));
    } else if price_better(price, levels[0].price, side) {
        let fresh = LevelModel { price, orders: seq![ro] };
        assert(out == seq![fresh] + levels);
        assert(out[0] == fresh);
        assert(forall|k: int| 1 <= k < out.len() ==> out[k] == levels[k - 1]);
        assert(queue_volume(seq![ro]) == ro.order.remaining_size + queue_volume(
            seq![ro].drop_first(),
        ));
        assert(seq![ro].drop_first() =~= Seq::<RestingOrder>::empty());
        assert(out.drop_first() =~= levels);
        assert(side_volume(out) == queue_volume(fresh.orders) + side_volume(levels));
    } else {
        let rest_in = levels.drop_first();
        assert(forall|j: int| 0 <= j < rest_in.len() ==> rest_in[j] == levels[j + 1]);
        assert(levels_wf(rest_in, side));
        lemma_add_to_levels_wf(rest_in, price, ro, side);
        let rest_out = add_to_levels(rest_in, price, ro, side);
        assert(out == seq![levels[0]] + rest_out);
        assert(out[0] == levels[0]);
        assert(forall|k: int| 1 <= k < out.len() ==> out[k] == rest_out[k - 1]);
        // levels[0] is strictly better than the inserted price and than
        // every price already behind it, so priority order is kept.
        assert(!price_better(price, levels[0].price, side) && levels[0].price != price);
        assert(price_better(levels[0].price, price, side));
        assert forall|k: int| 1 <= k < out.len() implies price_better(
            out[0].price,
            out[k].price,
            side,
        ) by {
            if rest_out[k - 1].price == price {
            } else {
                let j = choose|j: int|
                    0 <= j < rest_in.len() && rest_in[j].price == rest_out[k - 1].price;
                assert(price_better(levels[0].price, rest_in[j].price, side));
            }
        }
        assert(out.drop_first() =~= rest_out);
        assert(side_volume(out) == queue_volume(levels[0].orders) + side_volume(rest_out));
        assert(side_volume(levels) == queue_volume(levels[0].orders) + side_volume(rest_in));
        assert forall|k: int|
            0 <= k < out.len() implies ((#[trigger] out[k]).price == price || exists|j: int|
            0 <= j < levels.len() && (#[trigger] levels[j]).price == out[k].price) by {
            if k == 0 {
                assert(levels[0].price == out[0].price);
            } else if rest_out[k - 1].price != price {
                let j = choose|j: int|
                    0 <= j < rest_in.len() && rest_in[j].price == rest_out[k - 1].price;
                assert(levels[j + 1].price == out[k].price);
            }
        }
    }
}

/// Where `add_to_levels` lands: if a scan from the front passes only
/// strictly better levels and stops at position `i` (an equal price, a
/// worse price, or the end), the insertion is an update at `i` or an
/// insert before `i`.
pub proof fn lemma_add_to_levels_at(
    levels: Seq<LevelModel>,
    price: Price,
    ro: RestingOrder,
    side: BidOrAsk,
    i: int,
)
    requires
        0 <= i <= levels.len(),
        forall|j: int|
            0 <= j < i ==> (#[trigger] levels[j]).price != price && !price_better(
                price,
                levels[j].price,
                side,
            ),
        i < levels.len() ==> (levels[i].price == price || price_better(
            price,
            levels[i].price,
            side,
        )),
    ensures
        i < levels.len() && levels[i].price == price ==> add_to_levels(levels, price, ro, side)
            == levels.update(
            i,
            LevelModel { price: levels[i].price, orders: levels[i].orders.push(ro) },
        ),
        !(i < levels.len() && levels[i].price == price) ==> add_to_levels(levels, price, ro, side)
            == levels.insert(i, LevelModel { price, orders: seq![ro] }),
    decreases levels.len(),
{
    let out = add_to_levels(levels, price, ro, side);
    if i == 0 {
        if levels.len() == 0 {
            levels.insert_ensures(0, LevelModel { price, orders: seq![ro] });
            assert(out =~= levels.insert(0, LevelModel { price, orders: seq![ro] }));
        } else if levels[0].price == price {
            let upd = LevelModel { price: levels[0].price, orders: levels[0].orders.push(ro) };
            assert(out =~= levels.update(0, upd));
        } else {
            let fresh = LevelModel { price, orders: seq![ro] };
            levels.insert_ensures(0, fresh);
            assert(out =~= levels.insert(0, fresh));
        }
    } else {
        let rest = levels.drop_first();
        assert(forall|j: int| 0 <= j < rest.len() ==> rest[j] == levels[j + 1]);
        assert(levels[0].price != price && !price_better(price, levels[0].price, side));
        lemma_add_to_levels_at(rest, price, ro, side, i - 1);
        assert(out == seq![levels[0]] + add_to_levels(rest, price, ro, side));
        if i < levels.len() && levels[i].price == price {
            let upd = LevelModel { price: levels[i].price, orders: levels[i].orders.push(ro) };
            assert(rest[i - 1] == levels[i]);
            assert(out =~= levels.update(i, upd));
        } else {
            let fresh = LevelModel { price, orders: seq![ro] };
            rest.insert_ensures(i - 1, fresh);
            levels.insert_ensures(i, fresh);
            assert(out =~= levels.insert(i, fresh));
        }
    }
}

/// A full record of one market-order fill: every trade in execution
/// order, the total quantity matched, and whether the incoming order was
/// filled whole.
#[derive(Debug)]
pub struct TradeReport {
    pub fills: Vec<Trade>,
    pub total_matched: u64,
    pub fully_filled: bool,
}

/// The two-sided book of one instrument: ask levels in ascending and bid
/// levels in descending price order, and the counter handing out resting
/// order identities.
#[derive(Debug)]
pub struct OrderBook {
    pub asks: Vec<Limit>,
    pub bids: Vec<Limit>,
    pub next_order_id: u64,
}

/// Two books with the same contents.
pub open spec fn book_unchanged(a: OrderBook, b: OrderBook) -> bool {
    &&& b.asks@ == a.asks@
    &&& b.bids@ == a.bids@
    &&& b.next_order_id == a.next_order_id
}

/// What resting a limit order does to a book `a`, leaving `b`: an order
/// with nothing remaining is rejected unchanged; otherwise it is placed on
/// its side under the identity `a` was about to hand out, and that is what
/// the call returns.
pub open spec fn limit_add_post(
    a: OrderBook,
    b: OrderBook,
    price: Price,
    order: Order,
    r: Result<u64, EngineError>,
) -> bool {
    if order.remaining_size == 0 {
        r == Err::<u64, EngineError>(EngineError::InvalidOrder) && book_unchanged(a, b)
    } else {
        let ro = RestingOrder { id: a.next_order_id, order };
        &&& r == Ok::<u64, EngineError>(a.next_order_id)
        &&& b.next_order_id as int == (if a.next_order_id < u64::MAX {
            a.next_order_id + 1
        } else {
            u64::MAX as int
        })
        &&& (order.bid_or_ask == BidOrAsk::Bid ==> b.bids_model() == add_to_levels(
            a.bids_model(),
            price,
            ro,
            BidOrAsk::Bid,
        ) && b.asks@ == a.asks@)
        &&& (order.bid_or_ask == BidOrAsk::Ask ==> b.asks_model() == add_to_levels(
            a.asks_model(),
            price,
            ro,
            BidOrAsk::Ask,
        ) && b.bids@ == a.bids@)
    }
}

/// What filling a market order `before` does to a book `a`, leaving `b`:
/// the opposite side is consumed in priority order and the report records
/// every trade in execution order, the total matched, and whether the
/// order was filled whole.
pub open spec fn market_fill_report_post(
    a: OrderBook,
    b: OrderBook,
    before: Order,
    report: TradeReport,
) -> bool {
    let q0 = before.remaining_size as int;
    let opp = if before.bid_or_ask == BidOrAsk::Bid {
        a.asks_model()
    } else {
        a.bids_model()
    };
    let f = fill_levels(opp, q0);
    &&& b.next_order_id == a.next_order_id
    &&& (before.bid_or_ask == BidOrAsk::Bid ==> b.asks_model() == f.levels && b.bids@ == a.bids@)
    &&& (before.bid_or_ask == BidOrAsk::Ask ==> b.bids_model() == f.levels && b.asks@ == a.asks@)
    &&& report.fills@ == f.trades
    &&& report.total_matched == f.matched
    &&& report.fully_filled == (f.matched == q0)
}

/// As `market_fill_report_post`, and in addition how the incoming order
/// itself comes out: its remaining size drops by exactly the matched
/// total.
pub open spec fn market_fill_post(
    a: OrderBook,
    b: OrderBook,
    before: Order,
    after: Order,
    report: TradeReport,
) -> bool {
    let q0 = before.remaining_size as int;
    let opp = if before.bid_or_ask == BidOrAsk::Bid {
        a.asks_model()
    } else {
        a.bids_model()
    };
    let f = fill_levels(opp, q0);
    &&& after.original_size == before.original_size
    &&& after.bid_or_ask == before.bid_or_ask
    &&& after.remaining_size == q0 - f.matched
    &&& market_fill_report_post(a, b, before, report)
}

impl OrderBook {
    /// The mathematical view of the ask side, best (lowest) price first.
    pub open spec fn asks_model(&self) -> Seq<LevelModel> {
        side_model(self.asks@)
    }

    /// The mathematical view of the bid side, best (highest) price first.
    pub open spec fn bids_model(&self) -> Seq<LevelModel> {
        side_model(self.bids@)
    }

    /// The book's invariant: each side well formed in priority order.
    pub open spec fn wf(&self) -> bool {
        &&& levels_wf(self.asks_model(), BidOrAsk::Ask)
        &&& levels_wf(self.bids_model(), BidOrAsk::Bid)
    }

    /// An empty book.
    pub fn new() -> (b: OrderBook)
        ensures
            b.wf(),
            b.asks@ == Seq::<Limit>::empty(),
            b.bids@ == Seq::<Limit>::empty(),
            b.next_order_id == 0,
    {
        OrderBook { asks: Vec::new(), bids: Vec::new(), next_order_id: 0 }
    }

    /// The lowest resident ask price, if any ask rests in the book.
    pub fn best_ask(&self) -> (r: Option<Price>)
        ensures
            self.asks@.len() == 0 ==> r == None::<Price>,
            self.asks@.len() > 0 ==> r == Some(self.asks@[0].price),
    {
        if self.asks.len() == 0 {
            None
        } else {
            Some(self.asks[0].price)
        }
    }

    /// The highest resident bid price, if any bid rests in the book.
    pub fn best_bid(&self) -> (r: Option<Price>)
        ensures
            self.bids@.len() == 0 ==> r == None::<Price>,
            self.bids@.len() > 0 ==> r == Some(self.bids@[0].price),
    {
        if self.bids.len() == 0 {
            None
        } else {
            Some(self.bids[0].price)
        }
    }

    /// The ask levels in execution priority order: ascending price, FIFO
    /// within each level (guaranteed by the book's invariant).
    pub fn ask_limits(&self) -> (r: &Vec<Limit>)
        ensures
            r@ == self.asks@,
    {
        &self.asks
    }

    /// The bid levels in execution priority order: descending price, FIFO
    /// within each level (guaranteed by the book's invariant).
    pub fn bid_limits(&self) -> (r: &Vec<Limit>)
        ensures
            r@ == self.bids@,
    {
        &self.bids
    }

    /// Rests a limit order at `price` on its side of the book, creating
    /// the level if it does not exist yet, and hands back the identity the
    /// book assigned to the order. An order with nothing remaining is
    /// rejected.
    pub fn add_limit_order(&mut self, price: Price, order: Order) -> (r: Result<
        u64,
        EngineError,
    >)
        requires
            old(self).wf(),
            order.remaining_size <= order.original_size,
        ensures
            final(self).wf(),
            limit_add_post(*old(self), *final(self), price, order, r),
    {
        if order.remaining_size == 0 {
            return Err(EngineError::InvalidOrder);
        }
        let id = self.next_order_id;
        self.next_order_id = if id < u64::MAX {
            id + 1
        } else {
            u64::MAX
        };
        match order.bid_or_ask {
            BidOrAsk::Bid => insert_level(&mut self.bids, price, id, order, BidOrAsk::Bid),
            BidOrAsk::Ask => insert_level(&mut self.asks, price, id, order, BidOrAsk::Ask),
        }
        Ok(id)
    }

    /// Matches an incoming market order against the opposite side of the
    /// book: best price first, FIFO within a price, until the order is
    /// filled or liquidity runs out. Levels left empty are removed; the
    /// incoming order is never added to the book.
    pub fn fill_market_order(&mut self, market_order: &mut Order) -> (report: TradeReport)
        requires
            old(self).wf(),
        ensures
            final(self).wf(),
            market_fill_post(
                *old(self),
                *final(self),
                *old(market_order),
                *final(market_order),
                report,
            ),
    {
        let before = market_order.remaining_size;
        let trades = match market_order.bid_or_ask {
            BidOrAsk::Bid => fill_side(&mut self.asks, market_order, Ghost(BidOrAsk::Ask)),
            BidOrAsk::Ask => fill_side(&mut self.bids, market_order, Ghost(BidOrAsk::Bid)),
        };
        let total_matched = before - market_order.remaining_size;
        let fully_filled = market_order.remaining_size == 0;
        TradeReport { fills: trades, total_matched, fully_filled }
    }
}

/// Scans for where `price` ranks on a side held in priority order:
/// returns the first position not strictly better than `price`, and
/// whether that position is a level at exactly `price`.
fn find_slot(levels: &Vec<Limit>, price: Price, side: BidOrAsk) -> (r: (usize, bool))
    ensures
        ({
            let (i, eq) = r;
            let m = side_model(levels@);
            &&& i <= m.len()
            &&& forall|j: int|
                0 <= j < i ==> (#[trigger] m[j]).price != price && !price_better(
                    price,
                    m[j].price,
                    side,
                )
            &&& (eq ==> i < m.len() && m[i as int].price == price)
            &&& (!eq ==> i == m.len() || price_better(price, m[i as int].price, side))
        }),
{
    let n: usize = levels.len();
    let mut i: usize = 0;
    while i < n
        invariant
            i <= n == levels@.len(),
            forall|j: int|
                0 <= j < i ==> (#[trigger] side_model(levels@)[j]).price != price
                    && !price_better(price, side_model(levels@)[j].price, side),
        decreases n - i,
    {
        let cur: Price = levels[i].price;
        if cur.units == price.units {
            return (i, true);
        }
        let better: bool = match side {
            BidOrAsk::Ask => price.units < cur.units,
            BidOrAsk::Bid => price.units > cur.units,
        };
        if better {
            return (i, false);
        }
        i = i + 1;
    }
    (n, false)
}

/// Places a resting order on one side of the book, keeping the side's
/// priority order: an existing level at the same price takes it at the
/// tail, otherwise a fresh level is created where its price ranks.
fn insert_level(levels: &mut Vec<Limit>, price: Price, id: u64, order: Order, side: BidOrAsk)
    requires
        levels_wf(side_model(old(levels)@), side),
        order.bid_or_ask == side,
        0 < order.remaining_size <= order.original_size,
    ensures
        side_model(final(levels)@) == add_to_levels(
            side_model(old(levels)@),
            price,
            RestingOrder { id, order },
            side,
        ),
        levels_wf(side_model(final(levels)@), side),
{
    let ghost m0 = side_model(levels@);
    let ghost ro = RestingOrder { id, order };
    proof {
        lemma_add_to_levels_wf(m0, price, ro, side);
    }
    let (i, eq) = find_slot(levels, price, side);
    proof {
        lemma_add_to_levels_at(m0, price, ro, side, i as int);
    }
    if eq {
        let mut lvl = levels.remove(i);
        lvl.add_order(id, order);
        levels.insert(i, lvl);
        proof {
            m0.update(
                i as int,
                LevelModel { price: m0[i as int].price, orders: m0[i as int].orders.push(ro) },
            );
            old(levels)@.remove_ensures(i as int);
            old(levels)@.remove(i as int).insert_ensures(i as int, lvl);
            assert(side_model(levels@) =~= m0.update(
                i as int,
                LevelModel { price: m0[i as int].price, orders: m0[i as int].orders.push(ro) },
            ));
        }
    } else {
        let mut lvl = Limit::new(price);
        lvl.add_order(id, order);
        levels.insert(i, lvl);
        proof {
            old(levels)@.insert_ensures(i as int, lvl);
            m0.insert_ensures(i as int, LevelModel { price, orders: seq![ro] });
            assert(lvl@.orders =~= seq![ro]);
            assert(side_model(levels@) =~= m0.insert(
                i as int,
                LevelModel { price, orders: seq![ro] },
            ));
        }
    }
}

/// Matches the incoming order against a side's levels, best first,
/// removing each level it empties, until the order is filled or no level
/// is left.
fn fill_side(
    levels: &mut Vec<Limit>,
    market_order: &mut Order,
    Ghost(side): Ghost<BidOrAsk>,
) -> (trades: Vec<Trade>)
    requires
        levels_wf(side_model(old(levels)@), side),
    ensures
        ({
            let q0 = old(market_order).remaining_size as int;
            let f = fill_levels(side_model(old(levels)@), q0);
            &&& side_model(final(levels)@) == f.levels
            &&& levels_wf(side_model(final(levels)@), side)
            &&& trades@ == f.trades
            &&& final(market_order).remaining_size == q0 - f.matched
            &&& final(market_order).remaining_size <= old(market_order).remaining_size
            &&& final(market_order).original_size == old(market_order).original_size
            &&& final(market_order).bid_or_ask == old(market_order).bid_or_ask
        }),
{
    let ghost m0 = side_model(levels@);
    let ghost q0: int = market_order.remaining_size as int;
    let mut trades: Vec<Trade> = Vec::new();
    proof {
        lemma_fill_levels_props(m0, q0, side);
        let f0 = fill_levels(m0, q0);
        assert(Seq::<Trade>::empty() + f0.trades =~= f0.trades);
    }
    loop
        invariant
            market_order.remaining_size as int <= q0,
            market_order.original_size == old(market_order).original_size,
            market_order.bid_or_ask == old(market_order).bid_or_ask,
            levels_wf(side_model(levels@), side),
            ({
                let qc = market_order.remaining_size as int;
                let rest = fill_levels(side_model(levels@), qc);
                let f0 = fill_levels(m0, q0);
                &&& f0.levels == rest.levels
                &&& f0.matched == q0 - qc + rest.matched
                &&& f0.trades == trades@ + rest.trades
            }),
        ensures
            market_order.remaining_size == 0 || levels@.len() == 0,
        decreases market_order.remaining_size,
    {
        if market_order.remaining_size == 0 {
            break ;
        }
        if levels.len() == 0 {
            break ;
        }
        let ghost m = side_model(levels@);
        let ghost qc: int = market_order.remaining_size as int;
        let ghost pre_trades = trades@;
        let mut lvl = levels.remove(0);
        let mut tr = lvl.fill_order(market_order);
        trades.append(&mut tr);
        let ghost f = fill_queue(m[0].orders, m[0].price, qc);
        proof {
            assert(m.len() == levels@.len() + 1);
            assert(forall|k: int|
                0 <= k < levels@.len() ==> #[trigger] side_model(levels@)[k] == m[k + 1]);
            assert(side_model(levels@) =~= m.drop_first());
            assert(levels_wf(m.drop_first(), side));
            assert(lvl@.orders == f.orders);
            assert(lvl@.price == m[0].price);
            assert(trades@ == pre_trades + f.trades);
            lemma_fill_queue_matched_bounds(m[0].orders, m[0].price, qc);
            lemma_fill_queue_matched_min(m[0].orders, m[0].price, qc);
            lemma_fill_queue_shape(m[0].orders, m[0].price, qc, side);
            assert(crate::level::resting_live(m[0].orders[0]));
            lemma_queue_volume_nonneg(m[0].orders.drop_first());
            assert(queue_volume(m[0].orders) > 0);
            assert(f.matched > 0);
        }
        if lvl.orders.len() > 0 {
            levels.insert(0, lvl);
            proof {
                // the level was not exhausted, so the incoming order was
                assert(queue_volume(m[0].orders) > qc);
                assert(f.matched == qc);
                assert(market_order.remaining_size == 0);
                let m1 = side_model(levels@);
                assert(m1 =~= seq![lvl@] + m.drop_first());
                assert(fill_levels(m1, 0).levels == m1);
                assert(fill_levels(m.drop_first(), 0).levels == m.drop_first());
                assert(fill_levels(m, qc).levels == seq![
                    LevelModel { price: m[0].price, orders: f.orders },
                ] + m.drop_first());
                assert(seq![LevelModel { price: m[0].price, orders: f.orders }] + m.drop_first()
                    =~= m1);
                assert(fill_levels(m, qc).trades =~= f.trades);
                assert(fill_levels(m, qc).matched == f.matched);
                assert(levels_wf(m1, side)) by {
                    assert(level_ok(m1[0], side));
                    assert(forall|k: int| 1 <= k < m1.len() ==> m1[k] == m.drop_first()[k - 1]);
                    assert(forall|k: int|
                        1 <= k < m.len() ==> price_better(
                            m[0].price,
                            (#[trigger] m[k]).price,
                            side,
                        ));
                };
            }
        } else {
            proof {
                let m1 = side_model(levels@);
                assert(m1 == m.drop_first());
                let qn = market_order.remaining_size as int;
                assert(qn == qc - f.matched);
                assert(fill_levels(m, qc).levels == fill_levels(m1, qn).levels);
                assert(fill_levels(m, qc).matched == f.matched + fill_levels(m1, qn).matched);
                assert(fill_levels(m, qc).trades == f.trades + fill_levels(m1, qn).trades);
            }
        }
        proof {
            let qn = market_order.remaining_size as int;
            let m1 = side_model(levels@);
            let restn = fill_levels(m1, qn);
            let f0 = fill_levels(m0, q0);
            assert(fill_levels(m, qc).trades == f.trades + restn.trades) by {
                if lvl@.orders.len() > 0 {
                    assert(restn.trades == Seq::<Trade>::empty());
                    assert(f.trades + Seq::<Trade>::empty() =~= f.trades);
                }
            };
            assert(f0.trades == trades@ + restn.trades) by {
                assert(f0.trades == pre_trades + fill_levels(m, qc).trades);
                assert(pre_trades + (f.trades + restn.trades) =~= (pre_trades + f.trades)
                    + restn.trades);
            };
            assert(fill_levels(m, qc).matched == f.matched + restn.matched) by {
                if lvl@.orders.len() > 0 {
                    assert(restn.matched == 0);
                }
            };
        }
    }
    proof {
        let qc = market_order.remaining_size as int;
        let rest = fill_levels(side_model(levels@), qc);
        assert(rest.levels == side_model(levels@));
        assert(rest.matched == 0);
        assert(trades@ + rest.trades =~= trades@);
    }
    trades
}

} // verus!
