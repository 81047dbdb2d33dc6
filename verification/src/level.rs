use vstd::prelude::*;
use crate::order::{BidOrAsk, Order};
use crate::price::Price;

verus! {

/// An order resting in the book, tagged with the identity the book
/// assigned to it at insertion, so fills can be reported against it.
#[derive(Clone, Copy, Debug, PartialEq, Eq, Structural)]
pub struct RestingOrder {
    pub id: u64,
    pub order: Order,
}

/// One executed match: the resting order touched, the level's price, and
/// the quantity matched against it.
#[derive(Clone, Copy, Debug, PartialEq, Eq, Structural)]
pub struct Trade {
    pub order_id: u64,
    pub price: Price,
    pub quantity: u64,
}

/// The FIFO queue of resting orders at one exact price; insertion order is
/// arrival order is fill-priority order.
#[derive(Debug)]
pub struct Limit {
    pub price: Price,
    pub orders: Vec<RestingOrder>,
}

/// The mathematical view of a price level.
pub struct LevelModel {
    pub price: Price,
    pub orders: Seq<RestingOrder>,
}

impl View for Limit {
    type V = LevelModel;

    open spec fn view(&self) -> LevelModel {
        LevelModel { price: self.price, orders: self.orders@ }
    }
}

/// A live resting order: something remains, and no more than was asked.
pub open spec fn resting_live(ro: RestingOrder) -> bool {
    0 < ro.order.remaining_size <= ro.order.original_size
}

/// Every order in the queue is live.
pub open spec fn queue_live(orders: Seq<RestingOrder>) -> bool {
    forall|j: int| 0 <= j < orders.len() ==> resting_live(#[trigger] orders[j])
}

/// Every order in the queue rests on the given side.
pub open spec fn queue_side(orders: Seq<RestingOrder>, side: BidOrAsk) -> bool {
    forall|j: int| 0 <= j < orders.len() ==> (#[trigger] orders[j]).order.bid_or_ask == side
}

/// The total quantity still unmatched across a queue of resting orders.
pub open spec fn queue_volume(orders: Seq<RestingOrder>) -> int
    decreases orders.len(),
{
    if orders.len() == 0 {
        0
    } else {
        orders[0].order.remaining_size + queue_volume(orders.drop_first())
    }
}

/// The outcome of matching an incoming quantity against one FIFO queue.
pub struct QueueFill {
    /// The queue afterwards: fully filled orders removed, a partially
    /// filled head updated in place, untouched orders unchanged.
    pub orders: Seq<RestingOrder>,
    /// The total quantity matched.
    pub matched: int,
    /// One trade per resting order touched, in the order they were touched.
    pub trades: Seq<Trade>,
}

/// Matching `q` units against a FIFO queue at `price`: orders are consumed
/// strictly front to back; an order is removed once nothing of it remains;
/// matching stops as soon as `q` is exhausted.
pub open spec fn fill_queue(orders: Seq<RestingOrder>, price: Price, q: int) -> QueueFill
    decreases orders.len(),
{
    if orders.len() == 0 || q <= 0 {
        QueueFill { orders, matched: 0, trades: Seq::empty() }
    } else {
        let head = orders[0];
        let r = head.order.remaining_size as int;
        if r == 0 {
            // A stale, already-filled entry is dropped without a trade.
            fill_queue(orders.drop_first(), price, q)
        } else if r <= q {
            // The head is consumed whole and leaves the queue.
            let rest = fill_queue(orders.drop_first(), price, q - r);
            QueueFill {
                orders: rest.orders,
                matched: r + rest.matched,
                trades: seq![
                    Trade { order_id: head.id, price, quantity: head.order.remaining_size },
                ] + rest.trades,
            }
        } else {
            // The head absorbs all of `q` and stays, reduced.
            let updated = RestingOrder {
                id: head.id,
                order: Order {
                    bid_or_ask: head.order.bid_or_ask,
                    original_size: head.order.original_size,
                    remaining_size: (r - q) as u64,
                },
            };
            QueueFill {
                orders: seq![updated] + orders.drop_first(),
                matched: q,
                trades: seq![Trade { order_id: head.id, price, quantity: q as u64 }],
            }
        }
    }
}

/// A queue's volume is never negative.
pub proof fn lemma_queue_volume_nonneg(orders: Seq<RestingOrder>)
    ensures
        queue_volume(orders) >= 0,
    decreases orders.len(),
{
    if orders.len() > 0 {
        lemma_queue_volume_nonneg(orders.drop_first());
    }
}

/// Appending an order grows the queue's volume by exactly that order's
/// remaining size: total volume is the sum of the inserted sizes.
pub proof fn lemma_queue_volume_push(orders: Seq<RestingOrder>, ro: RestingOrder)
    ensures
        queue_volume(orders.push(ro)) == queue_volume(orders) + ro.order.remaining_size,
    decreases orders.len(),
{
    let p = orders.push(ro);
    assert(p.len() == orders.len() + 1);
    assert(queue_volume(p) == p[0].order.remaining_size + queue_volume(p.drop_first()));
    if orders.len() == 0 {
        assert(p[0] == ro);
        assert(p.drop_first() =~= Seq::<RestingOrder>::empty());
        assert(queue_volume(Seq::<RestingOrder>::empty()) == 0);
    } else {
        assert(p[0] == orders[0]);
        assert(p.drop_first() =~= orders.drop_first().push(ro));
        lemma_queue_volume_push(orders.drop_first(), ro);
        assert(queue_volume(orders) == orders[0].order.remaining_size + queue_volume(
            orders.drop_first(),
        ));
    }
}

/// A fill never matches more than was asked, nor a negative amount.
pub proof fn lemma_fill_queue_matched_bounds(orders: Seq<RestingOrder>, price: Price, q: int)
    requires
        q >= 0,
    ensures
        0 <= fill_queue(orders, price, q).matched <= q,
    decreases orders.len(),
{
    if orders.len() > 0 && q > 0 {
        let r = orders[0].order.remaining_size as int;
        if r == 0 {
            lemma_fill_queue_matched_bounds(orders.drop_first(), price, q);
        } else if r <= q {
            lemma_fill_queue_matched_bounds(orders.drop_first(), price, q - r);
        }
    }
}

/// A fill matches exactly `min(q, total volume)`: everything it can.
pub proof fn lemma_fill_queue_matched_min(orders: Seq<RestingOrder>, price: Price, q: int)
    requires
        q >= 0,
    ensures
        fill_queue(orders, price, q).matched == vstd::math::min(q, queue_volume(orders)),
    decreases orders.len(),
{
    lemma_queue_volume_nonneg(orders);
    if orders.len() > 0 && q > 0 {
        let r = orders[0].order.remaining_size as int;
        lemma_queue_volume_nonneg(orders.drop_first());
        if r == 0 {
            lemma_fill_queue_matched_min(orders.drop_first(), price, q);
        } else if r <= q {
            lemma_fill_queue_matched_min(orders.drop_first(), price, q - r);
        }
    }
}

/// What a fill leaves behind: the volume shrinks by exactly the matched
/// amount, live orders stay live, sides are preserved, and the queue comes
/// out empty exactly when the incoming quantity covered its whole volume.
pub proof fn lemma_fill_queue_shape(orders: Seq<RestingOrder>, price: Price, q: int, side: BidOrAsk)
    requires
        q >= 0,
        queue_live(orders),
        queue_side(orders, side),
    ensures
        queue_volume(fill_queue(orders, price, q).orders) == queue_volume(orders) - fill_queue(
            orders,
            price,
            q,
        ).matched,
        queue_live(fill_queue(orders, price, q).orders),
        queue_side(fill_queue(orders, price, q).orders, side),
        fill_queue(orders, price, q).orders.len() == 0 <==> queue_volume(orders) <= q,
    decreases orders.len(),
{
    lemma_queue_volume_nonneg(orders);
    if orders.len() == 0 || q <= 0 {
        if orders.len() > 0 {
            assert(queue_volume(orders) >= orders[0].order.remaining_size > 0) by {
                lemma_queue_volume_nonneg(orders.drop_first());
            };
        }
    } else {
        let rest = orders.drop_first();
        assert(forall|j: int| 0 <= j < rest.len() ==> rest[j] == orders[j + 1]);
        let r = orders[0].order.remaining_size as int;
        assert(r > 0);
        if r <= q {
            lemma_fill_queue_shape(rest, price, q - r, side);
            lemma_queue_volume_nonneg(rest);
        } else {
            let f = fill_queue(orders, price, q);
            assert(f.orders[0].order.remaining_size == r - q);
            assert(forall|j: int| 1 <= j < f.orders.len() ==> f.orders[j] == rest[j - 1]);
            assert(f.orders.drop_first() =~= rest);
            lemma_queue_volume_nonneg(rest);
        }
    }
}

/// FIFO priority: when anything is matched against a queue, the first
/// trade goes to the order at the head, for as much of it as `q` covers;
/// any later order is touched only after the head is fully consumed.
pub proof fn lemma_fill_queue_fifo(orders: Seq<RestingOrder>, price: Price, q: int)
    requires
        q > 0,
        orders.len() > 0,
        resting_live(orders[0]),
    ensures
        fill_queue(orders, price, q).trades.len() > 0,
        fill_queue(orders, price, q).trades[0].order_id == orders[0].id,
        fill_queue(orders, price, q).trades[0].quantity == vstd::math::min(
            q,
            orders[0].order.remaining_size as int,
        ),
        q < orders[0].order.remaining_size ==> fill_queue(orders, price, q).trades.len() == 1,
{
}

/// FIFO priority over a whole fill: against a queue of live orders, the
/// `k`-th trade goes to the `k`-th order in arrival order — never to a
/// later one — and every trade moves a positive quantity at the level's
/// price.
pub proof fn lemma_fill_queue_arrival_order(orders: Seq<RestingOrder>, price: Price, q: int)
    requires
        q >= 0,
        queue_live(orders),
    ensures
        fill_queue(orders, price, q).trades.len() <= orders.len(),
        forall|k: int|
            0 <= k < fill_queue(orders, price, q).trades.len() ==> {
                let t = #[trigger] fill_queue(orders, price, q).trades[k];
                t.order_id == orders[k].id && t.price == price && t.quantity > 0
            },
    decreases orders.len(),
{
    if orders.len() > 0 && q > 0 {
        let rest = orders.drop_first();
        assert(forall|j: int| 0 <= j < rest.len() ==> rest[j] == orders[j + 1]);
        let r = orders[0].order.remaining_size as int;
        assert(resting_live(orders[0]));
        if r <= q {
            lemma_fill_queue_arrival_order(rest, price, q - r);
            let f = fill_queue(orders, price, q);
            let fr = fill_queue(rest, price, q - r);
            assert(forall|k: int| 1 <= k < f.trades.len() ==> f.trades[k] == fr.trades[k - 1]);
        }
    }
}

impl Limit {
    /// A fresh, empty level at the given price.
    pub fn new(price: Price) -> (l: Limit)
        ensures
            l.price == price,
            l.orders@ == Seq::<RestingOrder>::empty(),
    {
        Limit { price, orders: Vec::new() }
    }

    /// Appends an order at the tail of the FIFO queue.
    pub fn add_order(&mut self, id: u64, order: Order)
        ensures
            final(self).price == old(self).price,
            final(self).orders@ == old(self).orders@.push(RestingOrder { id, order }),
    {
        self.orders.push(RestingOrder { id, order });
    }

    /// The sum of the remaining sizes of all resident orders; zero for an
    /// empty level.
    pub fn total_volume(&self) -> (r: u128)
        ensures
            r as int == queue_volume(self.orders@),
    {
        let s = Ghost(self.orders@);
        proof {
            assert(s@.skip(0) =~= s@);
        }
        let mut acc: u128 = 0;
        let mut i: usize = 0;
        let n: usize = self.orders.len();
        while i < n
            invariant
                i <= n == s@.len(),
                self.orders@ == s@,
                acc as int + queue_volume(s@.skip(i as int)) == queue_volume(s@),
                acc as int <= i as int * (u64::MAX as int),
            decreases n - i,
        {
            let entry = self.orders[i];
            proof {
                let sk = s@.skip(i as int);
                assert(sk.len() > 0);
                assert(sk[0] == s@[i as int]);
                assert(sk.drop_first() =~= s@.skip(i as int + 1));
                assert(queue_volume(sk) == entry.order.remaining_size + queue_volume(
                    s@.skip(i as int + 1),
                ));
                lemma_queue_volume_nonneg(s@.skip(i as int + 1));
                lemma_queue_volume_nonneg(s@);
                assert((i as int + 1) * (u64::MAX as int) == i as int * (u64::MAX as int)
                    + u64::MAX as int) by (nonlinear_arith);
                assert(n as int * (u64::MAX as int) < u128::MAX) by (nonlinear_arith)
                    requires n <= usize::MAX;
                assert((i as int + 1) * (u64::MAX as int) <= n as int * (u64::MAX as int))
                    by (nonlinear_arith)
                    requires i as int + 1 <= n as int;
            }
            acc = acc + entry.order.remaining_size as u128;
            i = i + 1;
        }
        proof {
            assert(s@.skip(n as int) =~= Seq::<RestingOrder>::empty());
        }
        acc
    }

    /// Matches the incoming order against this level's queue, strictly in
    /// FIFO order, until the incoming order is filled or the level has no
    /// live order left. Fully filled resting orders leave the queue; the
    /// returned trades record each resting order touched, in order.
    pub fn fill_order(&mut self, market_order: &mut Order) -> (trades: Vec<Trade>)
        ensures
            ({
                let f = fill_queue(
                    old(self).orders@,
                    old(self).price,
                    old(market_order).remaining_size as int,
                );
                &&& final(self).price == old(self).price
                &&& final(self).orders@ == f.orders
                &&& trades@ == f.trades
                &&& final(market_order).remaining_size as int == old(
                    market_order,
                ).remaining_size - f.matched
                &&& final(market_order).original_size == old(market_order).original_size
                &&& final(market_order).bid_or_ask == old(market_order).bid_or_ask
            }),
    {
        let s = Ghost(self.orders@);
        let ghost q0: int = market_order.remaining_size as int;
        let ghost price0 = self.price;
        let mut new_orders: Vec<RestingOrder> = Vec::new();
        let mut trades: Vec<Trade> = Vec::new();
        proof {
            assert(s@.skip(0) =~= s@);
            let f0 = fill_queue(s@, price0, q0);
            assert(Seq::<RestingOrder>::empty() + f0.orders =~= f0.orders);
            assert(Seq::<Trade>::empty() + f0.trades =~= f0.trades);
        }
        let mut i: usize = 0;
        let n: usize = self.orders.len();
        while i < n
            invariant
                i <= n == s@.len(),
                self.orders@ == s@,
                self.price == price0,
                market_order.remaining_size as int <= q0,
                market_order.original_size == old(market_order).original_size,
                market_order.bid_or_ask == old(market_order).bid_or_ask,
                ({
                    let qc = market_order.remaining_size as int;
                    let rest = fill_queue(s@.skip(i as int), price0, qc);
                    let f0 = fill_queue(s@, price0, q0);
                    &&& f0.orders == new_orders@ + rest.orders
                    &&& f0.matched == q0 - qc + rest.matched
                    &&& f0.trades == trades@ + rest.trades
                }),
            decreases n - i,
        {
            let entry = self.orders[i];
            let q_left = market_order.remaining_size;
            proof {
                let sk = s@.skip(i as int);
                assert(sk.len() > 0);
                assert(sk[0] == s@[i as int]);
                assert(sk.drop_first() =~= s@.skip(i as int + 1));
            }
            if q_left == 0 {
                new_orders.push(entry);
                proof {
                    let sk = s@.skip(i as int);
                    let sk1 = s@.skip(i as int + 1);
                    assert(fill_queue(sk, price0, 0).orders == sk);
                    assert(new_orders@ + sk1 =~= new_orders@.drop_last() + sk);
                    assert(new_orders@.drop_last() + sk =~= new_orders@.drop_last() + (seq![
                        entry,
                    ] + sk1));
                    assert(fill_queue(sk, price0, 0).trades =~= fill_queue(
                        sk1,
                        price0,
                        0,
                    ).trades);
                    assert(new_orders@.drop_last() + sk =~= new_orders@ + sk1);
                }
            } else if entry.order.remaining_size == 0 {
                // stale entry: dropped without a trade
            } else if entry.order.remaining_size <= q_left {
                trades.push(
                    Trade {
                        order_id: entry.id,
                        price: self.price,
                        quantity: entry.order.remaining_size,
                    },
                );
                market_order.remaining_size = q_left - entry.order.remaining_size;
                proof {
                    let sk = s@.skip(i as int);
                    let sk1 = s@.skip(i as int + 1);
                    let r: int = entry.order.remaining_size as int;
                    let rest1 = fill_queue(sk1, price0, q_left as int - r);
                    assert(fill_queue(sk, price0, q_left as int).trades == seq![
                        Trade { order_id: entry.id, price: price0, quantity: entry.order.remaining_size },
                    ] + rest1.trades);
                    assert(trades@ =~= trades@.drop_last().push(trades@.last()));
                    assert(trades@.drop_last() + (seq![trades@.last()] + rest1.trades)
                        =~= trades@ + rest1.trades);
                }
            } else {
                let take = q_left;
                trades.push(Trade { order_id: entry.id, price: self.price, quantity: take });
                let updated = RestingOrder {
                    id: entry.id,
                    order: Order {
                        bid_or_ask: entry.order.bid_or_ask,
                        original_size: entry.order.original_size,
                        remaining_size: entry.order.remaining_size - take,
                    },
                };
                new_orders.push(updated);
                market_order.remaining_size = 0;
                proof {
                    let sk = s@.skip(i as int);
                    let sk1 = s@.skip(i as int + 1);
                    let f = fill_queue(sk, price0, take as int);
                    assert(f.orders == seq![updated] + sk1);
                    assert(f.trades == seq![
                        Trade { order_id: entry.id, price: price0, quantity: take },
                    ]);
                    assert(new_orders@.drop_last() + (seq![updated] + sk1) =~= new_orders@
                        + sk1);
                    assert(new_orders@ + fill_queue(sk1, price0, 0).orders =~= new_orders@
                        + sk1);
                    assert(trades@.drop_last() + f.trades =~= trades@ + fill_queue(
                        sk1,
                        price0,
                        0,
                    ).trades);
                }
            }
            i = i + 1;
        }
        proof {
            assert(s@.skip(n as int) =~= Seq::<RestingOrder>::empty());
            let qc = market_order.remaining_size as int;
            let rest = fill_queue(s@.skip(n as int), price0, qc);
            assert(rest.orders =~= Seq::<RestingOrder>::empty());
            assert(new_orders@ + rest.orders =~= new_orders@);
            assert(trades@ + rest.trades =~= trades@);
        }
        self.orders = new_orders;
        trades
    }
}

} // verus!
