//! The order book of one market and its matching rules.
//!
//! Each side of the book is a list of price levels held best price first:
//! asks from the lowest price up, bids from the highest price down.  A level
//! holds its resting orders in arrival order.  An incoming order trades with
//! the resting orders of the other side, best level first and oldest order
//! first within a level, as long as its limit price crosses theirs.
use crate::book_laws::{
    amount_within, book_wf, carried, exact_setting, exact_setting_at, flat_orders, in_priority_order,
    law_placement, law_placement_uncrossed, lemma_flat_orders_step, lemma_no_cross_after,
    lemma_resting_count_prefix, lemma_walked, maker_in_domain, matched_exactly, resting_count,
    book_filled_nonneg, lemma_insert_filled_nonneg, opposite, side_filled_nonneg, side_wf, taker_in_domain, total_units, uncrossed,
};
use crate::clock::{now_millis, now_seconds};
use crate::decimal::{
    checked_add, checked_sub, lemma_unit_limit_mono, lemma_units_sign, lt, max_scale, min, num_eq,
    spec_add, spec_min, spec_sub, Dec,
};
use std::collections::HashMap;
use vstd::prelude::*;

verus! {

broadcast use vstd::std_specs::hash::group_hash_axioms;

#[derive(Clone, Copy, Debug, PartialEq, Eq, Structural)]
pub enum Side {
    Bid,
    Ask,
}

#[derive(Clone, Copy, Debug, PartialEq, Eq, Structural)]
pub enum OrderStatus {
    Pending,
    Filled,
    PartiallyFilled,
    Cancelled,
}

#[derive(Clone, Copy, Debug)]
pub struct Order {
    pub order_id: u64,
    pub user_id: u64,
    pub price: Dec,
    pub quantity: Dec,
    pub filled_quantity: Dec,
    pub side: Side,
    pub status: OrderStatus,
    pub timestamp: i64,
}

#[derive(Clone, Copy, Debug)]
pub struct Fill {
    pub trade_id: u64,
    pub maker_order_id: u64,
    pub taker_order_id: u64,
    pub price: Dec,
    pub quantity: Dec,
}

/// The resting orders at one price, oldest first.
#[derive(Debug)]
pub struct PriceLevel {
    pub price: Dec,
    pub orders: Vec<Order>,
}

/// A price level as a mathematical value.
pub struct LevelView {
    pub price: Dec,
    pub orders: Seq<Order>,
}

impl View for PriceLevel {
    type V = LevelView;

    open spec fn view(&self) -> LevelView {
        LevelView { price: self.price, orders: self.orders@ }
    }
}

pub open spec fn levels_view(v: Seq<PriceLevel>) -> Seq<LevelView> {
    v.map_values(|l: PriceLevel| l@)
}

/// The order book of one market.  Each side is a `Vec` of price levels kept
/// sorted best price first, in place of a `BTreeMap<Decimal, Vec<Order>>`:
/// Verus can order map keys only by an ordering it has a specification for,
/// and none can be given to a decimal key here (the check refuses an
/// `OrdSpecImpl`, and an integer standing for a decimal's value would need
/// about 190 bits).  The order map is keyed by the `u64` order id, as
/// `Order` declares it, since vstd models hash-map keys of integer type.
#[derive(Debug)]
pub struct Orderbook {
    /// The market this book trades, such as `"SOL_USDC"`.
    pub market: String,
    /// Bid levels, highest price first.
    pub bids: Vec<PriceLevel>,
    /// Ask levels, lowest price first.
    pub asks: Vec<PriceLevel>,
    /// Every order placed in this book, by id, as it stood when it was placed.
    pub orders: HashMap<u64, Order>,
    pub last_trade_id: u64,
    pub last_traded_price: Dec,
    pub last_snapshot_timestamp: i64,
}

/// An order book as a mathematical value.
pub struct BookView {
    pub market: Seq<char>,
    pub bids: Seq<LevelView>,
    pub asks: Seq<LevelView>,
    pub orders: Map<u64, Order>,
    pub last_trade_id: u64,
    pub last_traded_price: Dec,
    pub last_snapshot_timestamp: i64,
}

impl View for Orderbook {
    type V = BookView;

    closed spec fn view(&self) -> BookView {
        BookView {
            market: self.market@,
            bids: levels_view(self.bids@),
            asks: levels_view(self.asks@),
            orders: self.orders@,
            last_trade_id: self.last_trade_id,
            last_traded_price: self.last_traded_price,
            last_snapshot_timestamp: self.last_snapshot_timestamp,
        }
    }
}

/// The view of a book mirrors its public fields: the levels of each side,
/// the order map, the trade counter, the last traded price and the time of
/// the last snapshot.
pub proof fn lemma_view_fields(b: &Orderbook)
    ensures
        b@.market == b.market@,
        b@.bids == levels_view(b.bids@),
        b@.asks == levels_view(b.asks@),
        b@.orders == b.orders@,
        b@.last_trade_id == b.last_trade_id,
        b@.last_traded_price == b.last_traded_price,
        b@.last_snapshot_timestamp == b.last_snapshot_timestamp,
{
}

// ---------------------------------------------------------------------------
// The matching rules, as mathematics.
// ---------------------------------------------------------------------------

/// Whether a taker on `taker_side` with limit price `limit` may trade with a
/// resting order at `price`: a bid pays at most its limit, an ask sells at
/// no less than its limit.
pub open spec fn crosses(taker_side: Side, limit: Dec, price: Dec) -> bool {
    match taker_side {
        Side::Bid => !(limit.units() < price.units()),
        Side::Ask => !(price.units() < limit.units()),
    }
}

/// A resting order that is not fully filled.
pub open spec fn is_open(o: Order) -> bool {
    o.filled_quantity.units() < o.quantity.units()
}

/// The orders of `s` that are still open, in their order.
pub open spec fn open_orders(s: Seq<Order>) -> Seq<Order>
    decreases s.len(),
{
    if s.len() == 0 {
        s
    } else {
        let r = open_orders(s.drop_last());
        if is_open(s.last()) {
            r.push(s.last())
        } else {
            r
        }
    }
}

/// The taker meets one resting order.  The state carried along is the fills
/// so far, the quantity executed so far and the last trade id; the result
/// also holds the resting order afterwards.  `None` where an amount
/// overflows or the trade ids run out.
pub open spec fn match_maker(
    side: Side,
    taker: Order,
    fills: Seq<Fill>,
    executed: Dec,
    tid: u64,
    maker: Order,
) -> Option<(Seq<Fill>, Dec, u64, Order)> {
    if crosses(side, taker.price, maker.price) && executed.units() < taker.quantity.units() {
        match spec_sub(taker.quantity, executed) {
            None => None,
            Some(left) => {
                let filled = spec_min(left, maker.quantity);
                if tid == u64::MAX {
                    None
                } else {
                    match spec_add(executed, filled) {
                        None => None,
                        Some(executed2) => match spec_add(maker.filled_quantity, filled) {
                            None => None,
                            Some(maker_filled) => {
                                let fill = Fill {
                                    trade_id: (tid + 1) as u64,
                                    maker_order_id: maker.order_id,
                                    taker_order_id: taker.order_id,
                                    price: maker.price,
                                    quantity: filled,
                                };
                                Some(
                                    (
                                        fills.push(fill),
                                        executed2,
                                        (tid + 1) as u64,
                                        Order { filled_quantity: maker_filled, ..maker },
                                    ),
                                )
                            },
                        },
                    }
                }
            },
        }
    } else {
        Some((fills, executed, tid, maker))
    }
}

/// The taker meets the resting orders of one level in turn; the result holds
/// every one of them afterwards, filled or not.
pub open spec fn run_makers(
    side: Side,
    taker: Order,
    fills: Seq<Fill>,
    executed: Dec,
    tid: u64,
    makers: Seq<Order>,
) -> Option<(Seq<Fill>, Dec, u64, Seq<Order>)>
    decreases makers.len(),
{
    if makers.len() == 0 {
        Some((fills, executed, tid, Seq::empty()))
    } else {
        match run_makers(side, taker, fills, executed, tid, makers.drop_last()) {
            None => None,
            Some(acc) => match match_maker(side, taker, acc.0, acc.1, acc.2, makers.last()) {
                None => None,
                Some(st) => Some((st.0, st.1, st.2, acc.3.push(st.3))),
            },
        }
    }
}

/// The taker walks the levels of the other side from the best one, up to the
/// first level whose price it does not cross.  Each level it walks keeps its
/// open orders only; the result holds the whole side afterwards.
pub open spec fn match_levels(
    side: Side,
    taker: Order,
    fills: Seq<Fill>,
    executed: Dec,
    tid: u64,
    levels: Seq<LevelView>,
) -> Option<(Seq<Fill>, Dec, u64, Seq<LevelView>)>
    decreases levels.len(),
{
    if levels.len() == 0 {
        Some((fills, executed, tid, levels))
    } else if !crosses(side, taker.price, levels[0].price) {
        Some((fills, executed, tid, levels))
    } else {
        match run_makers(side, taker, fills, executed, tid, levels[0].orders) {
            None => None,
            Some(r) => match match_levels(side, taker, r.0, r.1, r.2, levels.drop_first()) {
                None => None,
                Some(rest) => Some(
                    (
                        rest.0,
                        rest.1,
                        rest.2,
                        seq![LevelView { price: levels[0].price, orders: open_orders(r.3) }]
                            + rest.3,
                    ),
                ),
            },
        }
    }
}

/// `levels` put before the side held in `r`.
pub open spec fn prepend(
    levels: Seq<LevelView>,
    r: Option<(Seq<Fill>, Dec, u64, Seq<LevelView>)>,
) -> Option<(Seq<Fill>, Dec, u64, Seq<LevelView>)> {
    match r {
        None => None,
        Some(r) => Some((r.0, r.1, r.2, levels + r.3)),
    }
}

/// Matching a taker of `side` from an empty start against `levels`.
pub open spec fn spec_match(side: Side, taker: Order, tid: u64, levels: Seq<LevelView>) -> Option<
    (Seq<Fill>, Dec, u64, Seq<LevelView>),
> {
    match_levels(side, taker, Seq::empty(), Dec::spec_zero(), tid, levels)
}

/// Whether price `a` ranks before price `b` on the book side `side`.
pub open spec fn better(side: Side, a: Dec, b: Dec) -> bool {
    match side {
        Side::Ask => a.units() < b.units(),
        Side::Bid => b.units() < a.units(),
    }
}

/// `levels` (a book side `side`) with order `o` resting at its price: at the
/// end of the level of that price, or in a new level placed by price.
pub open spec fn insert_resting(side: Side, levels: Seq<LevelView>, o: Order) -> Seq<LevelView>
    decreases levels.len(),
{
    if levels.len() == 0 {
        seq![LevelView { price: o.price, orders: seq![o] }]
    } else if levels[0].price.units() == o.price.units() {
        seq![LevelView { price: levels[0].price, orders: levels[0].orders.push(o) }]
            + levels.drop_first()
    } else if better(side, o.price, levels[0].price) {
        seq![LevelView { price: o.price, orders: seq![o] }] + levels
    } else {
        seq![levels[0]] + insert_resting(side, levels.drop_first(), o)
    }
}

/// A book for `market` with no orders and no trades.
pub open spec fn empty_book(market: Seq<char>) -> BookView {
    BookView {
        market,
        bids: Seq::empty(),
        asks: Seq::empty(),
        orders: Map::empty(),
        last_trade_id: 0,
        last_traded_price: Dec::spec_zero(),
        last_snapshot_timestamp: 0,
    }
}

/// The status of an order of quantity `quantity` of which `executed` traded.
pub open spec fn status_for(executed: Dec, quantity: Dec) -> OrderStatus {
    if executed.units() == quantity.units() {
        OrderStatus::Filled
    } else if 0 < executed.units() {
        OrderStatus::PartiallyFilled
    } else {
        OrderStatus::Pending
    }
}

/// The side of `book` that a taker of side `side` trades against.
pub open spec fn other_side(side: Side, book: BookView) -> Seq<LevelView> {
    match side {
        Side::Ask => book.bids,
        Side::Bid => book.asks,
    }
}

/// Placing `order` at time `ts` in `book`: the new book, the fills and the
/// executed quantity; `None` where an amount overflows or trade ids run out.
pub open spec fn spec_add_order(book: BookView, order: Order, ts: i64) -> Option<
    (BookView, Seq<Fill>, Dec),
> {
    let o = Order { timestamp: ts, ..order };
    let opposite = match o.side {
        Side::Ask => book.bids,
        Side::Bid => book.asks,
    };
    match spec_match(o.side, o, book.last_trade_id, opposite) {
        None => None,
        Some(m) => {
            let placed = Order { filled_quantity: m.1, status: status_for(m.1, o.quantity), ..o };
            let b1 = match o.side {
                Side::Ask => BookView { bids: m.3, last_trade_id: m.2, ..book },
                Side::Bid => BookView { asks: m.3, last_trade_id: m.2, ..book },
            };
            let b2 = if is_open(placed) {
                match o.side {
                    Side::Ask => BookView { asks: insert_resting(Side::Ask, b1.asks, placed), ..b1 },
                    Side::Bid => BookView { bids: insert_resting(Side::Bid, b1.bids, placed), ..b1 },
                }
            } else {
                b1
            };
            Some((BookView { orders: b2.orders.insert(placed.order_id, placed), ..b2 }, m.0, m.1))
        },
    }
}


// ---------------------------------------------------------------------------
// Matching, as code.
// ---------------------------------------------------------------------------

/// Whether the taker's limit crosses a resting price.
fn crosses_exec(side: Side, limit: Dec, price: Dec) -> (r: bool)
    ensures
        r == crosses(side, limit, price),
{
    match side {
        Side::Bid => !lt(limit, price),
        Side::Ask => !lt(price, limit),
    }
}

/// The `x`-th id of the scan for a free order id: `x` above the version
/// digit 4.
pub open spec fn scan_id(x: u64) -> u64 {
    (x << 16u64) | 0x4000u64
}

/// Scan ids carry the version digit 4 and differ for different `x` below 2^48.
proof fn lemma_scan_id(a: u64, b: u64)
    requires
        a < 0x1_0000_0000_0000u64,
        b < 0x1_0000_0000_0000u64,
    ensures
        scan_id(a) == (a << 16u64) | 0x4000u64,
        (scan_id(a) >> 12u64) & 0xfu64 == 4,
        scan_id(a) == scan_id(b) ==> a == b,
{
    assert(((a << 16u64) | 0x4000u64) >> 12u64 & 0xfu64 == 4) by (bit_vector);
    assert(((a << 16u64) | 0x4000u64) == ((b << 16u64) | 0x4000u64) ==> a == b) by (bit_vector)
        requires
            a < 0x1_0000_0000_0000u64,
            b < 0x1_0000_0000_0000u64,
    ;
}

/// One step of `match_maker`; a fill, if any, is pushed on `fills`.
fn match_one(
    side: Side,
    taker: &Order,
    fills: &mut Vec<Fill>,
    executed: Dec,
    tid: u64,
    maker: Order,
    Ghost(s): Ghost<u32>,
) -> (r: Option<(Dec, u64, Order)>)
    ensures
        match r {
            None => match_maker(side, *taker, old(fills)@, executed, tid, maker) is None,
            Some(t) => match_maker(side, *taker, old(fills)@, executed, tid, maker) == Some(
                (final(fills)@, t.0, t.1, t.2),
            ),
        },
        old(fills)@.len() <= final(fills)@.len() <= old(fills)@.len() + 1,
        forall|k: int| 0 <= k < old(fills)@.len() ==> #[trigger] final(fills)@[k] == old(fills)@[k],
        r matches Some(x) ==> (x.1 == tid || x.1 == tid + 1),
        r is Some ==> ((final(fills)@.len() == old(fills)@.len() + 1) == (crosses(
            side,
            taker.price,
            maker.price,
        ) && executed.units() < taker.quantity.units())),
        r matches Some(x) ==> (final(fills)@.len() == old(fills)@.len() ==> x.0 == executed),
        final(fills)@.len() == old(fills)@.len() + 1 ==> final(fills)@.last().maker_order_id
            == maker.order_id,
        0 <= executed.units() && 0 <= maker.filled_quantity.units() && is_open(maker) ==> (r matches Some(
            t,
        ) ==> 0 <= t.0.units() && 0 <= t.2.filled_quantity.units()),
        ({
            (taker_in_domain(*taker, s) && maker_in_domain(maker, s) && carried(executed, s)
                && executed.units() <= taker.quantity.units()) ==> match r {
                None => tid == u64::MAX,
                Some(t) => {
                    &&& carried(t.0, s)
                    &&& executed.units() <= t.0.units() <= taker.quantity.units()
                    &&& total_units(final(fills)@) == total_units(old(fills)@) + (t.0.units()
                        - executed.units())
                    &&& forall|k: int|
                        old(fills)@.len() <= k < final(fills)@.len()
                            ==> #[trigger] final(fills)@[k].quantity.units() > 0
                    &&& t.2.quantity == maker.quantity
                    &&& (crosses(side, taker.price, maker.price) && t.0.units()
                        < taker.quantity.units()) ==> !is_open(t.2)
                },
            }
        }),
{
    let ghost dom = taker_in_domain(*taker, s) && maker_in_domain(maker, s) && carried(executed, s)
        && executed.units() <= taker.quantity.units();
    proof {
        if dom {
            use_type_invariant(&taker.quantity);
            use_type_invariant(&executed);
            use_type_invariant(&maker.quantity);
            use_type_invariant(&maker.filled_quantity);
            taker.quantity.lemma_wf();
            executed.lemma_wf();
            maker.quantity.lemma_wf();
            maker.filled_quantity.lemma_wf();
            lemma_units_sign(executed);
            lemma_units_sign(taker.quantity);
            lemma_units_sign(maker.quantity);
            lemma_units_sign(maker.filled_quantity);
            lemma_unit_limit_mono(max_scale(taker.quantity, executed), s);
        }
    }
    if crosses_exec(side, taker.price, maker.price) && lt(executed, taker.quantity) {
        let left = match checked_sub(taker.quantity, executed) {
            Some(l) => l,
            None => return None,
        };
        let filled = min(left, maker.quantity);
        proof {
            if dom {
                use_type_invariant(&left);
                left.lemma_wf();
                lemma_units_sign(left);
                assert(left.units() == taker.quantity.units() - executed.units());
                assert(0 < filled.units() <= left.units());
                assert(amount_within(filled, s));
                lemma_unit_limit_mono(max_scale(executed, filled), s);
                lemma_unit_limit_mono(max_scale(maker.filled_quantity, filled), s);
            }
        }
        if tid == u64::MAX {
            return None;
        }
        let tid2 = tid + 1;
        let executed2 = match checked_add(executed, filled) {
            Some(e) => e,
            None => return None,
        };
        let maker_filled = match checked_add(maker.filled_quantity, filled) {
            Some(m) => m,
            None => return None,
        };
        let ghost f0 = fills@;
        fills.push(
            Fill {
                trade_id: tid2,
                maker_order_id: maker.order_id,
                taker_order_id: taker.order_id,
                price: maker.price,
                quantity: filled,
            },
        );
        proof {
            assert(fills@.drop_last() =~= f0);
            if dom {
                // the amounts add exactly and stay within scale s
                use_type_invariant(&executed2);
                use_type_invariant(&maker_filled);
                executed2.lemma_wf();
                maker_filled.lemma_wf();
                lemma_units_sign(executed2);
                lemma_units_sign(maker_filled);
                assert(executed2.units() == executed.units() + filled.units());
                assert(maker_filled.units() == maker.filled_quantity.units() + filled.units());
                if executed2.units() < taker.quantity.units() {
                    assert(filled == maker.quantity);
                }
                assert(fills@[f0.len() as int].quantity == filled);
            }
        }
        Some((executed2, tid2, Order { filled_quantity: maker_filled, ..maker }))
    } else {
        Some((executed, tid, maker))
    }
}

/// Once meeting a prefix of the resting orders fails, meeting all of them fails.
proof fn lemma_run_makers_none_extends(
    side: Side,
    taker: Order,
    fills: Seq<Fill>,
    executed: Dec,
    tid: u64,
    makers: Seq<Order>,
    k: int,
)
    requires
        0 <= k <= makers.len(),
        run_makers(side, taker, fills, executed, tid, makers.take(k)) is None,
    ensures
        run_makers(side, taker, fills, executed, tid, makers) is None,
    decreases makers.len() - k,
{
    if k == makers.len() {
        assert(makers.take(k) =~= makers);
    } else {
        assert(makers.take(k + 1).drop_last() =~= makers.take(k));
        lemma_run_makers_none_extends(side, taker, fills, executed, tid, makers, k + 1);
    }
}

/// The taker meets the orders of one level; the open ones that remain are
/// returned, with the executed quantity and last trade id after them.
fn match_level(
    side: Side,
    taker: &Order,
    fills: &mut Vec<Fill>,
    executed: Dec,
    tid: u64,
    makers: &Vec<Order>,
    Ghost(s): Ghost<u32>,
) -> (r: Option<(Dec, u64, Vec<Order>)>)
    ensures
        match r {
            None => run_makers(side, *taker, old(fills)@, executed, tid, makers@) is None,
            Some(t) => exists|updated: Seq<Order>|
                {
                    &&& run_makers(side, *taker, old(fills)@, executed, tid, makers@) == Some(
                        (final(fills)@, t.0, t.1, updated),
                    )
                    &&& t.2@ == open_orders(updated)
                },
        },
        old(fills)@.len() <= final(fills)@.len(),
        forall|k: int| 0 <= k < old(fills)@.len() ==> #[trigger] final(fills)@[k] == old(fills)@[k],
        r matches Some(x) ==> tid <= x.1 <= tid + makers@.len(),
        taker.quantity.units() <= executed.units() ==> final(fills)@.len() == old(fills)@.len() && (
        r matches Some(x) ==> x.0 == executed),
        (0 <= executed.units() && forall|k: int|
            0 <= k < makers@.len() ==> 0 <= (#[trigger] makers@[k]).filled_quantity.units() && is_open(
                makers@[k],
            )) ==> (r matches Some(t) ==> 0 <= t.0.units() && forall|k: int|
            0 <= k < t.2@.len() ==> 0 <= (#[trigger] t.2@[k]).filled_quantity.units()),
        ({
            let c = final(fills)@.len() - old(fills)@.len();
            (taker_in_domain(*taker, s) && carried(executed, s) && executed.units()
                <= taker.quantity.units() && forall|k: int|
                0 <= k < makers@.len() ==> maker_in_domain(#[trigger] makers@[k], s) && crosses(
                    side,
                    taker.price,
                    makers@[k].price,
                )) ==> (r matches Some(x) ==> {
                &&& c <= makers@.len()
                &&& forall|k: int|
                    0 <= k < c ==> #[trigger] final(fills)@[old(fills)@.len() + k].maker_order_id
                        == makers@[k].order_id
                &&& x.0.units() < taker.quantity.units() ==> c == makers@.len()
            })
        }),
        ({
            (taker_in_domain(*taker, s) && carried(executed, s) && executed.units()
                <= taker.quantity.units() && forall|k: int|
                0 <= k < makers@.len() ==> maker_in_domain(#[trigger] makers@[k], s) && crosses(
                    side,
                    taker.price,
                    makers@[k].price,
                )) && tid + makers@.len() <= u64::MAX ==> r is Some
        }),
        ({
            (taker_in_domain(*taker, s) && carried(executed, s) && executed.units()
                <= taker.quantity.units() && forall|k: int|
                0 <= k < makers@.len() ==> maker_in_domain(#[trigger] makers@[k], s) && crosses(
                    side,
                    taker.price,
                    makers@[k].price,
                )) ==> match r {
                None => true,
                Some(t) => {
                    &&& carried(t.0, s)
                    &&& executed.units() <= t.0.units() <= taker.quantity.units()
                    &&& total_units(final(fills)@) == total_units(old(fills)@) + (t.0.units()
                        - executed.units())
                    &&& forall|k: int|
                        old(fills)@.len() <= k < final(fills)@.len()
                            ==> #[trigger] final(fills)@[k].quantity.units() > 0
                    &&& t.0.units() < taker.quantity.units() ==> t.2@.len() == 0
                },
            }
        }),
{
    let ghost dom = taker_in_domain(*taker, s) && carried(executed, s) && executed.units()
        <= taker.quantity.units() && forall|k: int|
        0 <= k < makers@.len() ==> maker_in_domain(#[trigger] makers@[k], s) && crosses(
            side,
            taker.price,
            makers@[k].price,
        );
    let ghost nn = 0 <= executed.units() && forall|k: int|
        0 <= k < makers@.len() ==> 0 <= (#[trigger] makers@[k]).filled_quantity.units() && is_open(
            makers@[k],
        );
    let ghost fills0 = fills@;
    let mut kept: Vec<Order> = Vec::new();
    let mut ex = executed;
    let mut t = tid;
    let ghost mut updated: Seq<Order> = Seq::empty();
    let n = makers.len();
    let mut j: usize = 0;
    assert(makers@.take(0) =~= Seq::<Order>::empty());
    while j < n
        invariant
            n == makers@.len(),
            j <= n,
            run_makers(side, *taker, fills0, executed, tid, makers@.take(j as int)) == Some(
                (fills@, ex, t, updated),
            ),
            kept@ == open_orders(updated),
            nn == (0 <= executed.units() && forall|k: int|
                0 <= k < makers@.len() ==> 0 <= (#[trigger] makers@[k]).filled_quantity.units() && is_open(
                    makers@[k],
                )),
            nn ==> 0 <= ex.units() && forall|k: int|
                0 <= k < kept@.len() ==> 0 <= (#[trigger] kept@[k]).filled_quantity.units(),
            updated.len() == j,
            fills0 == old(fills)@,
            fills0.len() <= fills@.len(),
            forall|k: int| 0 <= k < fills0.len() ==> #[trigger] fills@[k] == fills0[k],
            dom == (taker_in_domain(*taker, s) && carried(executed, s) && executed.units()
                <= taker.quantity.units() && forall|k: int|
                0 <= k < makers@.len() ==> maker_in_domain(#[trigger] makers@[k], s) && crosses(
                    side,
                    taker.price,
                    makers@[k].price,
                )),
            tid <= t <= tid + j,
            taker.quantity.units() <= executed.units() ==> fills@.len() == fills0.len() && ex == executed,
            dom ==> {
                &&& fills@.len() - fills0.len() <= j
                &&& forall|k: int|
                    0 <= k < fills@.len() - fills0.len() ==> #[trigger] fills@[fills0.len()
                        + k].maker_order_id == makers@[k].order_id
                &&& ex.units() < taker.quantity.units() ==> fills@.len() - fills0.len() == j
            },
            dom ==> {
                &&& carried(ex, s)
                &&& executed.units() <= ex.units() <= taker.quantity.units()
                &&& total_units(fills@) == total_units(fills0) + (ex.units() - executed.units())
                &&& forall|k: int|
                    fills0.len() <= k < fills@.len() ==> #[trigger] fills@[k].quantity.units() > 0
                &&& ex.units() < taker.quantity.units() ==> kept@.len() == 0
            },
        decreases n - j,
    {
        let step = match_one(side, taker, fills, ex, t, makers[j], Ghost(s));
        assert(makers@.take(j + 1).drop_last() =~= makers@.take(j as int));
        assert(makers@.take(j + 1).last() == makers@[j as int]);
        match step {
            None => {
                proof {
                    assert(run_makers(side, *taker, fills0, executed, tid, makers@.take(j + 1)) is None);
                    lemma_run_makers_none_extends(side, *taker, fills0, executed, tid, makers@, j + 1);
                    assert(fills0 == old(fills)@);
                    assert(dom ==> t == u64::MAX);
                }
                return None;
            },
            Some(st) => {
                let m = st.2;
                proof {
                    let u2 = updated.push(m);
                    assert(u2.drop_last() =~= updated);
                    assert(u2.last() == m);
                    updated = u2;
                }
                if lt(m.filled_quantity, m.quantity) {
                    kept.push(m);
                }
                ex = st.0;
                t = st.1;
                j = j + 1;
            },
        }
    }
    assert(makers@.take(n as int) =~= makers@);
    Some((ex, t, kept))
}

/// Matches a taker of `side` against the book side `levels` without changing
/// it: the levels the taker walked, as they are afterwards (they are the
/// first ones of the side), the fills, the executed quantity and the last
/// trade id.
fn match_side(side: Side, taker: &Order, tid0: u64, levels: &Vec<PriceLevel>) -> (r: Option<
    (Vec<PriceLevel>, Vec<Fill>, Dec, u64),
>)
    ensures
        match r {
            None => spec_match(side, *taker, tid0, levels_view(levels@)) is None,
            Some(t) => t.0@.len() <= levels@.len() && spec_match(side, *taker, tid0, levels_view(levels@))
                == Some(
                (t.1@, t.2, t.3, levels_view(t.0@) + levels_view(levels@).skip(t.0@.len() as int)),
            ),
        },
        r matches Some(x) ==> tid0 <= x.3 <= tid0 + resting_count(levels_view(levels@)),
        side_wf(opposite(side), levels_view(levels@)) && side_filled_nonneg(levels_view(levels@)) ==> (r matches Some(t)
            ==> 0 <= t.2.units() && side_filled_nonneg(levels_view(t.0@))),
        exact_setting(side, *taker, levels_view(levels@)) && tid0 + resting_count(levels_view(levels@))
            <= u64::MAX ==> r is Some,
        exact_setting(side, *taker, levels_view(levels@)) ==> match r {
            None => true,
            Some(t) => {
                &&& 0 <= t.2.units() <= taker.quantity.units()
                &&& total_units(t.1@) == t.2.units()
                &&& forall|k: int| 0 <= k < t.1@.len() ==> #[trigger] t.1@[k].quantity.units() > 0
                &&& in_priority_order(side, *taker, t.1@, t.2, levels_view(levels@))
                &&& t.2.units() < taker.quantity.units() ==> {
                    &&& forall|i: int| 0 <= i < t.0@.len() ==> (#[trigger] t.0@[i]).orders@.len() == 0
                    &&& t.0@.len() < levels@.len() ==> !crosses(
                        side,
                        taker.price,
                        levels@[t.0@.len() as int].price,
                    )
                }
            },
        },
{
    let ghost all = levels_view(levels@);
    let ghost dom = exact_setting(side, *taker, all);
    let ghost nn = side_wf(opposite(side), all) && side_filled_nonneg(all);
    let ghost s = choose|s: u32| exact_setting_at(side, *taker, all, s);
    let mut prefix: Vec<PriceLevel> = Vec::new();
    let mut fills: Vec<Fill> = Vec::new();
    let mut ex = Dec::zero();
    let mut t = tid0;
    let n = levels.len();
    let mut i: usize = 0;
    assert(all.skip(0) =~= all);
    proof {
        assert(all.take(0) =~= Seq::<LevelView>::empty());
        if dom {
            use_type_invariant(&taker.quantity);
            taker.quantity.lemma_wf();
            lemma_units_sign(taker.quantity);
        }
    }
    assert(levels_view(prefix@) =~= Seq::<LevelView>::empty());
    while i < n
        invariant_except_break
            spec_match(side, *taker, tid0, all) == prepend(
                levels_view(prefix@),
                match_levels(side, *taker, fills@, ex, t, all.skip(i as int)),
            ),
        invariant
            n == levels@.len(),
            all == levels_view(levels@),
            i <= n,
            prefix@.len() == i,
            dom == exact_setting(side, *taker, all),
            dom ==> exact_setting_at(side, *taker, all, s),
            nn == (side_wf(opposite(side), all) && side_filled_nonneg(all)),
            nn ==> 0 <= ex.units() && side_filled_nonneg(levels_view(prefix@)),
            tid0 <= t <= tid0 + resting_count(all.take(i as int)),
            forall|j: int| 0 <= j < i ==> crosses(side, taker.price, #[trigger] all[j].price),
            dom ==> {
                &&& fills@.len() <= flat_orders(all.take(i as int)).len()
                &&& forall|k: int|
                    0 <= k < fills@.len() ==> #[trigger] fills@[k].maker_order_id == flat_orders(
                        all.take(i as int),
                    )[k].order_id
                &&& ex.units() < taker.quantity.units() ==> fills@.len() == flat_orders(
                    all.take(i as int),
                ).len()
            },
            dom ==> {
                &&& carried(ex, s)
                &&& 0 <= ex.units() <= taker.quantity.units()
                &&& total_units(fills@) == ex.units()
                &&& forall|k: int| 0 <= k < fills@.len() ==> #[trigger] fills@[k].quantity.units() > 0
                &&& ex.units() < taker.quantity.units() ==> forall|j: int|
                    0 <= j < prefix@.len() ==> (#[trigger] prefix@[j]).orders@.len() == 0
            },
        ensures
            spec_match(side, *taker, tid0, all) == prepend(
                levels_view(prefix@),
                Some((fills@, ex, t, all.skip(i as int))),
            ),
            i == n || !crosses(side, taker.price, all[i as int].price),
        decreases n - i,
    {
        let ghost rest = all.skip(i as int);
        assert(rest[0] == levels@[i as int]@);
        assert(rest.drop_first() =~= all.skip(i + 1));
        let price = levels[i].price;
        if !crosses_exec(side, taker.price, price) {
            break;
        }
        proof {
            lemma_resting_count_prefix(all, i as int);
            lemma_resting_count_prefix(all, i + 1);
            lemma_flat_orders_step(all, i as int);
            assert(all[i as int].orders == levels@[i as int].orders@);
            if nn {
                assert forall|k: int| 0 <= k < levels@[i as int].orders@.len() implies 0
                    <= (#[trigger] levels@[i as int].orders@[k]).filled_quantity.units() && is_open(
                    levels@[i as int].orders@[k],
                ) by {
                    assert(all[i as int].orders[k] == levels@[i as int].orders@[k]);
                }
            }
            if dom {
                assert forall|k: int| 0 <= k < levels@[i as int].orders@.len() implies maker_in_domain(
                    #[trigger] levels@[i as int].orders@[k],
                    s,
                ) && crosses(side, taker.price, levels@[i as int].orders@[k].price) by {
                    assert(all[i as int].orders[k] == levels@[i as int].orders@[k]);
                }
            }
        }
        let ghost f_before = fills@;
        match match_level(side, taker, &mut fills, ex, t, &levels[i].orders, Ghost(s)) {
            None => {
                return None;
            },
            Some(res) => {
                proof {
                    if dom {
                        let q0 = flat_orders(all.take(i as int));
                        let q1 = flat_orders(all.take(i + 1));
                        let o = all[i as int].orders;
                        assert(q1 == q0 + o);
                        assert forall|k: int| 0 <= k < fills@.len() implies #[trigger] fills@[k].maker_order_id
                            == q1[k].order_id by {
                            if k < f_before.len() {
                                assert(fills@[k] == f_before[k]);
                                assert(q1[k] == q0[k]);
                            } else {
                                let kk = k - f_before.len();
                                assert(fills@[f_before.len() + kk].maker_order_id == o[kk].order_id);
                                assert(q1[k] == o[kk]);
                            }
                        }
                    }
                }
                let ghost old_prefix = levels_view(prefix@);
                let lvl = PriceLevel { price, orders: res.2 };
                prefix.push(lvl);
                proof {
                    assert(levels_view(prefix@) =~= old_prefix + seq![lvl@]);
                    if nn {
                        let pv = levels_view(prefix@);
                        assert forall|a: int, k: int| 0 <= a < pv.len() && 0 <= k < pv[a].orders.len()
                            implies 0 <= (#[trigger] pv[a].orders[k]).filled_quantity.units() by {
                            if a < old_prefix.len() {
                                assert(pv[a] == old_prefix[a]);
                            } else {
                                assert(pv[a] == lvl@);
                                assert(pv[a].orders[k] == res.2@[k]);
                            }
                        }
                    }
                    let inner = match_levels(side, *taker, fills@, res.0, res.1, all.skip(i + 1));
                    match inner {
                        None => {},
                        Some(x) => {
                            assert(old_prefix + (seq![lvl@] + x.3) =~= (old_prefix + seq![lvl@])
                                + x.3);
                        },
                    }
                }
                ex = res.0;
                t = res.1;
                i = i + 1;
            },
        }
    }
    proof {
        if i == n {
            assert(all.skip(i as int) =~= Seq::<LevelView>::empty());
        }
        lemma_resting_count_prefix(all, i as int);
        lemma_walked(side, taker.price, all, i as int);
    }
    Some((prefix, fills, ex, t))
}

/// Replaces the first levels of `side_levels` by `prefix`.
fn commit_levels(side_levels: &mut Vec<PriceLevel>, prefix: Vec<PriceLevel>)
    requires
        prefix@.len() <= old(side_levels)@.len(),
    ensures
        levels_view(final(side_levels)@) == levels_view(prefix@) + levels_view(old(side_levels)@).skip(
            prefix@.len() as int,
        ),
{
    let ghost orig = side_levels@;
    let ghost all_prefix = prefix@;
    let n = prefix.len();
    let mut prefix = prefix;
    while prefix.len() > 0
        invariant
            n == all_prefix.len(),
            n <= orig.len(),
            prefix@.len() <= n,
            prefix@ == all_prefix.take(prefix@.len() as int),
            side_levels@.len() == orig.len(),
            forall|k: int| 0 <= k < prefix@.len() ==> side_levels@[k] == orig[k],
            forall|k: int| prefix@.len() <= k < n ==> side_levels@[k] == all_prefix[k],
            forall|k: int| n <= k < orig.len() ==> side_levels@[k] == orig[k],
        decreases prefix@.len(),
    {
        let lvl = prefix.pop().unwrap();
        let k = prefix.len();
        proof {
            assert(prefix@ =~= all_prefix.take(k as int));
            assert(lvl == all_prefix[k as int]);
        }
        side_levels.set(k, lvl);
    }
    assert(levels_view(side_levels@) =~= levels_view(all_prefix) + levels_view(orig).skip(n as int));
}

impl Orderbook {
    /// Matches a bid against the asks: the asks walked keep their open
    /// orders, the fills are returned with the executed quantity.
    /// `Err` where an amount overflows or the trade ids run out; the book is
    /// then unchanged.
    pub fn match_asks(&mut self, order: &Order) -> (r: Result<(Vec<Fill>, Dec), String>)
        ensures
            match r {
                Ok(t) => spec_match(Side::Bid, *order, old(self)@.last_trade_id, old(self)@.asks)
                    == Some((t.0@, t.1, final(self)@.last_trade_id, final(self)@.asks))
                    && final(self)@ == BookView {
                    asks: final(self)@.asks,
                    last_trade_id: final(self)@.last_trade_id,
                    ..old(self)@
                },
                Err(_) => spec_match(Side::Bid, *order, old(self)@.last_trade_id, old(self)@.asks) is None
                    && final(self)@ == old(self)@,
            },
            exact_setting(Side::Bid, *order, old(self)@.asks) && old(self)@.last_trade_id
                + resting_count(old(self)@.asks) <= u64::MAX ==> r is Ok,
            exact_setting(Side::Bid, *order, old(self)@.asks) ==> (r matches Ok(t)
                ==> matched_exactly(Side::Bid, *order, t.0@, t.1, old(self)@.asks, final(self)@.asks)),
            side_wf(Side::Ask, old(self)@.asks) && side_filled_nonneg(old(self)@.asks) ==> (r matches Ok(t)
                ==> 0 <= t.1.units() && side_filled_nonneg(final(self)@.asks)),
    {
        let ghost old_levels = self.asks@;
        match match_side(Side::Bid, order, self.last_trade_id, &self.asks) {
            None => Err(overflow_message()),
            Some(res) => {
                let (prefix, fills, executed, tid) = res;
                let ghost p = prefix@;
                commit_levels(&mut self.asks, prefix);
                self.last_trade_id = tid;
                proof {
                    let all = levels_view(old_levels);
                    if side_wf(Side::Ask, all) && side_filled_nonneg(all) {
                        let out = levels_view(self.asks@);
                        let pv = levels_view(p);
                        assert forall|a: int, k: int| 0 <= a < out.len() && 0 <= k < out[a].orders.len()
                            implies 0 <= (#[trigger] out[a].orders[k]).filled_quantity.units() by {
                            if a < p.len() {
                                assert(out[a] == pv[a]);
                            } else {
                                assert(out[a] == all[a]);
                            }
                        }
                    }
                }
                proof {
                    let all = levels_view(old_levels);
                    if exact_setting(Side::Bid, *order, all) && executed.units() < order.quantity.units() {
                        let out = levels_view(self.asks@);
                        assert forall|i: int|
                            0 <= i < out.len() && crosses(
                                Side::Bid,
                                order.price,
                                (#[trigger] out[i]).price,
                            ) implies out[i].orders.len() == 0 by {
                            if i < p.len() {
                                assert(out[i] == p[i]@);
                            } else {
                                assert(out[i] == all[i]);
                                if i > p.len() {
                                    assert(all[p.len() as int] == old_levels[p.len() as int]@);
                                    lemma_no_cross_after(
                                        Side::Bid,
                                        order.price,
                                        all[p.len() as int].price,
                                        all[i].price,
                                    );
                                }
                            }
                        }
                    }
                }
                Ok((fills, executed))
            },
        }
    }

    /// Matches an ask against the bids, as `match_asks` does the other way.
    pub fn match_bids(&mut self, order: &Order) -> (r: Result<(Vec<Fill>, Dec), String>)
        ensures
            match r {
                Ok(t) => spec_match(Side::Ask, *order, old(self)@.last_trade_id, old(self)@.bids)
                    == Some((t.0@, t.1, final(self)@.last_trade_id, final(self)@.bids))
                    && final(self)@ == BookView {
                    bids: final(self)@.bids,
                    last_trade_id: final(self)@.last_trade_id,
                    ..old(self)@
                },
                Err(_) => spec_match(Side::Ask, *order, old(self)@.last_trade_id, old(self)@.bids) is None
                    && final(self)@ == old(self)@,
            },
            exact_setting(Side::Ask, *order, old(self)@.bids) && old(self)@.last_trade_id
                + resting_count(old(self)@.bids) <= u64::MAX ==> r is Ok,
            exact_setting(Side::Ask, *order, old(self)@.bids) ==> (r matches Ok(t)
                ==> matched_exactly(Side::Ask, *order, t.0@, t.1, old(self)@.bids, final(self)@.bids)),
            side_wf(Side::Bid, old(self)@.bids) && side_filled_nonneg(old(self)@.bids) ==> (r matches Ok(t)
                ==> 0 <= t.1.units() && side_filled_nonneg(final(self)@.bids)),
    {
        let ghost old_levels = self.bids@;
        match match_side(Side::Ask, order, self.last_trade_id, &self.bids) {
            None => Err(overflow_message()),
            Some(res) => {
                let (prefix, fills, executed, tid) = res;
                let ghost p = prefix@;
                commit_levels(&mut self.bids, prefix);
                self.last_trade_id = tid;
                proof {
                    let all = levels_view(old_levels);
                    if side_wf(Side::Bid, all) && side_filled_nonneg(all) {
                        let out = levels_view(self.bids@);
                        let pv = levels_view(p);
                        assert forall|a: int, k: int| 0 <= a < out.len() && 0 <= k < out[a].orders.len()
                            implies 0 <= (#[trigger] out[a].orders[k]).filled_quantity.units() by {
                            if a < p.len() {
                                assert(out[a] == pv[a]);
                            } else {
                                assert(out[a] == all[a]);
                            }
                        }
                    }
                }
                proof {
                    let all = levels_view(old_levels);
                    if exact_setting(Side::Ask, *order, all) && executed.units() < order.quantity.units() {
                        let out = levels_view(self.bids@);
                        assert forall|i: int|
                            0 <= i < out.len() && crosses(
                                Side::Ask,
                                order.price,
                                (#[trigger] out[i]).price,
                            ) implies out[i].orders.len() == 0 by {
                            if i < p.len() {
                                assert(out[i] == p[i]@);
                            } else {
                                assert(out[i] == all[i]);
                                if i > p.len() {
                                    assert(all[p.len() as int] == old_levels[p.len() as int]@);
                                    lemma_no_cross_after(
                                        Side::Ask,
                                        order.price,
                                        all[p.len() as int].price,
                                        all[i].price,
                                    );
                                }
                            }
                        }
                    }
                }
                Ok((fills, executed))
            },
        }
    }
}

/// Whether price `a` ranks before price `b` on the book side `side`.
fn better_exec(side: Side, a: Dec, b: Dec) -> (r: bool)
    ensures
        r == better(side, a, b),
{
    match side {
        Side::Ask => lt(a, b),
        Side::Bid => lt(b, a),
    }
}

/// A new level holding the one order `o`.
fn single_level(o: Order) -> (r: PriceLevel)
    ensures
        r@ == (LevelView { price: o.price, orders: seq![o] }),
{
    let mut orders: Vec<Order> = Vec::new();
    orders.push(o);
    assert(orders@ =~= seq![o]);
    PriceLevel { price: o.price, orders }
}

/// Rests order `o` on the book side `levels` (of side `side`).
fn insert_level(levels: &mut Vec<PriceLevel>, side: Side, o: Order)
    ensures
        levels_view(final(levels)@) == insert_resting(side, levels_view(old(levels)@), o),
{
    let ghost all = levels_view(levels@);
    let n = levels.len();
    let mut k: usize = 0;
    assert(all.take(0) + all.skip(0) =~= all);
    assert(all.skip(0) =~= all);
    assert(all.take(0) + insert_resting(side, all, o) =~= insert_resting(side, all, o));
    while k < n
        invariant
            n == levels@.len(),
            levels@ == old(levels)@,
            all == levels_view(levels@),
            k <= n,
            insert_resting(side, all, o) == all.take(k as int) + insert_resting(side, all.skip(k as int), o),
        decreases n - k,
    {
        let ghost rest = all.skip(k as int);
        assert(rest[0] == levels@[k as int]@);
        assert(rest.drop_first() =~= all.skip(k + 1));
        let p = levels[k].price;
        if num_eq(p, o.price) {
            levels[k].orders.push(o);
            proof {
                assert(levels_view(levels@) =~= all.take(k as int) + (seq![
                    LevelView { price: p, orders: rest[0].orders.push(o) },
                ] + rest.drop_first()));
            }
            return;
        } else if better_exec(side, o.price, p) {
            let lvl = single_level(o);
            levels.insert(k, lvl);
            proof {
                assert(levels_view(levels@) =~= all.take(k as int) + (seq![lvl@] + rest));
            }
            return;
        }
        proof {
            assert(all.take(k as int) + (seq![rest[0]] + insert_resting(side, all.skip(k + 1), o))
                =~= all.take(k + 1) + insert_resting(side, all.skip(k + 1), o));
        }
        k = k + 1;
    }
    let lvl = single_level(o);
    levels.push(lvl);
    proof {
        assert(all.skip(n as int) =~= Seq::<LevelView>::empty());
        assert(all.take(n as int) =~= all);
        assert(levels_view(levels@) =~= all + seq![lvl@]);
    }
}

/// The status of an order of quantity `quantity` of which `executed` traded.
fn status_exec(executed: Dec, quantity: Dec) -> (r: OrderStatus)
    ensures
        r == status_for(executed, quantity),
{
    if num_eq(executed, quantity) {
        OrderStatus::Filled
    } else if lt(Dec::zero(), executed) {
        OrderStatus::PartiallyFilled
    } else {
        OrderStatus::Pending
    }
}

/// A copy of the orders of a level.
fn copy_orders(v: &Vec<Order>) -> (r: Vec<Order>)
    ensures
        r@ == v@,
{
    let mut r: Vec<Order> = Vec::new();
    let n = v.len();
    let mut i: usize = 0;
    while i < n
        invariant
            n == v@.len(),
            i <= n,
            r@ == v@.take(i as int),
        decreases n - i,
    {
        r.push(v[i]);
        assert(v@.take(i + 1) =~= v@.take(i as int).push(v@[i as int]));
        i = i + 1;
    }
    assert(v@.take(n as int) =~= v@);
    r
}

/// A copy of a book side.
fn copy_levels(v: &Vec<PriceLevel>) -> (r: Vec<PriceLevel>)
    ensures
        levels_view(r@) == levels_view(v@),
{
    let mut r: Vec<PriceLevel> = Vec::new();
    let n = v.len();
    let mut i: usize = 0;
    while i < n
        invariant
            n == v@.len(),
            i <= n,
            levels_view(r@) == levels_view(v@).take(i as int),
        decreases n - i,
    {
        let lvl = PriceLevel { price: v[i].price, orders: copy_orders(&v[i].orders) };
        let ghost before = r@;
        r.push(lvl);
        assert(levels_view(r@) =~= levels_view(before).push(lvl@));
        assert(levels_view(v@).take(i + 1) =~= levels_view(v@).take(i as int).push(v@[i as int]@));
        i = i + 1;
    }
    assert(levels_view(v@).take(n as int) =~= levels_view(v@));
    r
}

impl Orderbook {
    /// An empty book for `market`.
    pub fn new(market: String) -> (r: Orderbook)
        ensures
            r@ == empty_book(market@),
    {
        let r = Orderbook {
            market,
            bids: Vec::new(),
            asks: Vec::new(),
            orders: HashMap::new(),
            last_trade_id: 0,
            last_traded_price: Dec::zero(),
            last_snapshot_timestamp: 0,
        };
        assert(levels_view(r.bids@) =~= Seq::<LevelView>::empty());
        assert(levels_view(r.asks@) =~= Seq::<LevelView>::empty());
        r
    }

    /// Whether the book trades `market`.
    pub(crate) fn has_market(&self, market: &String) -> (r: bool)
        ensures
            r == (self@.market == market@),
    {
        self.market == *market
    }

    /// An order id that no order of the book holds, with the version digit 4
    /// that drawn ids carry: `candidate` where it is free, else the first
    /// free one of `scan_id(0)`, `scan_id(1)`, ...  One is free wherever the
    /// book holds fewer than 2^48 orders.
    pub fn unused_order_id(&self, candidate: u64) -> (r: u64)
        requires
            (candidate >> 12u64) & 0xfu64 == 4,
        ensures
            (r >> 12u64) & 0xfu64 == 4,
            !self@.orders.dom().contains(candidate) ==> r == candidate,
            self@.orders.len() < 0x1_0000_0000_0000 ==> !self@.orders.dom().contains(r),
    {
        if !self.orders.contains_key(&candidate) {
            return candidate;
        }
        let n = self.orders.len();
        if n as u64 >= 0x1_0000_0000_0000u64 {
            return candidate;
        }
        let nn = n as u64;
        let mut j: u64 = 0;
        while j <= nn
            invariant
                j <= nn + 1,
                nn < 0x1_0000_0000_0000u64,
                nn == self@.orders.len(),
                self@.orders.dom().contains(candidate),
                forall|x: u64| x < j ==> self@.orders.dom().contains(#[trigger] scan_id(x)),
            decreases nn + 1 - j,
        {
            let c = (j << 16u64) | 0x4000u64;
            proof {
                lemma_scan_id(j, j);
            }
            if !self.orders.contains_key(&c) {
                return c;
            }
            j = j + 1;
        }
        proof {
            let ids = Seq::new((nn + 1) as nat, |x: int| scan_id(x as u64));
            assert forall|a: int, b: int| 0 <= a < ids.len() && 0 <= b < ids.len() && a != b implies ids[a]
                != ids[b] by {
                lemma_scan_id(a as u64, b as u64);
            }
            ids.unique_seq_to_set();
            assert forall|v: u64| ids.to_set().contains(v) implies self@.orders.dom().contains(v) by {
                let x = choose|x: int| 0 <= x < ids.len() && ids[x] == v;
                assert(self@.orders.dom().contains(scan_id(x as u64)));
            }
            vstd::set_lib::lemma_len_subset(ids.to_set(), self@.orders.dom());
        }
        candidate
    }

    /// The market the book trades.
    pub fn ticker(&self) -> (r: &str)
        ensures
            r@ == self@.market,
    {
        self.market.as_str()
    }

    /// Records `ts` as the time of the last snapshot and returns a copy of the
    /// book as it then stands.
    pub fn snapshot_at(&mut self, ts: i64) -> (r: Orderbook)
        ensures
            final(self)@ == (BookView { last_snapshot_timestamp: ts, ..old(self)@ }),
            r@ == final(self)@,
    {
        self.last_snapshot_timestamp = ts;
        Orderbook {
            market: self.market.clone(),
            bids: copy_levels(&self.bids),
            asks: copy_levels(&self.asks),
            orders: self.orders.clone(),
            last_trade_id: self.last_trade_id,
            last_traded_price: self.last_traded_price,
            last_snapshot_timestamp: ts,
        }
    }

    /// Records the current time as the time of the last snapshot and returns
    /// a copy of the book as it then stands.
    pub fn snapshot(&mut self) -> (r: Orderbook)
        ensures
            final(self)@ == (BookView {
                last_snapshot_timestamp: final(self)@.last_snapshot_timestamp,
                ..old(self)@
            }),
            r@ == final(self)@,
    {
        let ts = now_seconds();
        self.snapshot_at(ts)
    }

    /// Places `order`, stamped with time `ts`: it trades against the other
    /// side (see `match_asks` and `match_bids`), takes the executed quantity
    /// as its filled quantity and the status that follows from it, rests on
    /// its own side if not fully filled, and is recorded under its id.
    /// Returns the fills and the executed quantity.  `Err` where an amount
    /// overflows or the trade ids run out; the book is then unchanged.
    /// A book in good order whose resting filled quantities are not negative
    /// stays so, whatever the amounts; where the arithmetic is exact
    /// (`exact_setting`), a book that was not crossed stays not crossed.
    pub fn add_order_at(&mut self, order: Order, ts: i64) -> (r: Result<(Vec<Fill>, Dec), String>)
        ensures
            match r {
                Ok(t) => spec_add_order(old(self)@, order, ts) == Some((final(self)@, t.0@, t.1)),
                Err(_) => spec_add_order(old(self)@, order, ts) is None && final(self)@ == old(self)@,
            },
            order.side == Side::Ask && exact_setting(Side::Ask, order, old(self)@.bids)
                && old(self)@.last_trade_id + resting_count(old(self)@.bids) <= u64::MAX ==> r is Ok,
            order.side == Side::Ask && exact_setting(Side::Ask, order, old(self)@.bids) ==> (r matches Ok(
                t,
            ) ==> matched_exactly(Side::Ask, order, t.0@, t.1, old(self)@.bids, final(self)@.bids)),
            order.side == Side::Bid && exact_setting(Side::Bid, order, old(self)@.asks)
                && old(self)@.last_trade_id + resting_count(old(self)@.asks) <= u64::MAX ==> r is Ok,
            order.side == Side::Bid && exact_setting(Side::Bid, order, old(self)@.asks) ==> (r matches Ok(
                t,
            ) ==> matched_exactly(Side::Bid, order, t.0@, t.1, old(self)@.asks, final(self)@.asks)),
            exact_setting(order.side, order, other_side(order.side, old(self)@)) && book_wf(old(self)@)
                && uncrossed(old(self)@) ==> (r is Ok ==> book_wf(final(self)@) && uncrossed(final(self)@)),
            book_wf(old(self)@) && book_filled_nonneg(old(self)@) ==> (r is Ok ==> book_wf(final(self)@)
                && book_filled_nonneg(final(self)@)),
    {
        let ghost order0 = order;
        let ghost book0 = self@;
        let mut order = order;
        order.timestamp = ts;
        proof {
            let other = other_side(order0.side, book0);
            if exact_setting(order0.side, order0, other) {
                let s = choose|s: u32| exact_setting_at(order0.side, order0, other, s);
                assert(exact_setting_at(order.side, order, other, s));
            }
        }
        match order.side {
            Side::Ask => {
                let (fills, executed) = self.match_bids(&order)?;
                order.filled_quantity = executed;
                order.status = status_exec(executed, order.quantity);
                if lt(order.filled_quantity, order.quantity) {
                    insert_level(&mut self.asks, Side::Ask, order);
                }
                self.orders.insert(order.order_id, order);
                proof {
                    if book_wf(book0) && book_filled_nonneg(book0) {
                        assert(spec_add_order(book0, order0, ts) == Some((self@, fills@, executed)));
                        law_placement(book0, order0, ts);
                        if is_open(order) {
                            lemma_insert_filled_nonneg(Side::Ask, book0.asks, order);
                        }
                    }
                    if exact_setting(Side::Ask, order0, book0.bids) && book_wf(book0) && uncrossed(book0) {
                        assert(spec_add_order(book0, order0, ts) == Some((self@, fills@, executed)));
                        law_placement(book0, order0, ts);
                        law_placement_uncrossed(book0, order0, ts);
                    }
                }
                Ok((fills, executed))
            },
            Side::Bid => {
                let (fills, executed) = self.match_asks(&order)?;
                order.filled_quantity = executed;
                order.status = status_exec(executed, order.quantity);
                if lt(order.filled_quantity, order.quantity) {
                    insert_level(&mut self.bids, Side::Bid, order);
                }
                self.orders.insert(order.order_id, order);
                proof {
                    if book_wf(book0) && book_filled_nonneg(book0) {
                        assert(spec_add_order(book0, order0, ts) == Some((self@, fills@, executed)));
                        law_placement(book0, order0, ts);
                        if is_open(order) {
                            lemma_insert_filled_nonneg(Side::Bid, book0.bids, order);
                        }
                    }
                    if exact_setting(Side::Bid, order0, book0.asks) && book_wf(book0) && uncrossed(book0) {
                        assert(spec_add_order(book0, order0, ts) == Some((self@, fills@, executed)));
                        law_placement(book0, order0, ts);
                        law_placement_uncrossed(book0, order0, ts);
                    }
                }
                Ok((fills, executed))
            },
        }
    }

    /// Places `order` as `add_order_at` does, stamped with the current time
    /// in milliseconds.
    pub fn add_order(&mut self, order: Order) -> (r: Result<(Vec<Fill>, Dec), String>)
        ensures
            exists|ts: i64|
                match r {
                    Ok(t) => spec_add_order(old(self)@, order, ts) == Some((final(self)@, t.0@, t.1)),
                    Err(_) => spec_add_order(old(self)@, order, ts) is None && final(self)@ == old(self)@,
                },
            order.side == Side::Ask && exact_setting(Side::Ask, order, old(self)@.bids)
                && old(self)@.last_trade_id + resting_count(old(self)@.bids) <= u64::MAX ==> r is Ok,
            order.side == Side::Ask && exact_setting(Side::Ask, order, old(self)@.bids) ==> (r matches Ok(
                t,
            ) ==> matched_exactly(Side::Ask, order, t.0@, t.1, old(self)@.bids, final(self)@.bids)),
            order.side == Side::Bid && exact_setting(Side::Bid, order, old(self)@.asks)
                && old(self)@.last_trade_id + resting_count(old(self)@.asks) <= u64::MAX ==> r is Ok,
            order.side == Side::Bid && exact_setting(Side::Bid, order, old(self)@.asks) ==> (r matches Ok(
                t,
            ) ==> matched_exactly(Side::Bid, order, t.0@, t.1, old(self)@.asks, final(self)@.asks)),
            exact_setting(order.side, order, other_side(order.side, old(self)@)) && book_wf(old(self)@)
                && uncrossed(old(self)@) ==> (r is Ok ==> book_wf(final(self)@) && uncrossed(final(self)@)),
            book_wf(old(self)@) && book_filled_nonneg(old(self)@) ==> (r is Ok ==> book_wf(final(self)@)
                && book_filled_nonneg(final(self)@)),
    {
        let ts = now_millis();
        self.add_order_at(order, ts)
    }
}

/// The error matching reports where an amount overflows or the trade ids run out.
fn overflow_message() -> (r: String)
    ensures
        r@ == "matching overflowed"@,
{
    String::from_str("matching overflowed")
}

} // verus!
