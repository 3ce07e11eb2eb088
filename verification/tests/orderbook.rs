use engine::decimal::Dec;
use engine::orderbook::{Fill, Order, OrderStatus, Orderbook, Side};

fn d(m: i128, s: u32) -> Dec {
    Dec::new(m, s).unwrap()
}

fn n(v: i64) -> Dec {
    Dec::from_i64(v)
}

fn same(a: Dec, b: Dec) -> bool {
    engine::decimal::num_eq(a, b)
}

fn order(id: u64, side: Side, price: Dec, qty: Dec) -> Order {
    Order {
        order_id: id,
        user_id: 7,
        price,
        quantity: qty,
        filled_quantity: Dec::zero(),
        side,
        status: OrderStatus::Pending,
        timestamp: 0,
    }
}

fn book() -> Orderbook {
    Orderbook::new("SOL/USDC".to_string())
}

fn level_prices(levels: &Vec<engine::orderbook::PriceLevel>) -> Vec<Dec> {
    levels.iter().map(|l| l.price).collect()
}

fn level_ids(levels: &Vec<engine::orderbook::PriceLevel>, i: usize) -> Vec<u64> {
    levels[i].orders.iter().map(|o| o.order_id).collect()
}

#[test]
fn new_book_is_empty() {
    let b = book();
    assert_eq!(b.ticker(), "SOL/USDC");
    assert!(b.bids.is_empty());
    assert!(b.asks.is_empty());
    assert!(b.orders.is_empty());
    assert_eq!(b.last_trade_id, 0);
    assert_eq!(b.last_snapshot_timestamp, 0);
    assert!(same(b.last_traded_price, Dec::zero()));
}

#[test]
fn resting_ask_then_crossing_bid_trades() {
    let mut b = book();
    let (fills, executed) = b.add_order_at(order(1, Side::Ask, n(100), n(5)), 10).unwrap();
    assert!(fills.is_empty());
    assert!(same(executed, n(0)));
    assert_eq!(b.asks.len(), 1);
    assert_eq!(b.orders[&1].status, OrderStatus::Pending);
    assert_eq!(b.orders[&1].timestamp, 10);

    let (fills, executed) = b.add_order_at(order(2, Side::Bid, n(101), n(3)), 11).unwrap();
    assert_eq!(fills.len(), 1);
    let f: &Fill = &fills[0];
    assert_eq!(f.trade_id, 1);
    assert_eq!(f.maker_order_id, 1);
    assert_eq!(f.taker_order_id, 2);
    assert!(same(f.price, n(100)));
    assert!(same(f.quantity, n(3)));
    assert!(same(executed, n(3)));
    assert_eq!(b.last_trade_id, 1);
    // the maker stays with 3 of 5 filled
    assert_eq!(b.asks[0].orders.len(), 1);
    assert!(same(b.asks[0].orders[0].filled_quantity, n(3)));
    // the taker is filled and does not rest
    assert!(b.bids.is_empty());
    assert_eq!(b.orders[&2].status, OrderStatus::Filled);
    assert!(same(b.orders[&2].filled_quantity, n(3)));
}

#[test]
fn multi_level_bid_sweeps_asks() {
    // asks 100 -> [1: q3, 2: q4], 101 -> [3: q3]; bid 101 q10
    let mut b = book();
    b.add_order_at(order(1, Side::Ask, n(100), n(3)), 1).unwrap();
    b.add_order_at(order(2, Side::Ask, n(100), n(4)), 2).unwrap();
    b.add_order_at(order(3, Side::Ask, n(101), n(3)), 3).unwrap();
    assert_eq!(level_ids(&b.asks, 0), vec![1, 2]);
    let (fills, executed) = b.match_asks(&order(9, Side::Bid, n(101), n(10))).unwrap();
    let qs: Vec<bool> = fills.iter().zip([3, 4, 3]).map(|(f, q)| same(f.quantity, n(q))).collect();
    assert_eq!(qs, vec![true, true, true]);
    let makers: Vec<u64> = fills.iter().map(|f| f.maker_order_id).collect();
    assert_eq!(makers, vec![1, 2, 3]);
    let ids: Vec<u64> = fills.iter().map(|f| f.trade_id).collect();
    assert_eq!(ids, vec![1, 2, 3]);
    assert!(same(executed, n(10)));
    // the walked levels stay, emptied
    assert_eq!(b.asks.len(), 2);
    assert!(b.asks[0].orders.is_empty());
    assert!(b.asks[1].orders.is_empty());
    assert_eq!(b.last_trade_id, 3);
}

#[test]
fn partial_fill_rests_with_status() {
    let mut b = book();
    b.add_order_at(order(1, Side::Ask, n(100), n(2)), 1).unwrap();
    let (fills, executed) = b.add_order_at(order(2, Side::Bid, n(100), n(5)), 2).unwrap();
    assert_eq!(fills.len(), 1);
    assert!(same(executed, n(2)));
    assert_eq!(b.orders[&2].status, OrderStatus::PartiallyFilled);
    assert_eq!(b.bids.len(), 1);
    assert_eq!(level_ids(&b.bids, 0), vec![2]);
    assert!(same(b.bids[0].orders[0].filled_quantity, n(2)));
    // the filled maker left its level
    assert!(b.asks[0].orders.is_empty());
}

#[test]
fn no_cross_no_trade() {
    let mut b = book();
    b.add_order_at(order(1, Side::Ask, n(101), n(2)), 1).unwrap();
    let (fills, executed) = b.add_order_at(order(2, Side::Bid, n(100), n(2)), 2).unwrap();
    assert!(fills.is_empty());
    assert!(same(executed, n(0)));
    assert_eq!(b.last_trade_id, 0);
    assert_eq!(level_ids(&b.asks, 0), vec![1]);
    assert_eq!(level_ids(&b.bids, 0), vec![2]);
}

#[test]
fn price_priority_best_ask_first() {
    let mut b = book();
    b.add_order_at(order(1, Side::Ask, n(102), n(1)), 1).unwrap();
    b.add_order_at(order(2, Side::Ask, n(100), n(1)), 2).unwrap();
    b.add_order_at(order(3, Side::Ask, n(101), n(1)), 3).unwrap();
    let prices: Vec<bool> = level_prices(&b.asks)
        .into_iter()
        .zip([100, 101, 102])
        .map(|(p, q)| same(p, n(q)))
        .collect();
    assert_eq!(prices, vec![true, true, true]);
    let (fills, _) = b.add_order_at(order(4, Side::Bid, n(102), n(2)), 4).unwrap();
    let makers: Vec<u64> = fills.iter().map(|f| f.maker_order_id).collect();
    assert_eq!(makers, vec![2, 3]);
}

#[test]
fn bids_sorted_highest_first_and_time_priority() {
    let mut b = book();
    b.add_order_at(order(1, Side::Bid, n(99), n(1)), 1).unwrap();
    b.add_order_at(order(2, Side::Bid, n(100), n(1)), 2).unwrap();
    b.add_order_at(order(3, Side::Bid, n(98), n(1)), 3).unwrap();
    b.add_order_at(order(4, Side::Bid, d(1000, 1), n(1)), 4).unwrap(); // 100.0 joins the 100 level
    let prices: Vec<bool> = level_prices(&b.bids)
        .into_iter()
        .zip([100, 99, 98])
        .map(|(p, q)| same(p, n(q)))
        .collect();
    assert_eq!(prices, vec![true, true, true]);
    assert_eq!(level_ids(&b.bids, 0), vec![2, 4]);
    // an ask at 99 for 3 takes 2 and 4 at 100, then 1 at 99
    let (fills, executed) = b.add_order_at(order(5, Side::Ask, n(99), n(3)), 5).unwrap();
    let makers: Vec<u64> = fills.iter().map(|f| f.maker_order_id).collect();
    assert_eq!(makers, vec![2, 4, 1]);
    assert!(same(executed, n(3)));
    assert_eq!(b.orders[&5].status, OrderStatus::Filled);
    assert!(b.asks.is_empty());
}

#[test]
fn match_bids_with_ask_taker() {
    let mut b = book();
    b.add_order_at(order(1, Side::Bid, n(100), n(4)), 1).unwrap();
    let (fills, executed) = b.match_bids(&order(2, Side::Ask, n(100), n(1))).unwrap();
    assert_eq!(fills.len(), 1);
    assert!(same(executed, n(1)));
    assert!(same(b.bids[0].orders[0].filled_quantity, n(1)));
    // match_bids does not record or rest the taker
    assert!(!b.orders.contains_key(&2));
    assert!(b.asks.is_empty());
}

#[test]
fn trade_id_exhaustion_is_refused_and_book_unchanged() {
    let mut b = book();
    b.add_order_at(order(1, Side::Ask, n(100), n(1)), 1).unwrap();
    b.last_trade_id = u64::MAX;
    let r = b.add_order_at(order(2, Side::Bid, n(100), n(1)), 2);
    assert!(r.is_err());
    assert_eq!(level_ids(&b.asks, 0), vec![1]);
    assert!(same(b.asks[0].orders[0].filled_quantity, n(0)));
    assert!(!b.orders.contains_key(&2));
    assert!(b.bids.is_empty());
}

#[test]
fn decimal_overflow_is_refused() {
    let mut b = book();
    let max = d(79228162514264337593543950335, 0);
    b.add_order_at(order(1, Side::Ask, n(1), max), 1).unwrap();
    b.add_order_at(order(2, Side::Bid, n(1), n(1)), 2).unwrap();
    assert!(same(b.asks[0].orders[0].filled_quantity, n(1)));
    // the maker's filled quantity would become 1 + max
    let r = b.match_asks(&order(3, Side::Bid, n(1), max));
    assert!(r.is_err());
    assert_eq!(b.last_trade_id, 1);
    assert!(same(b.asks[0].orders[0].filled_quantity, n(1)));
}

#[test]
fn snapshot_copies_and_stamps() {
    let mut b = book();
    b.add_order_at(order(1, Side::Ask, n(100), n(1)), 1).unwrap();
    let s = b.snapshot_at(42);
    assert_eq!(b.last_snapshot_timestamp, 42);
    assert_eq!(s.last_snapshot_timestamp, 42);
    assert_eq!(s.ticker(), "SOL/USDC");
    assert_eq!(level_ids(&s.asks, 0), vec![1]);
    assert_eq!(s.orders.len(), 1);
    let s2 = b.snapshot();
    assert!(s2.last_snapshot_timestamp > 1_600_000_000);
}

#[test]
fn add_order_uses_the_clock() {
    let mut b = book();
    b.add_order(order(1, Side::Ask, n(100), n(1))).unwrap();
    assert!(b.orders[&1].timestamp > 1_600_000_000_000);
}

#[test]
fn unfilled_taker_leaves_no_crossing_order() {
    let mut b = book();
    b.add_order_at(order(1, Side::Ask, n(100), n(2)), 1).unwrap();
    b.add_order_at(order(2, Side::Ask, n(101), n(2)), 2).unwrap();
    b.add_order_at(order(3, Side::Ask, n(105), n(2)), 3).unwrap();
    let (fills, executed) = b.add_order_at(order(4, Side::Bid, n(102), n(10)), 4).unwrap();
    assert_eq!(fills.len(), 2);
    assert!(same(executed, n(4)));
    // the sum of the fills is the executed quantity
    let total = engine::decimal::checked_add(fills[0].quantity, fills[1].quantity).unwrap();
    assert!(same(total, executed));
    // no resting ask at a price the bid crosses
    for lvl in b.asks.iter() {
        if !engine::decimal::lt(n(102), lvl.price) {
            assert!(lvl.orders.is_empty());
        }
    }
    assert_eq!(level_ids(&b.asks, 2), vec![3]);
    // the rest of the bid rests at its limit
    assert_eq!(level_ids(&b.bids, 0), vec![4]);
    assert!(same(b.bids[0].price, n(102)));
    assert_eq!(b.orders[&4].status, OrderStatus::PartiallyFilled);
}

#[test]
fn fractional_quantities_across_scales() {
    let mut b = book();
    b.add_order_at(order(1, Side::Ask, d(995, 1), d(15, 1)), 1).unwrap(); // 1.5 @ 99.5
    let (fills, executed) = b.add_order_at(order(2, Side::Bid, n(100), n(1)), 2).unwrap();
    assert_eq!(fills.len(), 1);
    assert!(same(fills[0].quantity, n(1)));
    assert!(same(fills[0].price, d(995, 1)));
    assert!(same(executed, n(1)));
    assert!(same(b.asks[0].orders[0].filled_quantity, n(1)));
    let (fills, executed) = b.add_order_at(order(3, Side::Bid, n(100), n(1)), 3).unwrap();
    // min(1, 1.5) = 1 against the maker's quantity, as the book computes it
    assert!(same(fills[0].quantity, n(1)));
    assert!(same(executed, n(1)));
    assert!(b.asks[0].orders.is_empty());
}

#[test]
fn placement_leaves_book_uncrossed() {
    let mut b = book();
    b.add_order_at(order(1, Side::Bid, n(99), n(2)), 1).unwrap();
    b.add_order_at(order(2, Side::Ask, n(101), n(2)), 2).unwrap();
    // an ask below the best bid trades and the rest rests above every bid
    b.add_order_at(order(3, Side::Ask, n(98), n(3)), 3).unwrap();
    assert!(b.bids.iter().all(|l| l.orders.is_empty()));
    assert!(same(b.asks[0].price, n(98)));
    assert_eq!(level_ids(&b.asks, 0), vec![3]);
    for bl in b.bids.iter().filter(|l| !l.orders.is_empty()) {
        for al in b.asks.iter().filter(|l| !l.orders.is_empty()) {
            assert!(engine::decimal::lt(bl.price, al.price));
        }
    }
}

#[test]
fn mixed_scale_taker_executes_within_its_quantity() {
    let mut b = book();
    b.add_order_at(order(1, Side::Ask, n(10), n(2)), 1).unwrap(); // 2 @ 10
    b.add_order_at(order(2, Side::Ask, d(1050, 2), d(5, 1)), 2).unwrap(); // 0.5 @ 10.50
    let (fills, executed) = b.add_order_at(order(3, Side::Bid, n(11), d(225, 2)), 3).unwrap();
    assert_eq!(fills.len(), 2);
    assert!(same(fills[0].quantity, n(2)));
    assert!(same(fills[1].quantity, d(25, 2)));
    assert!(same(executed, d(225, 2)));
    assert_eq!(executed.mantissa(), 225);
    assert_eq!(executed.scale(), 2);
    assert_eq!(b.orders[&3].status, OrderStatus::Filled);
}

#[test]
fn rounded_amounts_keep_resting_orders_in_order() {
    let mut b = book();
    b.add_order_at(order(1, Side::Ask, n(10), n(8)), 1).unwrap();
    b.add_order_at(order(2, Side::Ask, n(9), d(1, 28)), 2).unwrap(); // 10^-28
    b.add_order_at(order(3, Side::Ask, n(12), n(5)), 3).unwrap();
    // 8 - 10^-28 needs more than 96 bits at scale 28, so rust_decimal rounds
    let (fills, executed) = b.add_order_at(order(4, Side::Bid, n(11), n(8)), 4).unwrap();
    assert_eq!(fills.len(), 2);
    assert!(same(executed, n(8)));
    for side in [&b.bids, &b.asks] {
        for lvl in side.iter() {
            for o in lvl.orders.iter() {
                assert!(!engine::decimal::lt(o.filled_quantity, Dec::zero()));
                assert!(engine::decimal::lt(o.filled_quantity, o.quantity));
            }
        }
    }
    assert_eq!(level_ids(&b.asks, 2), vec![3]);
}
