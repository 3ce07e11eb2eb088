use engine::api::redis_manager::RedisManager as ApiRedisManager;
use engine::api::types::{CreateOrderData, OutgoingMessageToEngine, Side as ApiSide};
use engine::decimal::{num_eq, Dec};
use engine::engine::{Balances, Currency, Engine, UserBalance};
use engine::messages::{IncomingMessageFromAPI, OutgoingMessageToAPI};
use engine::orderbook::{OrderStatus, Side};
use engine::redis_manager::RedisManager;

#[test]
fn new_engine_has_sol_usdc_book() {
    let e = Engine::new();
    assert_eq!(e.orderbooks.len(), 1);
    assert_eq!(e.orderbooks[0].ticker(), "SOL/USDC");
    assert!(e.users.is_empty());
}

#[test]
fn add_user_gives_starting_balance_once() {
    let mut e = Engine::new();
    assert!(e.add_user(5).is_ok());
    let b = e.users[&5].get(Currency::USDC).unwrap();
    assert!(num_eq(b.available, Dec::from_i64(10_000_000)));
    assert!(num_eq(b.locked, Dec::zero()));
    assert!(e.users[&5].get(Currency::SOL).is_none());
    assert_eq!(e.add_user(5), Err("User exists".to_string()));
    assert_eq!(e.users.len(), 1);
}

#[test]
fn balances_insert_replaces() {
    let mut b = Balances::new();
    assert!(b.get(Currency::SOL).is_none());
    b.insert(Currency::SOL, UserBalance { available: Dec::from_i64(1), locked: Dec::zero() });
    b.insert(Currency::SOL, UserBalance { available: Dec::from_i64(2), locked: Dec::zero() });
    assert_eq!(b.get(Currency::SOL).unwrap().available.mantissa(), 2);
    assert!(b.get(Currency::USDC).is_none());
}

#[test]
fn create_order_places_in_market_book() {
    let mut e = Engine::new();
    let (id1, fills, executed) = e
        .create_order("SOL/USDC", Dec::from_i64(20), Dec::from_i64(3), Side::Ask, 1)
        .unwrap();
    assert!(fills.is_empty());
    assert!(num_eq(executed, Dec::zero()));
    let (id2, fills, executed) = e
        .create_order("SOL/USDC", Dec::from_i64(21), Dec::from_i64(1), Side::Bid, 2)
        .unwrap();
    assert_eq!(fills.len(), 1);
    assert_eq!(fills[0].maker_order_id, id1);
    assert_eq!(fills[0].taker_order_id, id2);
    assert!(num_eq(fills[0].price, Dec::from_i64(20)));
    assert!(num_eq(executed, Dec::from_i64(1)));
    let book = &e.orderbooks[0];
    assert_eq!(book.orders[&id2].status, OrderStatus::Filled);
    assert_eq!(book.orders[&id2].user_id, 2);
}

#[test]
fn process_places_create_orders_only() {
    let mut e = Engine::new();
    e.process(
        IncomingMessageFromAPI::CreateOrder {
            market: "SOL/USDC".to_string(),
            price: Dec::from_i64(10),
            quantity: Dec::from_i64(1),
            side: Side::Bid,
        },
        "client".to_string(),
        3,
    );
    assert_eq!(e.orderbooks[0].bids.len(), 1);
    e.process(
        IncomingMessageFromAPI::GetDepth { market: "SOL/USDC".to_string() },
        "client".to_string(),
        3,
    );
    e.process(
        IncomingMessageFromAPI::CancelOrder {
            market: "SOL/USDC".to_string(),
            order_id: "x".to_string(),
            user_id: "3".to_string(),
        },
        "client".to_string(),
        3,
    );
    assert_eq!(e.orderbooks[0].bids.len(), 1);
    assert_eq!(e.orderbooks[0].orders.len(), 1);
}

#[test]
fn outgoing_message_kinds() {
    let placed = OutgoingMessageToAPI::OrderPlaced {
        order_id: "a".to_string(),
        fills: vec![],
        executed_quantity: Dec::zero(),
        order_status: OrderStatus::Pending,
    };
    assert_eq!(placed.kind(), "ORDER_PLACED");
    let depth = OutgoingMessageToAPI::Depth { market: "m".to_string(), asks: vec![], bids: vec![] };
    assert_eq!(depth.kind(), "DEPTH");
    let err = OutgoingMessageToAPI::Error { message: "e".to_string() };
    assert_eq!(err.kind(), "ERROR");
    let open = OutgoingMessageToAPI::OpenOrders { orders: vec![] };
    assert_eq!(open.kind(), "ORDER_PLACED");
    let cancelled = OutgoingMessageToAPI::OrderCancelled {
        order_id: "a".to_string(),
        executed_qty: Dec::zero(),
        remaining_qty: Dec::zero(),
    };
    assert_eq!(cancelled.kind(), "ORDER_PLACED");
}

#[test]
fn engine_redis_url_is_refused() {
    assert!(RedisManager::try_new().is_none());
}

#[test]
fn api_redis_url_is_accepted_and_client_ids_are_uuids() {
    let m = ApiRedisManager::try_new().unwrap();
    let a = m.client_id();
    let b = m.client_id();
    assert_eq!(a.len(), 36);
    assert_ne!(a, b);
    let c: Vec<char> = a.chars().collect();
    for (i, ch) in c.iter().enumerate() {
        if i == 8 || i == 13 || i == 18 || i == 23 {
            assert_eq!(*ch, '-');
        } else {
            assert!(ch.is_ascii_hexdigit() && !ch.is_ascii_uppercase());
        }
    }
    assert_eq!(c[14], '4');
    assert!("89ab".contains(c[19]));
}

#[test]
fn order_ids_carry_the_uuid_version() {
    let mut e = Engine::new();
    for _ in 0..5 {
        let (id, _, _) = e
            .create_order("SOL/USDC", Dec::from_i64(20), Dec::from_i64(1), Side::Ask, 1)
            .unwrap();
        assert_eq!((id >> 12) & 0xf, 4);
    }
}

#[test]
fn create_order_request_carries_its_fields() {
    let data = CreateOrderData {
        user_id: "u1".to_string(),
        market: "SOL_USDC".to_string(),
        quantity: Dec::new(15, 1).unwrap(),
        price: Dec::from_i64(20),
        side: ApiSide::Bid,
    };
    match data.to_engine_message() {
        OutgoingMessageToEngine::CreateOrder { market, price, quantity, side } => {
            assert_eq!(market, "SOL_USDC");
            assert!(num_eq(price, Dec::from_i64(20)));
            assert_eq!(quantity.mantissa(), 15);
            assert_eq!(quantity.scale(), 1);
            assert_eq!(side, ApiSide::Bid);
        }
        _ => panic!("expected a create-order request"),
    }
}
