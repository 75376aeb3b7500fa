use matchengine::balance::BalanceType;
use matchengine::config::{Asset, Market, Settings};
use matchengine::controller::{
    BalanceUpdateRequest, BatchOrderPutRequest, Controller, OrderCancelRequest, OrderPutRequest,
    TransferRequest,
};
use matchengine::decimal::Decimal;
use matchengine::order::{OrderSide, OrderType};
use matchengine::order::OrderEventType;
use matchengine::persist::{DummyPersistor, MemBasedPersistor, Message};
use matchengine::EngineError;

const U1: u32 = 1;
const U2: u32 = 2;
const U3: u32 = 3;

fn d(m: i128) -> Decimal {
    Decimal { mantissa: m }
}

fn units(u: i64) -> Decimal {
    Decimal::from_units(u)
}

fn asset(id: &str) -> Asset {
    Asset {
        id: id.to_string(),
        symbol: id.to_string(),
        name: id.to_string(),
        prec_save: 8,
        prec_show: 8,
    }
}

fn eth_usdt_settings() -> Settings {
    let mut s = Settings::default();
    s.assets = vec![asset("ETH"), asset("USDT")];
    s.markets = vec![Market {
        name: "ETH_USDT".to_string(),
        base: "ETH".to_string(),
        quote: "USDT".to_string(),
        amount_prec: 4,
        price_prec: 2,
        fee_prec: 4,
        min_amount: d(10_000_000), // 0.01
    }];
    s.disable_self_trade = true;
    s
}

fn engine() -> Controller {
    Controller::new(eth_usdt_settings()).unwrap()
}

fn deposit(c: &mut Controller, user: u32, asset_id: &str, amount: Decimal, business_id: u64) {
    let req = BalanceUpdateRequest {
        asset: asset_id.to_string(),
        business: "deposit".to_string(),
        business_id,
        delta: amount,
        detail: String::new(),
    };
    c.update_balance(true, req, user, 1_000).unwrap();
}

fn limit_order(side: OrderSide, amount: Decimal, price: Decimal) -> OrderPutRequest {
    OrderPutRequest {
        market: "ETH_USDT".to_string(),
        order_side: side,
        order_type: OrderType::LIMIT,
        amount,
        price,
        quote_limit: d(0),
        taker_fee: d(0),
        maker_fee: d(0),
        post_only: false,
    }
}

fn avail(c: &Controller, user: u32, asset_idx: u32) -> i128 {
    c.balance_manager
        .get(user, BalanceType::AVAILABLE, asset_idx)
        .mantissa
}

fn frozen(c: &Controller, user: u32, asset_idx: u32) -> i128 {
    c.balance_manager
        .get(user, BalanceType::FREEZE, asset_idx)
        .mantissa
}

const ETH: u32 = 0;
const USDT: u32 = 1;

#[test]
fn simple_cross_settles_one_trade_with_fees() {
    let mut c = engine();
    deposit(&mut c, U1, "ETH", units(5), 1);
    deposit(&mut c, U2, "USDT", units(10_000), 2);

    let mut ask = limit_order(OrderSide::ASK, units(1), units(500));
    ask.maker_fee = d(1_000_000); // 0.001
    ask.taker_fee = d(2_000_000); // 0.002
    c.order_put(true, ask, U1, 2_000).unwrap();

    let mut bid = limit_order(OrderSide::BID, units(1), units(500));
    bid.maker_fee = d(1_000_000);
    bid.taker_fee = d(2_000_000);
    c.order_put(true, bid, U2, 3_000).unwrap();

    // The maker receives 500 - 500*0.001 = 499.5 USDT.
    assert_eq!(avail(&c, U1, USDT), 499_500_000_000);
    // The taker receives 1.0 - 1.0*0.002 = 0.998 ETH.
    assert_eq!(avail(&c, U2, ETH), 998_000_000);
    // Both books are empty, nothing stays frozen.
    assert_eq!(c.markets[0].asks.len(), 0);
    assert_eq!(c.markets[0].bids.len(), 0);
    assert_eq!(frozen(&c, U1, ETH), 0);
    assert_eq!(frozen(&c, U2, USDT), 0);
    assert_eq!(avail(&c, U1, ETH), 4_000_000_000);
    assert_eq!(avail(&c, U2, USDT), 9_500_000_000_000);
    // Exactly one trade happened, at the maker's price.
    let trades: Vec<_> = c
        .persistor
        .messages
        .iter()
        .filter_map(|m| match m {
            Message::TradeMessage(t) => Some(*t),
            _ => None,
        })
        .collect();
    assert_eq!(trades.len(), 1);
    assert_eq!(trades[0].price.mantissa, 500_000_000_000);
    assert_eq!(trades[0].amount.mantissa, 1_000_000_000);
    assert_eq!(trades[0].quote_amount.mantissa, 500_000_000_000);
}

#[test]
fn partial_fill_leaves_the_remainder_resting() {
    let mut c = engine();
    deposit(&mut c, U1, "ETH", units(5), 1);
    deposit(&mut c, U2, "USDT", units(1_000), 2);
    deposit(&mut c, U3, "USDT", units(1_000), 3);

    c.order_put(true, limit_order(OrderSide::ASK, units(2), units(100)), U1, 2_000)
        .unwrap();
    c.order_put(
        true,
        limit_order(OrderSide::BID, d(500_000_000), units(100)),
        U2,
        3_000,
    )
    .unwrap();
    c.order_put(true, limit_order(OrderSide::BID, units(1), units(99)), U3, 4_000)
        .unwrap();

    // The ask rests with remain 1.5 and that much base frozen.
    assert_eq!(c.markets[0].asks.len(), 1);
    assert_eq!(c.markets[0].asks[0].remain.mantissa, 1_500_000_000);
    assert_eq!(c.markets[0].asks[0].frozen.mantissa, 1_500_000_000);
    assert_eq!(frozen(&c, U1, ETH), 1_500_000_000);
    // One trade of 0.5 happened.
    let trades: Vec<_> = c
        .persistor
        .messages
        .iter()
        .filter_map(|m| match m {
            Message::TradeMessage(t) => Some(*t),
            _ => None,
        })
        .collect();
    assert_eq!(trades.len(), 1);
    assert_eq!(trades[0].amount.mantissa, 500_000_000);
    // The third user's bid rests at 99.
    assert_eq!(c.markets[0].bids.len(), 1);
    assert_eq!(c.markets[0].bids[0].user, U3);
    assert_eq!(c.markets[0].bids[0].price.mantissa, 99_000_000_000);
}

#[test]
fn self_trade_cancels_the_resting_maker() {
    let mut c = engine();
    deposit(&mut c, U1, "ETH", units(5), 1);
    deposit(&mut c, U1, "USDT", units(1_000), 2);

    c.order_put(true, limit_order(OrderSide::ASK, units(1), units(10)), U1, 2_000)
        .unwrap();
    assert_eq!(frozen(&c, U1, ETH), 1_000_000_000);
    c.order_put(true, limit_order(OrderSide::BID, units(1), units(12)), U1, 3_000)
        .unwrap();

    // The resting ask was cancelled and refunded; no trade happened.
    assert_eq!(c.markets[0].asks.len(), 0);
    assert_eq!(frozen(&c, U1, ETH), 0);
    assert_eq!(avail(&c, U1, ETH), 5_000_000_000);
    let trades = c
        .persistor
        .messages
        .iter()
        .filter(|m| matches!(m, Message::TradeMessage(_)))
        .count();
    assert_eq!(trades, 0);
    // The bid rests at 12.
    assert_eq!(c.markets[0].bids.len(), 1);
    assert_eq!(c.markets[0].bids[0].price.mantissa, 12_000_000_000);
    assert_eq!(c.markets[0].bids[0].user, U1);
}

#[test]
fn post_only_order_that_would_cross_is_cancelled() {
    let mut c = engine();
    deposit(&mut c, U1, "ETH", units(5), 1);
    deposit(&mut c, U2, "USDT", units(1_000), 2);

    c.order_put(true, limit_order(OrderSide::BID, units(1), units(10)), U2, 2_000)
        .unwrap();
    let mut ask = limit_order(OrderSide::ASK, units(1), units(10));
    ask.post_only = true;
    let o = c.order_put(true, ask, U1, 3_000).unwrap();

    // Zero trades; the taker was cancelled, its freeze returned.
    let trades = c
        .persistor
        .messages
        .iter()
        .filter(|m| matches!(m, Message::TradeMessage(_)))
        .count();
    assert_eq!(trades, 0);
    assert_eq!(c.markets[0].asks.len(), 0);
    assert_eq!(o.remain.mantissa, o.amount.mantissa);
    assert_eq!(avail(&c, U1, ETH), 5_000_000_000);
    assert_eq!(frozen(&c, U1, ETH), 0);
    // The resting bid is untouched.
    assert_eq!(c.markets[0].bids.len(), 1);
}

#[test]
fn market_bid_stops_at_its_quote_limit() {
    let mut c = engine();
    deposit(&mut c, U1, "ETH", units(5), 1);
    deposit(&mut c, U3, "ETH", units(5), 2);
    deposit(&mut c, U2, "USDT", units(10_000), 3);

    c.order_put(
        true,
        limit_order(OrderSide::ASK, d(500_000_000), units(100)),
        U1,
        2_000,
    )
    .unwrap();
    c.order_put(true, limit_order(OrderSide::ASK, units(1), units(110)), U3, 3_000)
        .unwrap();

    let market_bid = OrderPutRequest {
        market: "ETH_USDT".to_string(),
        order_side: OrderSide::BID,
        order_type: OrderType::MARKET,
        amount: units(5),
        price: d(0),
        quote_limit: units(130),
        taker_fee: d(0),
        maker_fee: d(0),
        post_only: false,
    };
    let o = c.order_put(true, market_bid, U2, 4_000).unwrap();

    // Fills 0.5 at 100 (50 quote), then 0.7272 at 110 (79.992 quote).
    assert_eq!(o.finished_base.mantissa, 1_227_200_000);
    assert_eq!(o.finished_quote.mantissa, 129_992_000_000);
    assert!(o.remain.mantissa > 0);
    assert_eq!(avail(&c, U2, ETH), 1_227_200_000);
    assert_eq!(avail(&c, U2, USDT), 10_000_000_000_000 - 129_992_000_000);
    // The first ask is gone; the second still rests partially filled.
    assert_eq!(c.markets[0].asks.len(), 1);
    assert_eq!(c.markets[0].asks[0].user, U3);
    assert_eq!(c.markets[0].asks[0].remain.mantissa, 272_800_000);
}

#[test]
fn insufficient_balance_rejects_without_any_effect() {
    let mut c = engine();
    deposit(&mut c, U1, "USDT", units(10), 1);
    let log_len = c.op_log.len();
    let events = c.persistor.messages.len();

    let r = c.order_put(true, limit_order(OrderSide::BID, units(1), units(20)), U1, 2_000);
    assert_eq!(r.unwrap_err(), EngineError::InsufficientBalance);
    assert_eq!(avail(&c, U1, USDT), 10_000_000_000);
    assert_eq!(frozen(&c, U1, USDT), 0);
    assert_eq!(c.op_log.len(), log_len);
    assert_eq!(c.persistor.messages.len(), events);
    assert_eq!(c.markets[0].bids.len(), 0);
}

#[test]
fn replay_rebuilds_the_state_without_events() {
    let mut c1 = engine();
    deposit(&mut c1, U1, "ETH", units(5), 1);
    deposit(&mut c1, U2, "USDT", units(10_000), 2);
    c1.order_put(true, limit_order(OrderSide::ASK, units(1), units(500)), U1, 2_000)
        .unwrap();
    c1.order_put(true, limit_order(OrderSide::BID, units(1), units(500)), U2, 3_000)
        .unwrap();

    let mut c2 = engine();
    for entry in &c1.op_log {
        c2.replay(entry).unwrap();
    }
    assert_eq!(c2.balance_manager.entries, c1.balance_manager.entries);
    assert_eq!(c2.markets[0].asks, c1.markets[0].asks);
    assert_eq!(c2.markets[0].bids, c1.markets[0].bids);
    assert_eq!(c2.persistor.messages.len(), 0);
    assert_eq!(c2.op_log.len(), 0);
    // Replaying the same journal twice from fresh engines is
    // deterministic: both snapshots agree.
    let mut c3 = engine();
    for entry in &c1.op_log {
        c3.replay(entry).unwrap();
    }
    let s2 = c2.make_slice(9_000);
    let s3 = c3.make_slice(9_000);
    assert_eq!(s2.history, s3.history);
    assert_eq!(s2.balances, s3.balances);
    assert_eq!(s2.orders, s3.orders);
}

#[test]
fn snapshot_load_snapshot_is_idempotent() {
    let mut c = engine();
    deposit(&mut c, U1, "ETH", units(5), 1);
    deposit(&mut c, U2, "USDT", units(1_000), 2);
    c.order_put(true, limit_order(OrderSide::ASK, units(2), units(100)), U1, 2_000)
        .unwrap();
    c.order_put(true, limit_order(OrderSide::BID, d(500_000_000), units(100)), U2, 3_000)
        .unwrap();
    c.order_put(true, limit_order(OrderSide::BID, units(1), units(99)), U2, 4_000)
        .unwrap();

    let s1 = c.make_slice(5_000);
    let c2 = Controller::load_slice(eth_usdt_settings(), &s1).unwrap();
    let s2 = c2.make_slice(5_000);
    assert_eq!(s1.history, s2.history);
    assert_eq!(s1.balances, s2.balances);
    assert_eq!(s1.orders, s2.orders);
}

#[test]
fn cancel_returns_the_frozen_funds() {
    let mut c = engine();
    deposit(&mut c, U1, "USDT", units(1_000), 1);
    let o = c
        .order_put(true, limit_order(OrderSide::BID, units(1), units(50)), U1, 2_000)
        .unwrap();
    assert_eq!(frozen(&c, U1, USDT), 50_000_000_000);
    let req = OrderCancelRequest {
        market: "ETH_USDT".to_string(),
        order_id: o.id,
    };
    c.order_cancel(true, req, U1, 3_000).unwrap();
    assert_eq!(frozen(&c, U1, USDT), 0);
    assert_eq!(avail(&c, U1, USDT), 1_000_000_000_000);
    // A second cancel of the same id is not found.
    let req = OrderCancelRequest {
        market: "ETH_USDT".to_string(),
        order_id: o.id,
    };
    assert_eq!(
        c.order_cancel(true, req, U1, 4_000).unwrap_err(),
        EngineError::NotFound
    );
}

#[test]
fn transfer_moves_available_funds_or_reports_failure() {
    let mut c = engine();
    deposit(&mut c, U1, "USDT", units(100), 1);
    let req = TransferRequest {
        asset: "USDT".to_string(),
        to: U2,
        delta: units(30),
        memo: String::new(),
    };
    let resp = c.transfer(true, req, U1, 5_000).unwrap();
    assert!(resp.success);
    assert_eq!(avail(&c, U1, USDT), 70_000_000_000);
    assert_eq!(avail(&c, U2, USDT), 30_000_000_000);
    // More than the sender holds: refused without error.
    let req = TransferRequest {
        asset: "USDT".to_string(),
        to: U2,
        delta: units(1_000),
        memo: String::new(),
    };
    let resp = c.transfer(true, req, U1, 6_000).unwrap();
    assert!(!resp.success);
    assert_eq!(avail(&c, U1, USDT), 70_000_000_000);
}

#[test]
fn repeated_business_id_is_idempotent_or_rejected() {
    let mut c = engine();
    deposit(&mut c, U1, "USDT", units(100), 7);
    // The same key with the same change: accepted, applied once.
    deposit(&mut c, U1, "USDT", units(100), 7);
    assert_eq!(avail(&c, U1, USDT), 100_000_000_000);
    // The same key with a different change: RepeatUpdate.
    let req = BalanceUpdateRequest {
        asset: "USDT".to_string(),
        business: "deposit".to_string(),
        business_id: 7,
        delta: units(55),
        detail: String::new(),
    };
    assert_eq!(
        c.update_balance(true, req, U1, 1_000).unwrap_err(),
        EngineError::RepeatUpdate
    );
}

#[test]
fn order_ids_grow_monotonically() {
    let mut c = engine();
    deposit(&mut c, U1, "USDT", units(1_000), 1);
    let a = c
        .order_put(true, limit_order(OrderSide::BID, units(1), units(10)), U1, 2_000)
        .unwrap();
    let b = c
        .order_put(true, limit_order(OrderSide::BID, units(1), units(11)), U1, 3_000)
        .unwrap();
    assert!(a.id < b.id);
    assert!(c.op_log[0].id < c.op_log[1].id);
}

#[test]
fn market_reload_appends_assets_and_markets() {
    let mut c = engine();
    deposit(&mut c, U1, "ETH", units(5), 1);
    c.order_put(true, limit_order(OrderSide::ASK, units(1), units(10)), U1, 2_000)
        .unwrap();
    let new_assets = vec![asset("BTC")];
    let new_markets = vec![Market {
        name: "BTC_USDT".to_string(),
        base: "BTC".to_string(),
        quote: "USDT".to_string(),
        amount_prec: 4,
        price_prec: 2,
        fee_prec: 4,
        min_amount: d(10_000_000),
    }];
    c.market_reload(new_assets, new_markets).unwrap();
    assert_eq!(c.markets.len(), 2);
    assert_eq!(c.markets[1].name, "BTC_USDT");
    assert_eq!(c.markets[1].asks.len(), 0);
    // The resting order and its freeze are untouched.
    assert_eq!(c.markets[0].asks.len(), 1);
    assert_eq!(frozen(&c, U1, ETH), 1_000_000_000);
    // A duplicate market name is rejected.
    let dup = vec![Market {
        name: "ETH_USDT".to_string(),
        base: "ETH".to_string(),
        quote: "USDT".to_string(),
        amount_prec: 4,
        price_prec: 2,
        fee_prec: 4,
        min_amount: d(10_000_000),
    }];
    assert!(c.market_reload(Vec::new(), dup).is_err());
}

#[test]
fn order_query_lists_exactly_the_users_orders() {
    let mut c = engine();
    deposit(&mut c, U1, "USDT", units(1_000), 1);
    deposit(&mut c, U2, "USDT", units(1_000), 2);
    let a = c
        .order_put(true, limit_order(OrderSide::BID, units(1), units(10)), U1, 2_000)
        .unwrap();
    c.order_put(true, limit_order(OrderSide::BID, units(1), units(11)), U2, 3_000)
        .unwrap();
    let b = c
        .order_put(true, limit_order(OrderSide::BID, units(1), units(12)), U1, 4_000)
        .unwrap();
    let market = "ETH_USDT".to_string();
    let mine = c.order_query(&market, U1).unwrap();
    assert_eq!(mine.len(), 2);
    // Best first: the 12 bid precedes the 10 bid.
    assert_eq!(mine[0].id, b.id);
    assert_eq!(mine[1].id, a.id);
    assert!(c.order_query(&"NO_SUCH".to_string(), U1).is_err());
}

#[test]
fn persistor_sinks_record_or_drop() {
    let mut c = engine();
    deposit(&mut c, U1, "USDT", units(1_000), 1);
    let o = c
        .order_put(true, limit_order(OrderSide::BID, units(1), units(10)), U1, 2_000)
        .unwrap();
    // The in-memory sink recorded the deposit and the PUT.
    let mem: &MemBasedPersistor = &c.persistor;
    assert!(mem.real_persist());
    assert!(mem.messages.len() >= 2);
    // The dropping sink takes the same calls and keeps nothing.
    let mut dummy = DummyPersistor::new();
    assert!(!dummy.real_persist());
    dummy.put_order(&o, OrderEventType::PUT);
    let _boxed = DummyPersistor::new_box();
    // Replay of the journal sends nothing to any sink.
    let mut c2 = engine();
    for entry in &c.op_log {
        c2.replay(entry).unwrap();
    }
    assert_eq!(c2.persistor.messages.len(), 0);
    assert_eq!(c2.markets[0].bids[0].id, o.id);
}

#[test]
fn transfer_to_oneself_is_refused_and_changes_nothing() {
    let mut c = engine();
    deposit(&mut c, U1, "USDT", units(100), 21);
    let req = TransferRequest {
        asset: "USDT".to_string(),
        to: U1,
        delta: units(30),
        memo: String::new(),
    };
    match c.transfer(true, req, U1, 5_000) {
        Err(e) => assert_eq!(e, EngineError::InvalidArgument),
        Ok(_) => panic!("a self-transfer must be refused"),
    }
    assert_eq!(avail(&c, U1, USDT), 100_000_000_000);
}

#[test]
fn batch_with_reset_sweeps_then_places_with_fresh_ids() {
    let mut c = engine();
    deposit(&mut c, U1, "USDT", units(10_000), 31);
    c.order_put(true, limit_order(OrderSide::BID, units(1), units(400)), U1, 2_000)
        .unwrap();
    assert_eq!(c.markets[0].bids.len(), 1);
    let log_before = c.op_log.len();
    let req = BatchOrderPutRequest {
        market: "ETH_USDT".to_string(),
        reset: true,
        orders: vec![
            limit_order(OrderSide::BID, units(1), units(410)),
            limit_order(OrderSide::BID, units(1), units(420)),
        ],
    };
    let resp = c.batch_order_put(true, req, U1, 3_000).unwrap();
    assert!(resp.success);
    assert_eq!(resp.order_ids.len(), 2);
    assert!(resp.order_ids[0] < resp.order_ids[1]);
    // The old order was swept; only the two new ones rest.
    assert_eq!(c.markets[0].bids.len(), 2);
    // One journal entry for the whole batch.
    assert_eq!(c.op_log.len(), log_before + 1);
}

#[test]
fn balance_history_carries_the_usdt_market_price() {
    let mut c = engine();
    deposit(&mut c, U1, "ETH", units(5), 41);
    deposit(&mut c, U2, "USDT", units(10_000), 42);
    c.order_put(true, limit_order(OrderSide::ASK, units(1), units(500)), U1, 2_000)
        .unwrap();
    c.order_put(true, limit_order(OrderSide::BID, units(1), units(500)), U2, 3_000)
        .unwrap();
    // After the trade the market's price reads 500; a further ETH
    // deposit records it, a USDT deposit has no USDT-quoted market.
    deposit(&mut c, U1, "ETH", units(1), 43);
    match c.persistor.messages.last().unwrap() {
        Message::DepositMessage(h) => assert_eq!(h.market_price, units(500)),
        _ => panic!("expected a deposit event"),
    }
    deposit(&mut c, U2, "USDT", units(1), 44);
    match c.persistor.messages.last().unwrap() {
        Message::DepositMessage(h) => assert_eq!(h.market_price, d(0)),
        _ => panic!("expected a deposit event"),
    }
}
